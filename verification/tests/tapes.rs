use bf_run::bf_memory::{BfMemory, BfMemoryMemSafe, BfMemoryMemSafeSingleArray, BfMemoryMemUnsafe};

fn write_and_read_back<T: BfMemory>(mut tape: T, indices: &[i32]) {
    for (n, index) in indices.iter().enumerate() {
        assert!(tape.can_reach(*index));
        assert_eq!(*tape.get_ref(*index), 0);
        *tape.get_ref(*index) = (n + 1) as u8;
    }
    for (n, index) in indices.iter().enumerate() {
        assert_eq!(*tape.get_ref(*index), (n + 1) as u8);
    }
}

#[test]
fn dual_vector_keeps_what_was_written() {
    write_and_read_back(BfMemoryMemSafe::new(None), &[0, 1, -1, 7, -7, 1000, -1000, 2, -2]);
}

#[test]
fn single_vector_keeps_what_was_written() {
    write_and_read_back(BfMemoryMemSafeSingleArray::new(None), &[0, 1, -1, 7, -7, 1000, -1000, 2, -2]);
}

#[test]
fn single_vector_asked_for_an_odd_size_keeps_what_was_written() {
    write_and_read_back(BfMemoryMemSafeSingleArray::new(Some(3)), &[0, 1, -1, 5, -5, 64, -64]);
}

#[test]
fn fixed_array_keeps_what_was_written() {
    write_and_read_back(BfMemoryMemUnsafe::new(None), &[0, 1, -1, 7, -7, 1000, -1000, 32767, -32767]);
}

#[test]
fn dual_vector_grows_only_as_far_as_needed() {
    let mut tape = BfMemoryMemSafe::new(Some(10));
    assert_eq!(tape.positives.len(), 0);
    assert_eq!(tape.negatives.len(), 0);
    *tape.get_ref(3) = 9;
    assert_eq!(tape.positives, vec![0, 0, 0, 9]);
    assert_eq!(tape.negatives.len(), 0);
    *tape.get_ref(-2) = 5;
    assert_eq!(tape.negatives, vec![0, 0, 5]);
    assert_eq!(tape.positives, vec![0, 0, 0, 9]);
}

#[test]
fn dual_vector_reaches_the_ends_of_the_index_range() {
    let tape = BfMemoryMemSafe::new(None);
    assert!(tape.can_reach(i32::MAX));
    assert!(tape.can_reach(i32::MIN));
}

#[test]
fn single_vector_starts_with_two_bytes_at_least() {
    assert_eq!(BfMemoryMemSafeSingleArray::new(None).vector.len(), 2);
    assert_eq!(BfMemoryMemSafeSingleArray::new(Some(0)).vector.len(), 2);
    assert_eq!(BfMemoryMemSafeSingleArray::new(Some(1)).vector.len(), 2);
    assert_eq!(BfMemoryMemSafeSingleArray::new(Some(2)).vector.len(), 2);
    assert_eq!(BfMemoryMemSafeSingleArray::new(Some(10)).vector.len(), 10);
}

#[test]
fn single_vector_has_an_even_length() {
    assert_eq!(BfMemoryMemSafeSingleArray::new(Some(3)).vector, vec![0, 0]);
    assert_eq!(BfMemoryMemSafeSingleArray::new(Some(5)).vector, vec![0, 0, 0, 0]);
    assert_eq!(BfMemoryMemSafeSingleArray::new(Some(11)).vector.len(), 10);
    assert_eq!(BfMemoryMemSafeSingleArray::new(Some(usize::MAX % 4096)).vector.len(), 4094);
}

#[test]
fn single_vector_grows_at_both_ends_and_stays_centred() {
    let mut tape = BfMemoryMemSafeSingleArray::new(Some(4));
    *tape.get_ref(0) = 7;
    *tape.get_ref(1) = 8;
    *tape.get_ref(-1) = 6;
    assert_eq!(tape.vector, vec![0, 6, 7, 8]);
    tape.increase_memory();
    assert_eq!(tape.vector, vec![0, 0, 0, 6, 7, 8, 0, 0]);
    assert_eq!(*tape.get_ref(0), 7);
    assert_eq!(*tape.get_ref(1), 8);
    assert_eq!(*tape.get_ref(-1), 6);
}

#[test]
fn single_vector_asked_for_an_odd_size_doubles_an_even_length() {
    let mut tape = BfMemoryMemSafeSingleArray::new(Some(5));
    *tape.get_ref(0) = 1;
    *tape.get_ref(1) = 2;
    assert_eq!(tape.vector, vec![0, 0, 1, 2]);
    tape.increase_memory();
    assert_eq!(tape.vector, vec![0, 0, 0, 0, 1, 2, 0, 0]);
    tape.increase_memory();
    assert_eq!(tape.vector.len(), 16);
    assert_eq!(*tape.get_ref(1), 2);
}

#[test]
fn single_vector_grows_under_an_access_and_keeps_what_was_written() {
    let mut tape = BfMemoryMemSafeSingleArray::new(Some(4));
    *tape.get_ref(-1) = 2;
    *tape.get_ref(0) = 3;
    *tape.get_ref(1) = 4;
    assert_eq!(tape.vector, vec![0, 2, 3, 4]);
    *tape.get_ref(2) = 5;
    assert_eq!(tape.vector, vec![0, 0, 0, 2, 3, 4, 5, 0]);
    *tape.get_ref(-3) = 6;
    assert_eq!(tape.vector, vec![0, 6, 0, 2, 3, 4, 5, 0]);
}

#[test]
fn single_vector_does_not_grow_for_a_cell_it_holds() {
    let mut tape = BfMemoryMemSafeSingleArray::new(Some(8));
    for index in [-3, -2, -1, 0, 1, 2, 3] {
        *tape.get_ref(index) = 1;
        assert_eq!(tape.vector.len(), 8);
    }
    assert_eq!(tape.vector, vec![0, 1, 1, 1, 1, 1, 1, 1]);
}

#[test]
fn dual_vector_does_not_grow_for_a_cell_it_holds() {
    let mut tape = BfMemoryMemSafe::new(None);
    *tape.get_ref(4) = 1;
    *tape.get_ref(-4) = 2;
    for index in [-4, -3, -2, -1, 0, 1, 2, 3, 4] {
        assert!(*tape.get_ref(index) <= 2);
        assert_eq!(tape.positives.len(), 5);
        assert_eq!(tape.negatives.len(), 5);
    }
    assert_eq!(tape.positives, vec![0, 0, 0, 0, 1]);
    assert_eq!(tape.negatives, vec![0, 0, 0, 0, 2]);
}

#[test]
fn fixed_array_keeps_its_length() {
    let mut tape = BfMemoryMemUnsafe::new(Some(6));
    *tape.get_ref(-3) = 1;
    *tape.get_ref(2) = 2;
    assert_eq!(tape.array, vec![1, 0, 0, 0, 0, 2]);
}

#[test]
fn single_vector_grows_when_a_cell_lies_outside() {
    let mut tape = BfMemoryMemSafeSingleArray::new(Some(4));
    *tape.get_ref(1) = 3;
    // Position 0 holds no cell: index -2 lies outside a vector of 4.
    *tape.get_ref(-2) = 4;
    assert_eq!(tape.vector.len(), 8);
    assert_eq!(*tape.get_ref(1), 3);
    assert_eq!(*tape.get_ref(-2), 4);
    *tape.get_ref(100) = 5;
    assert_eq!(tape.vector.len(), 256);
    assert_eq!(*tape.get_ref(1), 3);
    assert_eq!(*tape.get_ref(-2), 4);
    assert_eq!(*tape.get_ref(100), 5);
}

#[test]
fn single_vector_can_reach_far_cells() {
    let tape = BfMemoryMemSafeSingleArray::new(None);
    assert!(tape.can_reach(1_000_000));
    assert!(tape.can_reach(-1_000_000));
    assert_eq!(tape.vector.len(), 2);
}

#[test]
fn fixed_array_has_the_size_asked_for() {
    assert_eq!(BfMemoryMemUnsafe::new(None).array.len(), 65535);
    assert_eq!(BfMemoryMemUnsafe::new(Some(10)).array.len(), 10);
}

#[test]
fn fixed_array_maps_an_index_to_half_the_size_plus_the_index() {
    let mut tape = BfMemoryMemUnsafe::new(Some(10));
    *tape.get_ref(0) = 1;
    *tape.get_ref(4) = 2;
    *tape.get_ref(-5) = 3;
    assert_eq!(tape.array, vec![3, 0, 0, 0, 0, 1, 0, 0, 0, 2]);
}

#[test]
fn fixed_array_reaches_only_its_own_cells() {
    let tape = BfMemoryMemUnsafe::new(Some(10));
    assert!(tape.can_reach(4));
    assert!(!tape.can_reach(5));
    assert!(tape.can_reach(-5));
    assert!(!tape.can_reach(-6));
    assert!(!tape.can_reach(i32::MAX));
    assert!(!tape.can_reach(i32::MIN));
    let empty = BfMemoryMemUnsafe::new(Some(0));
    assert!(!empty.can_reach(0));
}

#[test]
fn growing_tapes_move_the_cursor_through_a_callback() {
    let addr = [1u8, 2, 3, 4, 5, 6, 7, 8];
    let expected: Vec<u8> = vec![
        0x81, 0xc1, 0x05, 0x00, 0x00, 0x00, // add ecx, 5
        0x48, 0xbf, 1, 2, 3, 4, 5, 6, 7, 8, // movabs rdi, tape
        0x89, 0xce, // mov esi, ecx
        0x52, 0x51, 0x55, 0x48, 0x89, 0xe5, 0x48, 0x83, 0xe4, 0xf0, 0x48, 0x81, 0xec, 0x80, 0x00,
        0x00, 0x00, 0x48, 0xb8, 0x88, 0x77, 0x66, 0x55, 0x44, 0x33, 0x22, 0x11, 0xff, 0xd0, 0x48,
        0x89, 0xec, 0x5d, 0x59, 0x5a,
    ];
    let dual = BfMemoryMemSafe::get_move_ops(addr, 0x1122334455667788, 5);
    assert_eq!(dual.as_slice(), expected.as_slice());
    let single = BfMemoryMemSafeSingleArray::get_move_ops(addr, 0x1122334455667788, 5);
    assert_eq!(single.as_slice(), expected.as_slice());
    let standard = BfMemoryMemUnsafe::get_standard_move_ops(addr, 0x1122334455667788, 5);
    assert_eq!(standard.as_slice(), expected.as_slice());
}

#[test]
fn fixed_array_moves_the_cursor_by_address_arithmetic() {
    let addr = [0u8; 8];
    let forward = BfMemoryMemUnsafe::get_move_ops(addr, 0, 1);
    assert_eq!(forward.as_slice(), &[0x48, 0x8d, 0x80, 0x01, 0x00, 0x00, 0x00]);
    let backward = BfMemoryMemUnsafe::get_move_ops(addr, 0, -1);
    assert_eq!(backward.as_slice(), &[0x48, 0x8d, 0x80, 0xff, 0xff, 0xff, 0xff]);
    let far = BfMemoryMemUnsafe::get_move_ops(addr, 0, i32::MIN);
    assert_eq!(far.as_slice(), &[0x48, 0x8d, 0x80, 0x00, 0x00, 0x00, 0x80]);
}
