use bf_run::bf_memory::{BfMemoryMemSafe, BfMemoryMemSafeSingleArray, BfMemoryMemUnsafe};
use bf_run::executors::bf_recompiler::{
    exec_region_size, fill_mapping, made_executable, padded_image, BFRecompilerError, Callbacks,
    RecompiledOps,
};
use bf_run::executors::operations::{Operation, Operations, ParseError};
use bf_run::executors::BfRecompiler;

const ADDR: [u8; 8] = [0x10, 0x20, 0x30, 0x40, 0x50, 0x60, 0x70, 0x80];

fn callbacks() -> Callbacks {
    Callbacks {
        get_ref: 0x0102030405060708,
        fetch_u8: 0x1112131415161718,
        print_u8: 0x2122232425262728,
    }
}

fn call(addr: [u8; 8]) -> Vec<u8> {
    let mut code = vec![
        0x52, 0x51, 0x55, 0x48, 0x89, 0xe5, 0x48, 0x83, 0xe4, 0xf0, 0x48, 0x81, 0xec, 0x80, 0x00,
        0x00, 0x00, 0x48, 0xb8,
    ];
    code.extend_from_slice(&addr);
    code.extend_from_slice(&[0xff, 0xd0, 0x48, 0x89, 0xec, 0x5d, 0x59, 0x5a]);
    code
}

const GET_REF: [u8; 8] = [0x08, 0x07, 0x06, 0x05, 0x04, 0x03, 0x02, 0x01];
const FETCH: [u8; 8] = [0x18, 0x17, 0x16, 0x15, 0x14, 0x13, 0x12, 0x11];
const PRINT: [u8; 8] = [0x28, 0x27, 0x26, 0x25, 0x24, 0x23, 0x22, 0x21];

fn prologue() -> Vec<u8> {
    let mut code = vec![0x48, 0xbf];
    code.extend_from_slice(&ADDR);
    code.extend_from_slice(&[0x48, 0xbe, 0, 0, 0, 0, 0, 0, 0, 0]);
    code.extend(call(GET_REF));
    code.extend_from_slice(&[0x8a, 0x10, 0xb9, 0, 0, 0, 0]);
    code
}

fn body_of(whole: &[u8]) -> Vec<u8> {
    let head = prologue();
    assert_eq!(&whole[..head.len()], head.as_slice());
    assert_eq!(&whole[whole.len() - 3..], &[0x88, 0x10, 0xc3]);
    whole[head.len()..whole.len() - 3].to_vec()
}

fn fixed_body(code: &str, optimize: bool) -> Vec<u8> {
    let recompiler = BfRecompiler::new(
        code.to_string(),
        Box::new(BfMemoryMemUnsafe::new(None)),
        ADDR,
        callbacks(),
        optimize,
    )
    .unwrap();
    body_of(recompiler.recompiled_memory.as_slice())
}

fn growing_move(delta: [u8; 4]) -> Vec<u8> {
    let mut code = vec![0x88, 0x10, 0x81, 0xc1];
    code.extend_from_slice(&delta);
    code.extend_from_slice(&[0x48, 0xbf]);
    code.extend_from_slice(&ADDR);
    code.extend_from_slice(&[0x89, 0xce]);
    code.extend(call(GET_REF));
    code.extend_from_slice(&[0x8a, 0x10]);
    code
}

#[test]
fn push_opcodes_appends_in_order() {
    let mut buffer = RecompiledOps::default();
    assert_eq!(buffer.len(), 0);
    buffer.push_opcodes(&[1, 2, 3]);
    buffer.push_opcodes(&[]);
    buffer.push(4);
    buffer.push_opcodes(&[5]);
    assert_eq!(buffer.as_slice(), &[1, 2, 3, 4, 5]);
    assert_eq!(buffer.len(), 5);
}

#[test]
fn push_le_writes_the_low_bytes_lowest_first() {
    let mut buffer = RecompiledOps::default();
    buffer.push_le(0x0102030405060708, 8);
    buffer.push_le(0x0102030405060708, 2);
    buffer.push_le(0xff, 0);
    buffer.push_le(1, 3);
    assert_eq!(buffer.as_slice(), &[8, 7, 6, 5, 4, 3, 2, 1, 8, 7, 1, 0, 0]);
}

#[test]
fn push_imm32_writes_twos_complement() {
    let mut buffer = RecompiledOps::default();
    buffer.push_imm32(1);
    buffer.push_imm32(-1);
    buffer.push_imm32(-17);
    buffer.push_imm32(i32::MAX);
    buffer.push_imm32(i32::MIN);
    buffer.push_imm32(0x12345678);
    assert_eq!(
        buffer.as_slice(),
        &[
            1, 0, 0, 0, 0xff, 0xff, 0xff, 0xff, 0xef, 0xff, 0xff, 0xff, 0xff, 0xff, 0xff, 0x7f, 0,
            0, 0, 0x80, 0x78, 0x56, 0x34, 0x12
        ]
    );
}

#[test]
fn add_fn_call_wraps_the_call_in_the_calling_convention() {
    let mut buffer = RecompiledOps::default();
    buffer.push(0x90);
    buffer.add_fn_call(0x0102030405060708);
    let mut expected = vec![0x90];
    expected.extend(call(GET_REF));
    assert_eq!(buffer.as_slice(), expected.as_slice());
}

#[test]
fn empty_program_is_prologue_and_epilogue() {
    assert_eq!(fixed_body("", true), Vec::<u8>::new());
    let recompiler = BfRecompiler::new(
        "".to_string(),
        Box::new(BfMemoryMemSafe::new(None)),
        ADDR,
        callbacks(),
        true,
    )
    .unwrap();
    let mut expected = prologue();
    expected.extend_from_slice(&[0x88, 0x10, 0xc3]);
    assert_eq!(recompiler.recompiled_memory.as_slice(), expected.as_slice());
}

#[test]
fn mod_is_an_add_to_dl() {
    assert_eq!(fixed_body("+", false), vec![0x80, 0xc2, 0x01]);
    assert_eq!(fixed_body("-", false), vec![0x80, 0xc2, 0xff]);
    assert_eq!(fixed_body("+++", true), vec![0x80, 0xc2, 0x03]);
    assert_eq!(fixed_body("+++", false), vec![0x80, 0xc2, 0x01, 0x80, 0xc2, 0x01, 0x80, 0xc2, 0x01]);
}

#[test]
fn set_value_is_a_mov_to_dl() {
    assert_eq!(fixed_body("[-]", true), vec![0xb2, 0x00]);
    assert_eq!(fixed_body("[-]+++++", true), vec![0xb2, 0x05]);
}

#[test]
fn move_on_the_fixed_tape_is_flush_lea_reload() {
    assert_eq!(
        fixed_body(">", false),
        vec![0x88, 0x10, 0x48, 0x8d, 0x80, 0x01, 0x00, 0x00, 0x00, 0x8a, 0x10]
    );
    assert_eq!(
        fixed_body("<<", true),
        vec![0x88, 0x10, 0x48, 0x8d, 0x80, 0xfe, 0xff, 0xff, 0xff, 0x8a, 0x10]
    );
}

#[test]
fn move_of_zero_is_still_flush_and_reload() {
    assert_eq!(
        fixed_body("><", true),
        vec![0x88, 0x10, 0x48, 0x8d, 0x80, 0x00, 0x00, 0x00, 0x00, 0x8a, 0x10]
    );
}

#[test]
fn move_on_a_growing_tape_calls_back() {
    for code in [
        body_of(
            BfRecompiler::new(
                ">>>".to_string(),
                Box::new(BfMemoryMemSafe::new(None)),
                ADDR,
                callbacks(),
                true,
            )
            .unwrap()
            .recompiled_memory
            .as_slice(),
        ),
        body_of(
            BfRecompiler::new(
                ">>>".to_string(),
                Box::new(BfMemoryMemSafeSingleArray::new(None)),
                ADDR,
                callbacks(),
                true,
            )
            .unwrap()
            .recompiled_memory
            .as_slice(),
        ),
    ] {
        assert_eq!(code, growing_move([3, 0, 0, 0]));
    }
}

#[test]
fn input_and_output_call_back_around_push_and_pop_of_rax() {
    let mut expected = vec![0x50];
    expected.extend(call(FETCH));
    expected.extend_from_slice(&[0x88, 0xc2, 0x58]);
    assert_eq!(fixed_body(",", true), expected);
    let mut expected = vec![0x50, 0x40, 0x88, 0xd7];
    expected.extend(call(PRINT));
    expected.push(0x58);
    assert_eq!(fixed_body(".", true), expected);
}

#[test]
fn loop_jumps_span_the_body() {
    // The body takes 3 bytes: forward 3 + 5, backward -(3 + 5 + 9).
    assert_eq!(
        fixed_body("[-]", false),
        vec![
            0x80, 0xfa, 0x00, 0x0f, 0x84, 0x08, 0x00, 0x00, 0x00, 0x80, 0xc2, 0xff, 0xe9, 0xef,
            0xff, 0xff, 0xff
        ]
    );
    assert_eq!(
        fixed_body("[]", false),
        vec![0x80, 0xfa, 0x00, 0x0f, 0x84, 0x05, 0x00, 0x00, 0x00, 0xe9, 0xf2, 0xff, 0xff, 0xff]
    );
}

fn rel32(code: &[u8], at: usize) -> i64 {
    i32::from_le_bytes([code[at], code[at + 1], code[at + 2], code[at + 3]]) as i64
}

#[test]
fn loop_jumps_lead_to_the_comparison_and_behind_the_loop() {
    let code = fixed_body("[>[-.]<,]", false);
    let end = code.len() as i64;
    // The outer loop is the whole of the code.
    assert_eq!(&code[..5], &[0x80, 0xfa, 0x00, 0x0f, 0x84]);
    assert_eq!(9 + rel32(&code, 5), end);
    assert_eq!(code[code.len() - 5], 0xe9);
    assert_eq!(end + rel32(&code, code.len() - 4), 0);
    // The inner loop starts behind the outer head and the first move.
    let inner = 9 + 11;
    assert_eq!(&code[inner..inner + 5], &[0x80, 0xfa, 0x00, 0x0f, 0x84]);
    let inner_end = inner as i64 + 9 + rel32(&code, inner + 5);
    assert_eq!(code[inner_end as usize - 5], 0xe9);
    assert_eq!(inner_end + rel32(&code, inner_end as usize - 4), inner as i64);
}

#[test]
fn nested_loops_are_emitted_inside_out() {
    let inner = vec![
        0x80, 0xfa, 0x00, 0x0f, 0x84, 0x08, 0x00, 0x00, 0x00, 0x80, 0xc2, 0x01, 0xe9, 0xef, 0xff,
        0xff, 0xff,
    ];
    let mut expected = vec![0x80, 0xfa, 0x00, 0x0f, 0x84, 22, 0, 0, 0];
    expected.extend(inner);
    expected.extend_from_slice(&[0xe9, 0xe1, 0xff, 0xff, 0xff]);
    assert_eq!(fixed_body("[[+]]", false), expected);
}

#[test]
fn convert_to_machine_code_appends_to_what_is_there() {
    let program = Operations {
        operations: vec![Operation::SetValue(7), Operation::Mod(-128), Operation::Mod(127)],
    };
    let mut buffer = RecompiledOps::default();
    buffer.push(0x90);
    BfRecompiler::<BfMemoryMemUnsafe>::convert_to_machine_code(
        program.as_slice(),
        ADDR,
        &callbacks(),
        &mut buffer,
    )
    .unwrap();
    assert_eq!(buffer.as_slice(), &[0x90, 0xb2, 0x07, 0x80, 0xc2, 0x80, 0x80, 0xc2, 0x7f]);
}

#[test]
fn convert_operation_emits_one_operation() {
    let mut buffer = RecompiledOps::default();
    BfRecompiler::<BfMemoryMemUnsafe>::convert_operation(
        &Operation::Move(-2),
        ADDR,
        &callbacks(),
        &mut buffer,
    )
    .unwrap();
    assert_eq!(
        buffer.as_slice(),
        &[0x88, 0x10, 0x48, 0x8d, 0x80, 0xfe, 0xff, 0xff, 0xff, 0x8a, 0x10]
    );
}

#[test]
fn unmatched_brackets_give_no_code() {
    let res = BfRecompiler::new(
        "+]".to_string(),
        Box::new(BfMemoryMemUnsafe::new(None)),
        ADDR,
        callbacks(),
        true,
    );
    assert!(matches!(
        res,
        Err(BFRecompilerError::ParseError(ParseError::UnmatchedCloseBracket(1)))
    ));
    let res = BfRecompiler::new(
        "[".to_string(),
        Box::new(BfMemoryMemUnsafe::new(None)),
        ADDR,
        callbacks(),
        true,
    );
    assert!(matches!(
        res,
        Err(BFRecompilerError::ParseError(ParseError::UnmatchedOpenBracket(0)))
    ));
}

#[test]
fn the_tape_stays_with_the_code() {
    let mut tape = BfMemoryMemUnsafe::new(Some(4));
    tape.array[1] = 9;
    let recompiler =
        BfRecompiler::new("+".to_string(), Box::new(tape), ADDR, callbacks(), true).unwrap();
    assert_eq!(recompiler._bf_memory.array, vec![0, 9, 0, 0]);
}

#[test]
fn region_size_is_the_next_multiple_of_the_page_size() {
    assert_eq!(exec_region_size(0), 4096);
    assert_eq!(exec_region_size(1), 4096);
    assert_eq!(exec_region_size(4095), 4096);
    assert_eq!(exec_region_size(4096), 8192);
    assert_eq!(exec_region_size(4097), 8192);
    assert_eq!(exec_region_size(10_000), 12288);
}

#[test]
fn padded_image_is_the_code_and_zeros() {
    let image = padded_image(&[1, 2, 3]);
    assert_eq!(image.len(), 4096);
    assert_eq!(&image[..3], &[1, 2, 3]);
    assert!(image[3..].iter().all(|byte| *byte == 0));
    let image = padded_image(&vec![7u8; 4096]);
    assert_eq!(image.len(), 8192);
    assert!(image[..4096].iter().all(|byte| *byte == 7));
    assert!(image[4096..].iter().all(|byte| *byte == 0));
}

#[test]
fn executable_memory_holds_the_code_and_zeros() {
    let recompiler = BfRecompiler::new(
        "+[-].".to_string(),
        Box::new(BfMemoryMemUnsafe::new(None)),
        ADDR,
        callbacks(),
        false,
    )
    .unwrap();
    let code = recompiler.recompiled_memory.as_slice().to_vec();
    let map = recompiler.create_exec_memory().unwrap();
    assert_eq!(map.len(), 4096);
    assert_eq!(&map[..code.len()], code.as_slice());
    assert!(map[code.len()..].iter().all(|byte| *byte == 0));
}

#[test]
fn a_refused_mapping_is_a_map_create_error() {
    let refusal = std::io::Error::from_raw_os_error(12);
    let res = fill_mapping(Err(refusal), &[0u8; 4096]);
    match res {
        Err(BFRecompilerError::MMapCreateError(err)) => assert_eq!(err.raw_os_error(), Some(12)),
        _ => panic!("a refused mapping must be reported as such"),
    }
}

#[test]
fn a_given_mapping_is_filled_and_made_executable() {
    let image = padded_image(&[0xc3]);
    let map = fill_mapping(memmap::MmapMut::map_anon(image.len()), &image).unwrap();
    assert_eq!(&map[..], image.as_slice());
}

#[test]
fn a_refused_protection_is_a_make_exec_error() {
    let refusal = std::io::Error::from_raw_os_error(13);
    match made_executable(Err(refusal)) {
        Err(BFRecompilerError::MMakeExecError(err)) => assert_eq!(err.raw_os_error(), Some(13)),
        _ => panic!("a refused protection must be reported as such"),
    }
}
