use bf_run::executors::operations::{Operation, Operations};

fn ops(list: Vec<Operation>) -> Operations {
    Operations { operations: list }
}

fn optimized(text: &str) -> Operations {
    let mut parsed = Operations::conv_string_to_operations(text).unwrap();
    parsed.optimize();
    parsed
}

#[test]
fn runs_of_plus_and_minus_fuse() {
    assert_eq!(optimized("+++++--"), ops(vec![Operation::Mod(3)]));
}

#[test]
fn runs_of_moves_fuse() {
    assert_eq!(optimized(">>><"), ops(vec![Operation::Move(2)]));
}

#[test]
fn a_move_of_zero_stays() {
    assert_eq!(optimized("+><-"), ops(vec![Operation::Mod(1), Operation::Move(0), Operation::Mod(-1)]));
}

#[test]
fn mod_wraps_as_a_signed_byte() {
    let text: String = std::iter::repeat('+').take(128).collect();
    assert_eq!(optimized(&text), ops(vec![Operation::Mod(-128)]));
    let text: String = std::iter::repeat('+').take(256).collect();
    assert_eq!(optimized(&text), ops(vec![Operation::Mod(0)]));
}

#[test]
fn clear_loop_becomes_set_value_zero() {
    assert_eq!(optimized("[-]"), ops(vec![Operation::SetValue(0)]));
    assert_eq!(optimized("[+]"), ops(vec![Operation::SetValue(0)]));
}

#[test]
fn loop_whose_body_optimizes_to_one_step_is_a_clear_loop() {
    assert_eq!(optimized("[+-+]"), ops(vec![Operation::SetValue(0)]));
}

#[test]
fn loop_of_two_steps_is_kept() {
    assert_eq!(
        optimized("[--]"),
        ops(vec![Operation::Loop(ops(vec![Operation::Mod(-2)]))])
    );
}

#[test]
fn mod_behind_set_value_fuses_into_it() {
    assert_eq!(optimized("[-]+++"), ops(vec![Operation::SetValue(3)]));
    assert_eq!(optimized("[-]-"), ops(vec![Operation::SetValue(255)]));
}

#[test]
fn set_value_replaces_what_stands_before_it() {
    // The clear loop is appended as it is; the next traversal fuses it.
    assert_eq!(optimized("+++[-]"), ops(vec![Operation::SetValue(0)]));
    assert_eq!(optimized("[-][-]"), ops(vec![Operation::SetValue(0)]));
}

#[test]
fn one_traversal_leaves_adjacent_set_values() {
    let parsed = Operations::conv_string_to_operations("+[-]").unwrap();
    let once = Operations::optimise_operations(parsed.as_slice());
    assert_eq!(once, ops(vec![Operation::Mod(1), Operation::SetValue(0)]));
    let twice = Operations::optimise_operations(once.as_slice());
    assert_eq!(twice, ops(vec![Operation::SetValue(0)]));
}

#[test]
fn input_and_output_stop_fusion() {
    assert_eq!(
        optimized("+.+,+"),
        ops(vec![
            Operation::Mod(1),
            Operation::PrintOutput,
            Operation::Mod(1),
            Operation::GetInput,
            Operation::Mod(1),
        ])
    );
}

#[test]
fn loops_are_optimized_inside() {
    assert_eq!(
        optimized("++[>+++<-]"),
        ops(vec![
            Operation::Mod(2),
            Operation::Loop(ops(vec![
                Operation::Move(1),
                Operation::Mod(3),
                Operation::Move(-1),
                Operation::Mod(-1),
            ])),
        ])
    );
}

#[test]
fn moves_that_would_overflow_do_not_fuse() {
    let mut program = ops(vec![Operation::Move(i32::MAX), Operation::Move(1)]);
    program.optimize();
    assert_eq!(program, ops(vec![Operation::Move(i32::MAX), Operation::Move(1)]));
    let program = ops(vec![Operation::Move(i32::MIN), Operation::Move(-1), Operation::Move(2)]);
    let once = Operations::optimise_operations(program.as_slice());
    assert_eq!(once, ops(vec![Operation::Move(i32::MIN), Operation::Move(1)]));
    let twice = Operations::optimise_operations(once.as_slice());
    assert_eq!(twice, ops(vec![Operation::Move(i32::MIN + 1)]));
}

#[test]
fn one_more_traversal_changes_nothing() {
    for text in ["+[-]+[>[-]<-]", "++[>+++[-]<-][-]", "+[-].", ",>,<.>.", "[[[+]]]"] {
        let done = optimized(text);
        let again = Operations::optimise_operations(done.as_slice());
        assert_eq!(again, done);
    }
}

#[test]
fn optimizing_twice_is_optimizing_once() {
    for text in ["+[-]+[>[-]<-]", "++[>+++[-]<-][-]", "[[-]]", "+><-"] {
        let once = optimized(text);
        let mut twice = optimized(text);
        twice.optimize();
        assert_eq!(twice, once);
    }
}

#[test]
fn nested_clear_loops_collapse_step_by_step() {
    // [[-]] becomes [SetValue(0)], which is no clear loop.
    assert_eq!(
        optimized("[[-]]"),
        ops(vec![Operation::Loop(ops(vec![Operation::SetValue(0)]))])
    );
}
