use bf_run::executors::operations::{Operation, Operations, ParseError};

fn ops(list: Vec<Operation>) -> Operations {
    Operations { operations: list }
}

#[test]
fn each_command_byte_emits_its_operation() {
    let parsed = Operations::conv_string_to_operations("+-<>,.").unwrap();
    let expected = ops(vec![
        Operation::Mod(1),
        Operation::Mod(-1),
        Operation::Move(-1),
        Operation::Move(1),
        Operation::GetInput,
        Operation::PrintOutput,
    ]);
    assert_eq!(parsed, expected);
}

#[test]
fn other_bytes_are_skipped() {
    let parsed = Operations::conv_string_to_operations("a + b\n-\tz").unwrap();
    assert_eq!(parsed, ops(vec![Operation::Mod(1), Operation::Mod(-1)]));
}

#[test]
fn empty_text_is_the_empty_program() {
    let parsed = Operations::conv_string_to_operations("").unwrap();
    assert_eq!(parsed.len(), 0);
}

#[test]
fn brackets_nest_into_loops() {
    let parsed = Operations::conv_string_to_operations("+[>[-]<]-").unwrap();
    let expected = ops(vec![
        Operation::Mod(1),
        Operation::Loop(ops(vec![
            Operation::Move(1),
            Operation::Loop(ops(vec![Operation::Mod(-1)])),
            Operation::Move(-1),
        ])),
        Operation::Mod(-1),
    ]);
    assert_eq!(parsed, expected);
}

#[test]
fn empty_loop_has_an_empty_body() {
    let parsed = Operations::conv_string_to_operations("[]").unwrap();
    assert_eq!(parsed, ops(vec![Operation::Loop(ops(vec![]))]));
}

#[test]
fn stray_close_is_reported_with_its_index() {
    let res = Operations::conv_string_to_operations("+]");
    assert_eq!(res.unwrap_err(), ParseError::UnmatchedCloseBracket(1));
}

#[test]
fn stray_close_behind_a_loop_is_reported() {
    let res = Operations::conv_string_to_operations("[+]x]");
    assert_eq!(res.unwrap_err(), ParseError::UnmatchedCloseBracket(4));
}

#[test]
fn first_stray_close_wins_over_a_later_open() {
    let res = Operations::conv_string_to_operations("]][");
    assert_eq!(res.unwrap_err(), ParseError::UnmatchedCloseBracket(0));
}

#[test]
fn open_loop_is_reported_with_its_index() {
    let res = Operations::conv_string_to_operations("++[--");
    assert_eq!(res.unwrap_err(), ParseError::UnmatchedOpenBracket(2));
}

#[test]
fn innermost_open_loop_is_the_one_reported() {
    let res = Operations::conv_string_to_operations("[+[-][>[");
    assert_eq!(res.unwrap_err(), ParseError::UnmatchedOpenBracket(7));
}

#[test]
fn index_counts_bytes_not_characters() {
    // "é" takes two bytes, so the bracket stands at byte 2.
    let res = Operations::conv_string_to_operations("é[");
    assert_eq!(res.unwrap_err(), ParseError::UnmatchedOpenBracket(2));
}

#[test]
fn iterator_to_operations_stops_behind_the_closing_bracket() {
    let text = b"[+-]>";
    let mut pos = 1usize;
    let body = Operations::iterator_to_operations(text, &mut pos, Some(0)).unwrap();
    assert_eq!(body, ops(vec![Operation::Mod(1), Operation::Mod(-1)]));
    assert_eq!(pos, 4);
}

#[test]
fn operations_with_the_same_shape_are_equal() {
    let a = ops(vec![Operation::Loop(ops(vec![Operation::SetValue(3)]))]);
    let b = ops(vec![Operation::Loop(ops(vec![Operation::SetValue(3)]))]);
    let c = ops(vec![Operation::Loop(ops(vec![Operation::SetValue(4)]))]);
    assert!(a == b);
    assert!(a != c);
    assert!(Operation::GetInput != Operation::PrintOutput);
    assert!(ops(vec![]) != ops(vec![Operation::GetInput]));
}
