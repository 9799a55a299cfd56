use bf_run::bf_memory::{BfMemory, BfMemoryMemSafe, BfMemoryMemSafeSingleArray, BfMemoryMemUnsafe};
use bf_run::executors::operations::{Operation, ParseError};
use bf_run::executors::{BfInterpreter, BfOptInterpreter, Executor, Fault, Machine, Run, Step};

const STEPS: u64 = 1_000_000;

fn text_run<T: BfMemory>(code: &str, tape: T, input: &[u8]) -> Run {
    let mut interpreter = BfInterpreter::new(code.to_string(), tape, true).unwrap();
    interpreter.start(input, STEPS)
}

fn tree_run<T: BfMemory>(code: &str, tape: T, optimize: bool, input: &[u8]) -> Run {
    let mut interpreter = BfOptInterpreter::new(code.to_string(), tape, optimize).unwrap();
    interpreter.start(input, STEPS)
}

/// Runs `code` on both interpreters, each of the three tapes, with the
/// optimizer on and off, and holds every output against `expected`.
fn all_agree(code: &str, input: &[u8], expected: &[u8]) {
    let runs = vec![
        text_run(code, BfMemoryMemSafe::new(None), input),
        text_run(code, BfMemoryMemSafeSingleArray::new(None), input),
        text_run(code, BfMemoryMemUnsafe::new(None), input),
        tree_run(code, BfMemoryMemSafe::new(None), true, input),
        tree_run(code, BfMemoryMemSafeSingleArray::new(None), true, input),
        tree_run(code, BfMemoryMemUnsafe::new(None), true, input),
        tree_run(code, BfMemoryMemSafe::new(None), false, input),
        tree_run(code, BfMemoryMemSafeSingleArray::new(None), false, input),
        tree_run(code, BfMemoryMemUnsafe::new(None), false, input),
    ];
    for run in runs {
        assert_eq!(run.end, Step::Done);
        assert_eq!(run.output, expected);
        assert_eq!(run.consumed, input.len());
    }
}

#[test]
fn eight_times_eight_plus_one_prints_a() {
    all_agree("++++++++[>++++++++<-]>+.", b"", b"A");
}

#[test]
fn one_byte_is_echoed() {
    all_agree(",.", b"Q", b"Q");
}

#[test]
fn cleared_cell_counts_up_to_an_exclamation_mark() {
    all_agree("+++++[>+++++<-]>[-]+++++++++++++++++++++++++++++++++.", b"", b"!");
}

#[test]
fn two_bytes_are_echoed_in_order() {
    all_agree(",>,<.>.", b"HI", b"HI");
}

#[test]
fn clear_loop_prints_a_zero_byte() {
    all_agree("+[-].", b"", &[0]);
}

#[test]
fn ten_times_ten_plus_one_prints_e() {
    all_agree(">+++++ +++++[<+++++ +++++>-]<+.", b"", b"e");
}

#[test]
fn plus_past_255_is_zero() {
    let code: String = std::iter::repeat('+').take(256).chain(".".chars()).collect();
    all_agree(&code, b"", &[0]);
    let code: String = std::iter::repeat('+').take(255).chain(".".chars()).collect();
    all_agree(&code, b"", &[255]);
}

#[test]
fn minus_past_zero_is_255() {
    all_agree("-.", b"", &[255]);
    all_agree("--.", b"", &[254]);
}

#[test]
fn loop_on_a_zero_cell_is_skipped_with_all_it_holds() {
    all_agree("[.,[.,[.,]]+.]", b"", b"");
    all_agree("[[.],]+.", b"", &[1]);
}

#[test]
fn a_move_of_zero_changes_nothing() {
    all_agree("+++><.", b"", &[3]);
    all_agree("+++<>.", b"", &[3]);
    all_agree("+[><-]>.<<>+.", b"", &[0, 1]);
}

#[test]
fn cells_left_of_the_start_are_usable() {
    all_agree("<+++<++>.<.", b"", &[3, 2]);
}

#[test]
fn output_comes_in_program_order() {
    all_agree("+.+.+.>++++[<.>-]", b"", &[1, 2, 3, 3, 3, 3, 3]);
}

#[test]
fn read_before_used_up_input_stops_the_run() {
    let run = text_run(",.,.", BfMemoryMemSafe::new(None), b"x");
    assert_eq!(run.end, Step::Input);
    assert_eq!(run.output, b"x");
    assert_eq!(run.consumed, 1);
    let run = tree_run(",.,.", BfMemoryMemSafe::new(None), true, b"x");
    assert_eq!(run.end, Step::Input);
    assert_eq!(run.output, b"x");
    assert_eq!(run.consumed, 1);
}

#[test]
fn a_run_can_be_taken_up_again_with_more_input() {
    let mut interpreter =
        BfOptInterpreter::new(",.,.".to_string(), BfMemoryMemSafe::new(None), true).unwrap();
    let first = interpreter.start(b"a", STEPS);
    assert_eq!(first.end, Step::Input);
    assert_eq!(first.output, b"a");
    let second = interpreter.start(b"b", STEPS);
    assert_eq!(second.end, Step::Done);
    assert_eq!(second.output, b"b");
    let mut interpreter =
        BfInterpreter::new(",.,.".to_string(), BfMemoryMemSafe::new(None), true).unwrap();
    let first = interpreter.start(b"a", STEPS);
    assert_eq!(first.end, Step::Input);
    let second = interpreter.start(b"b", STEPS);
    assert_eq!(second.end, Step::Done);
    assert_eq!(second.output, b"b");
}

#[test]
fn an_endless_loop_uses_up_the_steps() {
    let run = text_run("+[]", BfMemoryMemSafe::new(None), b"");
    assert_eq!(run.end, Step::More);
    let run = tree_run("+[]", BfMemoryMemSafe::new(None), false, b"");
    assert_eq!(run.end, Step::More);
    let run = tree_run("+[.]", BfMemoryMemSafe::new(None), false, b"");
    assert_eq!(run.end, Step::More);
    assert!(run.output.len() > 1000);
    assert!(run.output.iter().all(|byte| *byte == 1));
}

#[test]
fn no_steps_no_run() {
    let mut interpreter =
        BfInterpreter::new("+.".to_string(), BfMemoryMemSafe::new(None), true).unwrap();
    let run = interpreter.start(b"", 0);
    assert_eq!(run.end, Step::More);
    assert_eq!(run.output.len(), 0);
    let run = interpreter.start(b"", 1);
    assert_eq!(run.end, Step::More);
    let run = interpreter.start(b"", 1);
    assert_eq!(run.end, Step::More);
    assert_eq!(run.output, vec![1]);
    let run = interpreter.start(b"", 1);
    assert_eq!(run.end, Step::Done);
}

#[test]
fn text_interpreter_steps_report_what_to_do() {
    let mut interpreter =
        BfInterpreter::new(",+.".to_string(), BfMemoryMemSafe::new(None), true).unwrap();
    assert_eq!(interpreter.step(None), Step::Input);
    assert_eq!(interpreter.step(None), Step::Input);
    assert_eq!(interpreter.step(Some(b'a')), Step::More);
    assert_eq!(interpreter.step(None), Step::More);
    assert_eq!(interpreter.step(None), Step::Output(b'b'));
    assert_eq!(interpreter.step(None), Step::Done);
    assert_eq!(interpreter.step(None), Step::Done);
    assert_eq!(interpreter.memory().positives, vec![b'b']);
}

#[test]
fn tree_interpreter_steps_report_what_to_do() {
    let mut interpreter =
        BfOptInterpreter::new(",+.".to_string(), BfMemoryMemSafe::new(None), true).unwrap();
    // The first step loads cell 0.
    assert_eq!(interpreter.step(None), Step::More);
    assert_eq!(interpreter.step(None), Step::Input);
    assert_eq!(interpreter.step(Some(b'a')), Step::More);
    assert_eq!(interpreter.step(None), Step::More);
    assert_eq!(interpreter.step(None), Step::Output(b'b'));
    // The value is still held beside the tape.
    assert_eq!(interpreter.memory().positives, vec![0]);
    assert_eq!(interpreter.step(None), Step::Done);
    assert_eq!(interpreter.memory().positives, vec![b'b']);
    assert_eq!(interpreter.step(None), Step::Done);
}

#[test]
fn tree_interpreter_flushes_the_value_when_the_cursor_moves() {
    let mut interpreter =
        BfOptInterpreter::new("+++>++".to_string(), BfMemoryMemSafe::new(None), true).unwrap();
    assert_eq!(interpreter.step(None), Step::More); // load
    assert_eq!(interpreter.step(None), Step::More); // Mod(3)
    assert_eq!(interpreter.memory().positives, vec![0]);
    assert_eq!(interpreter.step(None), Step::More); // Move(1)
    assert_eq!(interpreter.memory().positives, vec![3, 0]);
    assert_eq!(interpreter.step(None), Step::More); // Mod(2)
    assert_eq!(interpreter.step(None), Step::Done);
    assert_eq!(interpreter.memory().positives, vec![3, 2]);
}

#[test]
fn tree_interpreter_moves_right_on_a_positive_move() {
    let mut interpreter =
        BfOptInterpreter::new(">+<<-".to_string(), BfMemoryMemSafe::new(None), false).unwrap();
    let run = interpreter.start(b"", STEPS);
    assert_eq!(run.end, Step::Done);
    assert_eq!(interpreter.memory().positives, vec![0, 1]);
    assert_eq!(interpreter.memory().negatives, vec![0, 255]);
}

#[test]
fn tree_interpreter_holds_the_program_it_was_given() {
    let interpreter =
        BfOptInterpreter::new("+[-]++".to_string(), BfMemoryMemSafe::new(None), true).unwrap();
    assert_eq!(interpreter.get_ops().len(), 1);
    assert!(interpreter.get_ops()[0] == Operation::SetValue(2));
    let interpreter =
        BfOptInterpreter::new("+[-]++".to_string(), BfMemoryMemSafe::new(None), false).unwrap();
    assert_eq!(interpreter.get_ops().len(), 4);
}

#[test]
fn tree_interpreter_refuses_unmatched_brackets() {
    let res = BfOptInterpreter::new("+[".to_string(), BfMemoryMemSafe::new(None), true);
    assert_eq!(res.unwrap_err(), ParseError::UnmatchedOpenBracket(1));
    let res = BfOptInterpreter::new("]".to_string(), BfMemoryMemSafe::new(None), true);
    assert_eq!(res.unwrap_err(), ParseError::UnmatchedCloseBracket(0));
}

#[test]
fn text_interpreter_meets_unmatched_brackets_as_it_runs() {
    // A stray `]` on a zero cell is passed over.
    let run = text_run("].", BfMemoryMemSafe::new(None), b"");
    assert_eq!(run.end, Step::Done);
    assert_eq!(run.output, vec![0]);
    // On a cell that is not zero there is no loop to go back into.
    let run = text_run("+.].", BfMemoryMemSafe::new(None), b"");
    assert_eq!(run.end, Step::Fault(Fault::UnmatchedClose));
    assert_eq!(run.output, vec![1]);
    // An open loop on a zero cell is skipped to the end of the text.
    let run = text_run(".[..", BfMemoryMemSafe::new(None), b"");
    assert_eq!(run.end, Step::Done);
    assert_eq!(run.output, vec![0]);
}

#[test]
fn skip_loops_finds_the_closing_bracket() {
    let text = b"[a[b]c[d[e]]f]g]";
    assert_eq!(BfInterpreter::<BfMemoryMemSafe>::skip_loops(text, 1), 13);
    assert_eq!(BfInterpreter::<BfMemoryMemSafe>::skip_loops(text, 3), 4);
    assert_eq!(BfInterpreter::<BfMemoryMemSafe>::skip_loops(text, 14), 15);
    assert_eq!(BfInterpreter::<BfMemoryMemSafe>::skip_loops(b"[[]", 1), 3);
    assert_eq!(BfInterpreter::<BfMemoryMemSafe>::skip_loops(b"", 0), 0);
}

#[test]
fn leaving_the_fixed_tape_is_a_fault() {
    let run = text_run("+.>>+.", BfMemoryMemUnsafe::new(Some(3)), b"");
    assert_eq!(run.end, Step::Fault(Fault::OutOfTape));
    assert_eq!(run.output, vec![1]);
    let run = tree_run("+.>>+.", BfMemoryMemUnsafe::new(Some(3)), false, b"");
    assert_eq!(run.end, Step::Fault(Fault::OutOfTape));
    assert_eq!(run.output, vec![1]);
    let run = tree_run("+.", BfMemoryMemUnsafe::new(Some(0)), false, b"");
    assert_eq!(run.end, Step::Fault(Fault::OutOfTape));
    assert_eq!(run.output.len(), 0);
}

#[test]
fn cursor_may_leave_the_fixed_tape_while_no_cell_is_touched() {
    // The text interpreter touches no cell while it only moves.
    let run = text_run(">>>><<<<+.", BfMemoryMemUnsafe::new(Some(3)), b"");
    assert_eq!(run.end, Step::Done);
    assert_eq!(run.output, vec![1]);
}

#[test]
fn single_vector_tape_grows_under_a_running_program() {
    let code = "+[>+]";
    let mut interpreter =
        BfOptInterpreter::new(code.to_string(), BfMemoryMemSafeSingleArray::new(None), true).unwrap();
    let run = interpreter.start(b"", 10_000);
    assert_eq!(run.end, Step::More);
    assert!(interpreter.memory().vector.len() >= 2048);
}

fn tree_run_of(program: Vec<Operation>, input: &[u8]) -> Run {
    let operations = bf_run::executors::operations::Operations { operations: program };
    let mut interpreter = BfOptInterpreter::with_operations(operations, BfMemoryMemSafe::new(None));
    interpreter.start(input, STEPS)
}

fn looped(body: Vec<Operation>) -> Operation {
    Operation::Loop(bf_run::executors::operations::Operations { operations: body })
}

#[test]
fn a_move_of_zero_put_in_anywhere_shows_the_same() {
    // Three times four, counted down in an inner loop, with input and output.
    let plain = || {
        vec![
            Operation::GetInput,
            Operation::Mod(3),
            looped(vec![
                Operation::Move(1),
                Operation::Mod(4),
                looped(vec![Operation::PrintOutput, Operation::Mod(-1)]),
                Operation::Move(-1),
                Operation::Mod(-1),
            ]),
            Operation::PrintOutput,
        ]
    };
    let expected = tree_run_of(plain(), b"\x00");
    assert_eq!(expected.end, Step::Done);
    assert_eq!(expected.output.len(), 13);
    for at in 0..=4 {
        let mut program = plain();
        program.insert(at, Operation::Move(0));
        let run = tree_run_of(program, b"\x00");
        assert_eq!(run.output, expected.output);
        assert_eq!(run.end, expected.end);
        assert_eq!(run.consumed, expected.consumed);
    }
    for at in 0..=5 {
        let mut program = plain();
        if let Operation::Loop(body) = &mut program[2] {
            body.operations.insert(at, Operation::Move(0));
        }
        let run = tree_run_of(program, b"\x00");
        assert_eq!(run.output, expected.output);
        assert_eq!(run.end, expected.end);
    }
    for at in 0..=2 {
        let mut program = plain();
        if let Operation::Loop(body) = &mut program[2] {
            if let Operation::Loop(inner) = &mut body.operations[2] {
                inner.operations.insert(at, Operation::Move(0));
            }
        }
        let run = tree_run_of(program, b"\x00");
        assert_eq!(run.output, expected.output);
        assert_eq!(run.end, expected.end);
    }
}

#[test]
fn set_value_assigns_the_current_cell() {
    let run = tree_run_of(
        vec![
            Operation::Mod(5),
            Operation::SetValue(65),
            Operation::PrintOutput,
            Operation::Mod(-66),
            Operation::PrintOutput,
        ],
        b"",
    );
    assert_eq!(run.output, vec![65, 255]);
}

#[test]
fn the_text_interpreter_and_the_tree_interpreter_show_the_same() {
    let programs = [
        "++++++++[>++++[>++>+++>+++>+<<<<-]>+>+>->>+[<]<-]>>.>---.+++++++..+++.>>.<-.<.+++.------.--------.>>+.>++.",
        ",[.,]",
        ",[>+<-]>[<++>-]<.",
        "+[[-]+.,]",
        "a[b]c+d[e-f]g.",
    ];
    let inputs: [&[u8]; 3] = [b"", b"ab\x00", b"\x03\x02\x01\x00"];
    for code in programs {
        for input in inputs {
            let text = text_run(code, BfMemoryMemSafe::new(None), input);
            for optimize in [false, true] {
                let tree = tree_run(code, BfMemoryMemSafeSingleArray::new(None), optimize, input);
                assert_eq!(tree.output, text.output);
                assert_eq!(tree.consumed, text.consumed);
                assert_eq!(tree.end, text.end);
            }
        }
    }
}
