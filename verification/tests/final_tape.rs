use bf_run::bf_memory::BfMemoryMemUnsafe;
use bf_run::executors::bf_recompiler::Callbacks;
use bf_run::executors::operations::{Operation, Operations};
use bf_run::executors::{
    BfInterpreter, BfOptInterpreter, BfRecompiler, Emulator, Executor, Step,
};

const SIZE: usize = 64;
const LIMIT: u64 = 1_000_000;
const TAPE: [u8; 8] = [0x00, 0x40, 0x00, 0x00, 0x10, 0x7f, 0x00, 0x00];

fn tape() -> BfMemoryMemUnsafe {
    BfMemoryMemUnsafe::new(Some(SIZE))
}

fn text_tape(code: &str, input: &[u8]) -> Vec<u8> {
    let mut interpreter = BfInterpreter::new(code.to_string(), tape(), true).unwrap();
    assert_eq!(interpreter.start(input, LIMIT).end, Step::Done);
    interpreter.memory().array.clone()
}

fn tree_tape(code: &str, optimize: bool, input: &[u8]) -> Vec<u8> {
    let mut interpreter = BfOptInterpreter::new(code.to_string(), tape(), optimize).unwrap();
    assert_eq!(interpreter.start(input, LIMIT).end, Step::Done);
    interpreter.memory().array.clone()
}

fn program_tape(program: Vec<Operation>, input: &[u8]) -> Vec<u8> {
    let mut interpreter =
        BfOptInterpreter::with_operations(Operations { operations: program }, tape());
    assert_eq!(interpreter.start(input, LIMIT).end, Step::Done);
    interpreter.memory().array.clone()
}

fn code_tape(code: &str, optimize: bool, input: &[u8]) -> Vec<u8> {
    let hooks = Callbacks { get_ref: 0x40_1000, fetch_u8: 0x40_2000, print_u8: 0x40_3000 };
    let recompiler =
        BfRecompiler::new(code.to_string(), Box::new(tape()), TAPE, hooks, optimize).unwrap();
    let bytes = recompiler.recompiled_memory.as_slice().to_vec();
    let mut emulator = Emulator::new(bytes, tape(), TAPE, hooks, false, 0x7fff_ffff_e008);
    assert_eq!(emulator.start(input, LIMIT * 16).end, Step::Done);
    emulator.memory().array.clone()
}

fn all_leave(code: &str, input: &[u8], expected: &[(i32, u8)]) {
    let mut tape = vec![0u8; SIZE];
    for (index, value) in expected {
        tape[(SIZE as i32 / 2 + index) as usize] = *value;
    }
    assert_eq!(text_tape(code, input), tape);
    assert_eq!(tree_tape(code, false, input), tape);
    assert_eq!(tree_tape(code, true, input), tape);
    assert_eq!(code_tape(code, false, input), tape);
    assert_eq!(code_tape(code, true, input), tape);
}

#[test]
fn every_executor_leaves_the_product_on_the_tape() {
    all_leave("++++++++[>++++++++<-]>+.", b"", &[(1, 65)]);
}

#[test]
fn every_executor_leaves_what_was_read_on_the_tape() {
    all_leave(",>,<.>.", b"ab", &[(0, 97), (1, 98)]);
}

#[test]
fn every_executor_leaves_a_cleared_cell_cleared() {
    all_leave("+++>++<[-]>>+", b"", &[(1, 2), (2, 1)]);
}

#[test]
fn every_executor_leaves_the_last_value_in_the_cell_under_the_cursor() {
    all_leave("<<+++>>>>-----", b"", &[(-2, 3), (2, 251)]);
}

#[test]
fn every_executor_leaves_fused_moves_and_changes_as_they_were_written() {
    all_leave("+>+<<->><<+++---+", b"", &[(0, 1), (1, 1), (-1, 0)]);
}

#[test]
fn a_move_of_zero_put_in_leaves_the_same_tape() {
    let plain = vec![
        Operation::Mod(3),
        Operation::Loop(Operations {
            operations: vec![Operation::Move(1), Operation::Mod(2), Operation::Move(-1), Operation::Mod(-1)],
        }),
        Operation::Move(1),
        Operation::PrintOutput,
    ];
    let with_move = vec![
        Operation::Mod(3),
        Operation::Loop(Operations {
            operations: vec![
                Operation::Move(1),
                Operation::Move(0),
                Operation::Mod(2),
                Operation::Move(-1),
                Operation::Mod(-1),
                Operation::Move(0),
            ],
        }),
        Operation::Move(0),
        Operation::Move(1),
        Operation::PrintOutput,
        Operation::Move(0),
    ];
    let left = program_tape(plain, b"");
    assert_eq!(left[SIZE / 2 + 1], 6);
    assert_eq!(left, program_tape(with_move, b""));
}
