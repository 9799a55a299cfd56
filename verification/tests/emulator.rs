use bf_run::bf_memory::{BfMemory, BfMemoryMemSafe, BfMemoryMemSafeSingleArray, BfMemoryMemUnsafe};
use bf_run::executors::bf_recompiler::Callbacks;
use bf_run::executors::emulator::Emulator;
use bf_run::executors::operations::Operations;
use bf_run::executors::{BfOptInterpreter, BfRecompiler, Fault, Machine, Run, Step};

const TAPE: [u8; 8] = [0x00, 0x10, 0x00, 0x00, 0x20, 0x7f, 0x00, 0x00];
const STACK: u64 = 0x7fff_ffff_e008;
const LIMIT: u64 = 10_000_000;

fn hooks() -> Callbacks {
    Callbacks { get_ref: 0x40_1000, fetch_u8: 0x40_2000, print_u8: 0x40_3000 }
}

fn emulator_on<T: BfMemory>(code: Vec<u8>, tape: T, grows: bool) -> Emulator<T> {
    Emulator::new(code, tape, TAPE, hooks(), grows, STACK)
}

fn generated<T: BfMemory>(code: &str, tape: T, optimize: bool) -> Vec<u8> {
    let recompiler =
        BfRecompiler::new(code.to_string(), Box::new(tape), TAPE, hooks(), optimize).unwrap();
    recompiler.recompiled_memory.as_slice().to_vec()
}

fn dual_run(code: &str, optimize: bool, input: &[u8]) -> Run {
    let bytes = generated(code, BfMemoryMemSafe::new(None), optimize);
    emulator_on(bytes, BfMemoryMemSafe::new(None), true).start(input, LIMIT)
}

fn single_run(code: &str, optimize: bool, input: &[u8]) -> Run {
    let bytes = generated(code, BfMemoryMemSafeSingleArray::new(None), optimize);
    emulator_on(bytes, BfMemoryMemSafeSingleArray::new(None), true).start(input, LIMIT)
}

fn fixed_run(code: &str, optimize: bool, input: &[u8]) -> Run {
    let bytes = generated(code, BfMemoryMemUnsafe::new(None), optimize);
    emulator_on(bytes, BfMemoryMemUnsafe::new(None), false).start(input, LIMIT)
}

/// Generates code for `code` on each of the three tapes, with the optimizer
/// on and off, runs it on the processor and holds every output against
/// `expected`.
fn generated_code_shows(code: &str, input: &[u8], expected: &[u8]) {
    let runs = vec![
        dual_run(code, true, input),
        dual_run(code, false, input),
        single_run(code, true, input),
        single_run(code, false, input),
        fixed_run(code, true, input),
        fixed_run(code, false, input),
    ];
    for run in runs {
        assert_eq!(run.end, Step::Done);
        assert_eq!(run.output, expected);
        assert_eq!(run.consumed, input.len());
    }
}

#[test]
fn generated_code_prints_a() {
    generated_code_shows("++++++++[>++++++++<-]>+.", b"", b"A");
}

#[test]
fn generated_code_echoes_one_byte() {
    generated_code_shows(",.", b"x", b"x");
}

#[test]
fn generated_code_counts_up_to_an_exclamation_mark() {
    generated_code_shows("+++++[-]+++++++++++++++++++++++++++++++++.", b"", b"!");
}

#[test]
fn generated_code_echoes_two_bytes_in_order() {
    generated_code_shows(",>,<.>.", b"ab", b"ab");
}

#[test]
fn generated_code_prints_a_zero_byte_after_a_clear_loop() {
    generated_code_shows("+++[-].", b"", &[0]);
}

#[test]
fn generated_code_prints_e() {
    generated_code_shows("++++++++++[>++++++++++<-]>+.", b"", b"e");
}

#[test]
fn generated_code_wraps_cells() {
    generated_code_shows("-.", b"", &[255]);
    let plus = "+".repeat(256) + ".";
    generated_code_shows(&plus, b"", &[0]);
}

#[test]
fn generated_code_skips_a_loop_on_a_zero_cell() {
    generated_code_shows("[.,+>>]+.", b"", &[1]);
}

#[test]
fn generated_code_uses_cells_left_of_the_start() {
    generated_code_shows("<<<+++.>>>.", b"", &[3, 0]);
}

#[test]
fn generated_code_and_the_interpreters_agree() {
    let code = ",[>+++[>++<-]<-]>>.<<+[>,.<-]";
    let input = [5u8, 77];
    let mut interpreter = BfOptInterpreter::with_operations(
        Operations::conv_string_to_operations(code).unwrap(),
        BfMemoryMemSafe::new(None),
    );
    let seen = interpreter.start(&input, LIMIT);
    assert_eq!(seen.end, Step::Done);
    assert_eq!(seen.output, vec![30, 77]);
    generated_code_shows(code, &input, &seen.output);
}

#[test]
fn generated_code_waits_for_input() {
    let bytes = generated(",.,.", BfMemoryMemSafe::new(None), true);
    let mut emulator = emulator_on(bytes, BfMemoryMemSafe::new(None), true);
    let first = emulator.start(b"a", LIMIT);
    assert_eq!(first.end, Step::Input);
    assert_eq!(first.output, b"a");
    assert_eq!(first.consumed, 1);
    let second = emulator.start(b"b", LIMIT);
    assert_eq!(second.end, Step::Done);
    assert_eq!(second.output, b"b");
    assert_eq!(second.consumed, 1);
}

#[test]
fn generated_code_that_leaves_the_fixed_tape_faults() {
    let code = "<".repeat(40_000) + "+";
    let run = fixed_run(&code, true, b"");
    assert_eq!(run.end, Step::Fault(Fault::OutOfTape));
    assert!(run.output.is_empty());
}

#[test]
fn generated_code_grows_the_growing_tapes() {
    let code = "<".repeat(40_000) + "+.";
    assert_eq!(dual_run(&code, true, b"").output, vec![1]);
    assert_eq!(single_run(&code, false, b"").output, vec![1]);
}

#[test]
fn an_endless_loop_of_generated_code_uses_up_the_steps() {
    let run = fixed_run("+[]", false, b"");
    assert_eq!(run.end, Step::More);
    assert!(run.output.is_empty());
}

#[test]
fn a_byte_that_is_no_instruction_crashes() {
    let mut emulator = emulator_on(vec![0x90], BfMemoryMemSafe::new(None), true);
    assert_eq!(emulator.step(None), Step::Fault(Fault::Crash));
}

#[test]
fn running_past_the_end_of_the_code_crashes() {
    let mut emulator = emulator_on(vec![0xb2, 0x07], BfMemoryMemSafe::new(None), true);
    assert_eq!(emulator.step(None), Step::More);
    assert_eq!(emulator.step(None), Step::Fault(Fault::Crash));
}

#[test]
fn a_return_with_the_stack_as_it_was_ends_the_run() {
    let mut emulator = emulator_on(vec![0x52, 0x5a, 0xc3], BfMemoryMemSafe::new(None), true);
    assert_eq!(emulator.step(None), Step::More);
    assert_eq!(emulator.step(None), Step::More);
    assert_eq!(emulator.step(None), Step::Done);
}

#[test]
fn a_return_with_something_left_on_the_stack_crashes() {
    let mut emulator = emulator_on(vec![0x52, 0xc3], BfMemoryMemSafe::new(None), true);
    assert_eq!(emulator.step(None), Step::More);
    assert_eq!(emulator.step(None), Step::Fault(Fault::Crash));
}

#[test]
fn a_pop_of_what_was_never_pushed_crashes() {
    let mut emulator = emulator_on(vec![0x5a], BfMemoryMemSafe::new(None), true);
    assert_eq!(emulator.step(None), Step::Fault(Fault::Crash));
}

#[test]
fn a_call_on_a_stack_that_is_not_aligned_crashes() {
    let mut code = vec![0x48, 0xb8];
    code.extend_from_slice(&0x40_2000u64.to_le_bytes());
    code.extend_from_slice(&[0xff, 0xd0]);
    let mut emulator = emulator_on(code, BfMemoryMemSafe::new(None), true);
    assert_eq!(emulator.step(None), Step::More);
    assert_eq!(emulator.step(Some(1)), Step::Fault(Fault::Crash));
}

#[test]
fn a_call_of_an_unknown_address_crashes() {
    let mut code = vec![0x48, 0xb8];
    code.extend_from_slice(&0x40_2008u64.to_le_bytes());
    code.extend_from_slice(&[0xff, 0xd0]);
    let mut emulator =
        Emulator::new(code, BfMemoryMemSafe::new(None), TAPE, hooks(), true, 0x7fff_ffff_e000);
    assert_eq!(emulator.step(None), Step::More);
    assert_eq!(emulator.step(Some(1)), Step::Fault(Fault::Crash));
}

#[test]
fn a_store_through_a_register_that_holds_no_cell_crashes() {
    let mut emulator = emulator_on(vec![0xb2, 0x07, 0x88, 0x10], BfMemoryMemSafe::new(None), true);
    assert_eq!(emulator.step(None), Step::More);
    assert_eq!(emulator.step(None), Step::Fault(Fault::Crash));
}

/// The code of the empty program, with a second request for the current
/// cell put in before its end, around which `rax` is saved and restored.
fn code_with_a_kept_address() -> Vec<u8> {
    let whole = generated("", BfMemoryMemSafe::new(None), false);
    let mut code = whole[..whole.len() - 3].to_vec();
    code.push(0x50);
    code.extend_from_slice(&[0x48, 0xbf]);
    code.extend_from_slice(&TAPE);
    code.extend_from_slice(&[0x89, 0xce]);
    code.extend_from_slice(&[
        0x52, 0x51, 0x55, 0x48, 0x89, 0xe5, 0x48, 0x83, 0xe4, 0xf0, 0x48, 0x81, 0xec, 0x80, 0x00,
        0x00, 0x00, 0x48, 0xb8,
    ]);
    code.extend_from_slice(&(hooks().get_ref as u64).to_le_bytes());
    code.extend_from_slice(&[0xff, 0xd0, 0x48, 0x89, 0xec, 0x5d, 0x59, 0x5a]);
    code.push(0x58);
    code.extend_from_slice(&[0x8a, 0x10, 0xc3]);
    code
}

#[test]
fn a_cell_address_from_before_the_tape_was_asked_again_crashes() {
    let mut emulator = emulator_on(code_with_a_kept_address(), BfMemoryMemSafe::new(None), true);
    assert_eq!(emulator.start(b"", LIMIT).end, Step::Fault(Fault::Crash));
}

#[test]
fn a_cell_address_of_a_tape_that_does_not_grow_stays_good() {
    let mut emulator = emulator_on(code_with_a_kept_address(), BfMemoryMemUnsafe::new(None), false);
    assert_eq!(emulator.start(b"", LIMIT).end, Step::Done);
}
