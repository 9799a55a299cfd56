//! The interpreter that works on the program text itself, byte by byte, with
//! a stack of the places where the loops it is in begin.

use vstd::prelude::*;
use vstd::utf8::encode_utf8;
use vstd::string::StringSliceAdditionalSpecFns;
use crate::bf_memory::{BfMemory, tape_cells, tape_reach};
use crate::executors::{Executor, Fault, Machine, Run, Step, places, run, run_spec};
use crate::executors::operations::{
    CLOSE, COMMA, DOT, LEFT, MINUS, OPEN, PLUS, ParseError, RIGHT, lemma_scan_close_bounds,
    scan_close,
};

verus! {

/// The model of the interpreter's state.
#[verifier::ext_equal]
pub struct InterpreterState {
    /// The program text.
    pub code: Seq<u8>,
    /// The cells that the tape can hand out.
    pub reach: Set<int>,
    /// What each cell holds.
    pub cells: Map<int, u8>,
    /// The index of the next byte of the text.
    pub pc: int,
    /// The tape cursor.
    pub mem_index: i32,
    /// For each loop that was entered and not left, the index behind its `[`.
    pub loop_stack: Seq<int>,
}

/// Whether the command reads or writes the current cell.
pub open spec fn touches_cell(byte: u8) -> bool {
    byte == PLUS || byte == MINUS || byte == COMMA || byte == DOT || byte == OPEN || byte == CLOSE
}

/// Where the text goes on behind the loop whose `[` stands before `pos`:
/// behind the `]` that closes it, or at the end where nothing closes it.
pub open spec fn behind_loop(code: Seq<u8>, pos: int) -> int {
    let close = scan_close(code, pos, 0);
    if close < code.len() {
        close + 1
    } else {
        code.len() as int
    }
}

/// One step of the interpreter.
pub open spec fn interpreter_next(s: InterpreterState, input: Option<u8>) -> (
    InterpreterState,
    Step,
) {
    if s.pc < 0 || s.pc >= s.code.len() {
        (s, Step::Done)
    } else {
        let byte = s.code[s.pc];
        let index = s.mem_index as int;
        let value = s.cells[index];
        if touches_cell(byte) && !s.reach.contains(index) {
            (s, Step::Fault(Fault::OutOfTape))
        } else if byte == PLUS {
            (
                InterpreterState {
                    cells: s.cells.insert(index, value.wrapping_add(1)),
                    pc: s.pc + 1,
                    ..s
                },
                Step::More,
            )
        } else if byte == MINUS {
            (
                InterpreterState {
                    cells: s.cells.insert(index, value.wrapping_sub(1)),
                    pc: s.pc + 1,
                    ..s
                },
                Step::More,
            )
        } else if byte == LEFT {
            (InterpreterState { mem_index: s.mem_index.wrapping_sub(1), pc: s.pc + 1, ..s }, Step::More)
        } else if byte == RIGHT {
            (InterpreterState { mem_index: s.mem_index.wrapping_add(1), pc: s.pc + 1, ..s }, Step::More)
        } else if byte == COMMA {
            match input {
                Some(read) => (
                    InterpreterState { cells: s.cells.insert(index, read), pc: s.pc + 1, ..s },
                    Step::More,
                ),
                None => (s, Step::Input),
            }
        } else if byte == DOT {
            (InterpreterState { pc: s.pc + 1, ..s }, Step::Output(value))
        } else if byte == OPEN {
            if value != 0 {
                (
                    InterpreterState {
                        loop_stack: s.loop_stack.push(s.pc + 1),
                        pc: s.pc + 1,
                        ..s
                    },
                    Step::More,
                )
            } else {
                (InterpreterState { pc: behind_loop(s.code, s.pc + 1), ..s }, Step::More)
            }
        } else if byte == CLOSE {
            if value != 0 {
                if s.loop_stack.len() == 0 {
                    (s, Step::Fault(Fault::UnmatchedClose))
                } else {
                    (InterpreterState { pc: s.loop_stack.last(), ..s }, Step::More)
                }
            } else if s.loop_stack.len() == 0 {
                (InterpreterState { pc: s.pc + 1, ..s }, Step::More)
            } else {
                (
                    InterpreterState { loop_stack: s.loop_stack.drop_last(), pc: s.pc + 1, ..s },
                    Step::More,
                )
            }
        } else {
            (InterpreterState { pc: s.pc + 1, ..s }, Step::More)
        }
    }
}

/// The steps of the interpreter as a function.
pub open spec fn interpreter_steps() -> spec_fn(InterpreterState, Option<u8>) -> (
    InterpreterState,
    Step,
) {
    |state: InterpreterState, input: Option<u8>| interpreter_next(state, input)
}

/// Cell arithmetic wraps modulo 256: `+` on 255 gives 0, `-` on 0 gives 255.
pub proof fn lemma_interpreter_arithmetic_wraps(s: InterpreterState, input: Option<u8>)
    requires
        0 <= s.pc < s.code.len(),
        s.code[s.pc] == PLUS || s.code[s.pc] == MINUS,
        s.reach.contains(s.mem_index as int),
    ensures
        ({
            let index = s.mem_index as int;
            let after = interpreter_next(s, input).0;
            &&& interpreter_next(s, input).1 == Step::More
            &&& s.code[s.pc] == PLUS ==> after.cells[index] == (s.cells[index] + 1) % 256
            &&& s.code[s.pc] == MINUS ==> after.cells[index] == (s.cells[index] - 1) % 256
            &&& forall|other: int| other != index ==> after.cells[other] == s.cells[other]
        }),
{
}

/// A loop on a zero cell is skipped whole: one step leads behind the `]`
/// that closes it, over every loop, read and write in between, and changes
/// nothing else.
pub proof fn lemma_interpreter_skips_loop_on_zero(s: InterpreterState, input: Option<u8>)
    requires
        0 <= s.pc < s.code.len(),
        s.code[s.pc] == OPEN,
        s.reach.contains(s.mem_index as int),
        s.cells[s.mem_index as int] == 0,
    ensures
        interpreter_next(s, input).1 == Step::More,
        interpreter_next(s, input).0 == (InterpreterState {
            pc: behind_loop(s.code, s.pc + 1),
            ..s
        }),
        s.pc < behind_loop(s.code, s.pc + 1) <= s.code.len(),
        scan_close(s.code, s.pc + 1, 0) < s.code.len() ==> behind_loop(s.code, s.pc + 1)
            == scan_close(s.code, s.pc + 1, 0) + 1,
{
    lemma_scan_close_bounds(s.code, s.pc + 1, 0);
}

/// The interpreter that works on the program text itself.
#[derive(Debug)]
pub struct BfInterpreter<T> {
    memory: T,
    code: String,
    pc: usize,
    mem_index: i32,
    loop_stack: Vec<usize>,
}

impl<T: BfMemory> BfInterpreter<T> {
    /// Scans forward from `pos`, which stands behind a `[`, to the `]` that
    /// closes it, over the loops in between: the index of that `]`, or the
    /// length where nothing closes it.
    pub fn skip_loops(code: &[u8], pos: usize) -> (close: usize)
        requires
            pos <= code@.len(),
        ensures
            close == scan_close(code@, pos as int, 0),
            pos <= close <= code@.len(),
    {
        let mut at = pos;
        let mut depth: usize = 0;
        proof {
            lemma_scan_close_bounds(code@, pos as int, 0);
        }
        while at < code.len()
            invariant
                pos <= at <= code@.len(),
                depth <= at - pos,
                scan_close(code@, at as int, depth as nat) == scan_close(code@, pos as int, 0),
            decreases code@.len() - at,
        {
            let byte = code[at];
            if byte == OPEN {
                depth += 1;
            } else if byte == CLOSE {
                if depth == 0 {
                    return at;
                }
                depth -= 1;
            }
            at += 1;
        }
        at
    }

    /// The tape.
    pub fn memory(&self) -> (memory: &T)
        ensures
            forall|index: int| #[trigger] memory.cell(index) == self.state().cells[index],
            memory.wf() == self.wf_memory(),
    {
        &self.memory
    }

    /// Whether the tape is as its layout asks.
    pub closed spec fn wf_memory(&self) -> bool {
        self.memory.wf()
    }

    /// Runs the program on `input` for at most `max_steps` instructions, from
    /// where the interpreter stands. A read takes the next byte of `input`;
    /// the run stops where the program ends, at a fault, before a read that
    /// finds `input` used up, and when the steps are.
    pub fn start(&mut self, input: &[u8], max_steps: u64) -> (run: Run)
        requires
            old(self).wf(),
        ensures
            final(self).wf(),
            final(self).state() == run_spec(
                Self::steps(),
                old(self).state(),
                input@,
                max_steps as nat,
            ).state,
            run.output@ == run_spec(Self::steps(), old(self).state(), input@, max_steps as nat).output,
            run.consumed == run_spec(
                Self::steps(),
                old(self).state(),
                input@,
                max_steps as nat,
            ).consumed,
            run.end == run_spec(Self::steps(), old(self).state(), input@, max_steps as nat).end,
    {
        run(self, input, max_steps)
    }
}

impl<T: BfMemory> Machine for BfInterpreter<T> {
    type State = InterpreterState;

    closed spec fn wf(&self) -> bool {
        &&& self.memory.wf()
        &&& self.pc <= encode_utf8(self.code@).len()
        &&& forall|k: int|
            0 <= k < self.loop_stack@.len() ==> self.loop_stack@[k] <= encode_utf8(self.code@).len()
    }

    closed spec fn state(&self) -> InterpreterState {
        InterpreterState {
            code: encode_utf8(self.code@),
            reach: tape_reach(self.memory),
            cells: tape_cells(self.memory),
            pc: self.pc as int,
            mem_index: self.mem_index,
            loop_stack: places(self.loop_stack@),
        }
    }

    open spec fn steps() -> spec_fn(InterpreterState, Option<u8>) -> (InterpreterState, Step) {
        interpreter_steps()
    }

    fn step(&mut self, input: Option<u8>) -> (step: Step) {
        let ghost before = self.state();
        let code = self.code.as_str().as_bytes();
        if self.pc >= code.len() {
            return Step::Done;
        }
        let byte = code[self.pc];
        let index = self.mem_index;
        let touches = byte == PLUS || byte == MINUS || byte == COMMA || byte == DOT || byte == OPEN
            || byte == CLOSE;
        if touches {
            if !self.memory.can_reach(index) {
                return Step::Fault(Fault::OutOfTape);
            }
            let cell = self.memory.get_ref(index);
            let value = *cell;
            if byte == PLUS {
                *cell = value.wrapping_add(1);
                self.pc = self.pc + 1;
                assert(self.state() =~= interpreter_next(before, input).0);
                Step::More
            } else if byte == MINUS {
                *cell = value.wrapping_sub(1);
                self.pc = self.pc + 1;
                assert(self.state() =~= interpreter_next(before, input).0);
                Step::More
            } else if byte == COMMA {
                match input {
                    Some(read) => {
                        *cell = read;
                        self.pc = self.pc + 1;
                        assert(self.state() =~= interpreter_next(before, input).0);
                        Step::More
                    },
                    None => {
                        assert(self.state() =~= before);
                        Step::Input
                    },
                }
            } else if byte == DOT {
                self.pc = self.pc + 1;
                assert(self.state() =~= interpreter_next(before, input).0);
                Step::Output(value)
            } else if byte == OPEN {
                if value != 0 {
                    self.loop_stack.push(self.pc + 1);
                    self.pc = self.pc + 1;
                } else {
                    let close = BfInterpreter::<T>::skip_loops(code, self.pc + 1);
                    self.pc = if close < code.len() {
                        close + 1
                    } else {
                        close
                    };
                }
                assert(self.state() =~= interpreter_next(before, input).0);
                Step::More
            } else {
                if value != 0 {
                    let depth = self.loop_stack.len();
                    if depth == 0 {
                        assert(self.state() =~= before);
                        return Step::Fault(Fault::UnmatchedClose);
                    }
                    self.pc = self.loop_stack[depth - 1];
                } else {
                    self.loop_stack.pop();
                    self.pc = self.pc + 1;
                }
                assert(self.state() =~= interpreter_next(before, input).0);
                Step::More
            }
        } else {
            if byte == LEFT {
                self.mem_index = index.wrapping_sub(1);
            } else if byte == RIGHT {
                self.mem_index = index.wrapping_add(1);
            }
            self.pc = self.pc + 1;
            assert(self.state() =~= interpreter_next(before, input).0);
            Step::More
        }
    }
}

impl<T: BfMemory> Executor<T> for BfInterpreter<T> {
    /// The interpreter at the start of `code`, with the cursor on cell 0.
    /// The text is not checked: the optimizer has no part in this
    /// interpreter, and brackets are matched as the run reaches them.
    fn new(code: String, bf_memory: T, enable_optimizations: bool) -> (res: Result<
        BfInterpreter<T>,
        ParseError,
    >)
        ensures
            res matches Ok(interpreter) && interpreter.state() == (InterpreterState {
                code: encode_utf8(code@),
                reach: tape_reach(bf_memory),
                cells: tape_cells(bf_memory),
                pc: 0,
                mem_index: 0,
                loop_stack: Seq::empty(),
            }),
    {
        Ok(BfInterpreter { memory: bf_memory, code, pc: 0, mem_index: 0, loop_stack: Vec::new() })
    }
}

} // verus!
