//! The back-ends and the intermediate representation they share.
//!
//! The two interpreters neither read nor write: each is a machine that is
//! driven one step at a time. A step reports what the caller is to do, and
//! takes the byte that the caller read where the machine asked for one. The
//! code generator turns a program into machine code; running that code on
//! the processor is the caller's part. What the code does is stated over a
//! model of the processor, which the emulator runs step by step.

pub mod bf_interpreter;
pub mod bf_opt_interpreter;
pub mod bf_recompiler;
pub mod emulator;
pub mod machine;
pub mod operations;

pub use bf_interpreter::BfInterpreter;
pub use bf_opt_interpreter::BfOptInterpreter;
pub use bf_recompiler::BfRecompiler;
pub use emulator::Emulator;

use vstd::prelude::*;
use crate::bf_memory::BfMemory;
use crate::executors::operations::ParseError;

verus! {

/// Why a machine cannot go on.
#[derive(Debug, Clone, Copy, PartialEq, Eq, Structural)]
pub enum Fault {
    /// The tape cannot hand out the cell under the cursor.
    OutOfTape,
    /// A `]` sends the machine back into a loop, and none was entered.
    UnmatchedClose,
    /// The processor met what it cannot run. No interpreter reports this: it
    /// is what the model of the processor makes of code that goes wrong.
    Crash,
}

/// What one step of a machine reports.
#[derive(Debug, Clone, Copy, PartialEq, Eq, Structural)]
pub enum Step {
    /// The step is done; more may follow.
    More,
    /// The machine stands before a read, and the step brought no byte: the
    /// caller reads one and hands it to the next step.
    Input,
    /// The caller is to write this byte.
    Output(u8),
    /// The program has ended.
    Done,
    /// The machine cannot go on.
    Fault(Fault),
}

/// How a run on given input went.
#[derive(Debug)]
pub struct Run {
    /// The bytes written.
    pub output: Vec<u8>,
    /// How many bytes of the input were read.
    pub consumed: usize,
    /// Why the run stopped: `Done`, a fault, `Input` where the input was
    /// used up, `More` where the steps were.
    pub end: Step,
}

/// Indices as numbers.
pub open spec fn places(indices: Seq<usize>) -> Seq<int> {
    indices.map_values(|index: usize| index as int)
}

/// The model of a run: the state it left, and what [`Run`] holds.
#[verifier::ext_equal]
pub struct RunModel<S> {
    pub state: S,
    pub output: Seq<u8>,
    pub consumed: nat,
    pub end: Step,
}

/// A run that wrote `output` and read `consumed` bytes before it went on as `rest`.
pub open spec fn run_after<S>(output: Seq<u8>, consumed: nat, rest: RunModel<S>) -> RunModel<S> {
    RunModel {
        state: rest.state,
        output: output + rest.output,
        consumed: consumed + rest.consumed,
        end: rest.end,
    }
}

/// A run of at most `fuel` instructions of the machine whose steps are
/// `next`, from `state` on `input`. A read takes the next byte of `input`;
/// the run stops where the program ends, at a fault, before a read that finds
/// `input` used up, and when `fuel` is.
pub open spec fn run_spec<S>(
    next: spec_fn(S, Option<u8>) -> (S, Step),
    state: S,
    input: Seq<u8>,
    fuel: nat,
) -> RunModel<S>
    decreases fuel,
{
    if fuel == 0 {
        RunModel { state, output: Seq::empty(), consumed: 0, end: Step::More }
    } else {
        let (after, step) = next(state, None);
        match step {
            Step::More => run_spec(next, after, input, (fuel - 1) as nat),
            Step::Output(byte) => run_after(
                seq![byte],
                0,
                run_spec(next, after, input, (fuel - 1) as nat),
            ),
            Step::Input => if input.len() == 0 {
                RunModel { state: after, output: Seq::empty(), consumed: 0, end: Step::Input }
            } else {
                run_after(
                    Seq::empty(),
                    1,
                    run_spec(
                        next,
                        next(after, Some(input[0])).0,
                        input.drop_first(),
                        (fuel - 1) as nat,
                    ),
                )
            },
            _ => RunModel { state: after, output: Seq::empty(), consumed: 0, end: step },
        }
    }
}

/// A machine that is driven step by step.
pub trait Machine: Sized {
    /// The model of the machine's state.
    type State;

    /// The machine's invariant.
    spec fn wf(&self) -> bool;

    /// The machine's state.
    spec fn state(&self) -> Self::State;

    /// One step as a function: the state after it and what it reports. The
    /// second argument is the byte that the caller read, where the step
    /// before reported `Input`.
    spec fn steps() -> spec_fn(Self::State, Option<u8>) -> (Self::State, Step);

    /// Does one step.
    fn step(&mut self, input: Option<u8>) -> (step: Step)
        requires
            old(self).wf(),
        ensures
            final(self).wf(),
            final(self).state() == Self::steps()(old(self).state(), input).0,
            step == Self::steps()(old(self).state(), input).1,
    ;
}

/// An interpreter over a tape of type `T`.
pub trait Executor<T: BfMemory>: Machine {
    /// The interpreter at the start of the program `code`, with `bf_memory`
    /// as its tape.
    fn new(code: String, bf_memory: T, enable_optimizations: bool) -> (res: Result<Self, ParseError>)
        requires
            bf_memory.wf(),
        ensures
            res matches Ok(executor) ==> executor.wf(),
    ;
}

/// Runs a machine on `input` for at most `max_steps` instructions.
pub fn run<E: Machine>(executor: &mut E, input: &[u8], max_steps: u64) -> (run: Run)
    requires
        old(executor).wf(),
    ensures
        final(executor).wf(),
        final(executor).state() == run_spec(
            E::steps(),
            old(executor).state(),
            input@,
            max_steps as nat,
        ).state,
        run.output@ == run_spec(E::steps(), old(executor).state(), input@, max_steps as nat).output,
        run.consumed == run_spec(
            E::steps(),
            old(executor).state(),
            input@,
            max_steps as nat,
        ).consumed,
        run.end == run_spec(E::steps(), old(executor).state(), input@, max_steps as nat).end,
{
    let mut output: Vec<u8> = Vec::new();
    let mut consumed: usize = 0;
    let mut steps: u64 = 0;
    let mut end = Step::More;
    let ghost whole = run_spec(E::steps(), old(executor).state(), input@, max_steps as nat);
    assert(input@.skip(0) =~= input@);
    assert(run_after(
        output@,
        0,
        run_spec(E::steps(), executor.state(), input@.skip(0), max_steps as nat),
    ) =~= whole);
    while steps < max_steps
        invariant_except_break
            whole == run_after(
                output@,
                consumed as nat,
                run_spec(
                    E::steps(),
                    executor.state(),
                    input@.skip(consumed as int),
                    (max_steps - steps) as nat,
                ),
            ),
            end == Step::More,
        invariant
            executor.wf(),
            steps <= max_steps,
            consumed <= input@.len(),
        ensures
            whole == (RunModel {
                state: executor.state(),
                output: output@,
                consumed: consumed as nat,
                end,
            }),
        decreases max_steps - steps,
    {
        let ghost before = executor.state();
        let ghost rest = input@.skip(consumed as int);
        let ghost written = output@;
        let ghost fuel = (max_steps - steps) as nat;
        let ghost here = run_spec(E::steps(), before, rest, fuel);
        let step = executor.step(None);
        steps += 1;
        assert(E::steps()(before, None) == (executor.state(), step));
        match step {
            Step::More => {
                assert(here == run_spec(E::steps(), executor.state(), rest, (fuel - 1) as nat));
            },
            Step::Output(byte) => {
                output.push(byte);
                proof {
                    let tail = run_spec(E::steps(), executor.state(), rest, (fuel - 1) as nat);
                    assert(here == run_after(seq![byte], 0, tail));
                    assert(run_after(written, consumed as nat, run_after(seq![byte], 0, tail))
                        =~= run_after(output@, consumed as nat, tail));
                }
            },
            Step::Input => {
                if consumed < input.len() {
                    let byte = input[consumed];
                    let ghost waiting = executor.state();
                    let _ = executor.step(Some(byte));
                    consumed += 1;
                    proof {
                        assert(rest.len() > 0);
                        assert(rest[0] == byte);
                        assert(rest.drop_first() =~= input@.skip(consumed as int));
                        assert(E::steps()(waiting, Some(byte)).0 == executor.state());
                        let tail = run_spec(
                            E::steps(),
                            executor.state(),
                            input@.skip(consumed as int),
                            (fuel - 1) as nat,
                        );
                        assert(here == run_after(Seq::empty(), 1, tail));
                        assert(run_after(
                            written,
                            (consumed - 1) as nat,
                            run_after(Seq::empty(), 1, tail),
                        ) =~= run_after(output@, consumed as nat, tail));
                    }
                } else {
                    end = step;
                    proof {
                        assert(rest.len() == 0);
                        assert(here == (RunModel {
                            state: executor.state(),
                            output: Seq::empty(),
                            consumed: 0,
                            end: step,
                        }));
                        assert(output@ + Seq::<u8>::empty() =~= output@);
                        assert(whole =~= (RunModel {
                            state: executor.state(),
                            output: output@,
                            consumed: consumed as nat,
                            end,
                        }));
                    }
                    break ;
                }
            },
            _ => {
                end = step;
                proof {
                    assert(here == (RunModel {
                        state: executor.state(),
                        output: Seq::empty(),
                        consumed: 0,
                        end: step,
                    }));
                    assert(output@ + Seq::<u8>::empty() =~= output@);
                    assert(whole =~= (RunModel {
                        state: executor.state(),
                        output: output@,
                        consumed: consumed as nat,
                        end,
                    }));
                }
                break ;
            },
        }
    }
    Run { output, consumed, end }
}

} // verus!
