//! The interpreter that walks the tree of operations. Within a run of
//! operations the current cell's value is held in a variable of its own; it
//! goes back to the tape when the cursor moves and when the program ends.

use vstd::prelude::*;
use vstd::utf8::encode_utf8;
use vstd::string::StringSliceAdditionalSpecFns;
use crate::bf_memory::{BfMemory, tape_cells, tape_reach};
use crate::executors::{Executor, Fault, Machine, Run, Step, places, run, run_spec};
use crate::executors::operations::{
    Instr, Operation, Operations, ParseError, op_view, ops_view, optimize_fix, parse,
};

verus! {

/// The model of the interpreter's state.
#[verifier::ext_equal]
pub struct OptState {
    /// The program.
    pub ops: Seq<Instr>,
    /// The cells that the tape can hand out.
    pub reach: Set<int>,
    /// What each cell of the tape holds.
    pub cells: Map<int, u8>,
    /// Where the run stands: for each loop that it is in, the loop's index
    /// in the sequence around it, outermost first, and last the index of the
    /// next operation. Empty before the first step.
    pub control: Seq<int>,
    /// The tape cursor.
    pub mem_index: i32,
    /// The value of the current cell; the tape may hold an older one.
    pub cur_pos_value: u8,
}

/// The sequence of operations that the last index of `control` points into.
pub open spec fn block_at(ops: Seq<Instr>, control: Seq<int>) -> Seq<Instr>
    decreases control.len(),
{
    if control.len() <= 1 {
        ops
    } else if 0 <= control[0] < ops.len() {
        match ops[control[0]] {
            Instr::Loop(body) => block_at(body, control.drop_first()),
            _ => Seq::empty(),
        }
    } else {
        Seq::empty()
    }
}

/// Whether `control` is a place in `ops`: all indices but the last point at
/// loops, each in the body of the one before, and the last points at an
/// operation of the innermost body or just behind its end.
pub open spec fn control_valid(ops: Seq<Instr>, control: Seq<int>) -> bool
    decreases control.len(),
{
    if control.len() == 0 {
        true
    } else if control.len() == 1 {
        0 <= control[0] <= ops.len()
    } else {
        0 <= control[0] < ops.len() && match ops[control[0]] {
            Instr::Loop(body) => control_valid(body, control.drop_first()),
            _ => false,
        }
    }
}

/// The place just behind the operation that `control` points at.
pub open spec fn advanced(control: Seq<int>) -> Seq<int> {
    control.drop_last().push(control.last() + 1)
}

/// One step of the interpreter.
pub open spec fn opt_next(s: OptState, input: Option<u8>) -> (OptState, Step) {
    let index = s.mem_index as int;
    if s.control.len() == 0 {
        if s.reach.contains(index) {
            (OptState { control: seq![0int], cur_pos_value: s.cells[index], ..s }, Step::More)
        } else {
            (s, Step::Fault(Fault::OutOfTape))
        }
    } else {
        let block = block_at(s.ops, s.control);
        let pos = s.control.last();
        if pos >= block.len() {
            if s.control.len() == 1 {
                if s.reach.contains(index) {
                    (OptState { cells: s.cells.insert(index, s.cur_pos_value), ..s }, Step::Done)
                } else {
                    (s, Step::Fault(Fault::OutOfTape))
                }
            } else if s.cur_pos_value != 0 {
                (OptState { control: s.control.drop_last().push(0int), ..s }, Step::More)
            } else {
                (OptState { control: advanced(s.control.drop_last()), ..s }, Step::More)
            }
        } else {
            match block[pos] {
                Instr::Mod(value) => (
                    OptState {
                        cur_pos_value: s.cur_pos_value.wrapping_add_signed(value),
                        control: advanced(s.control),
                        ..s
                    },
                    Step::More,
                ),
                Instr::SetValue(value) => (
                    OptState { cur_pos_value: value, control: advanced(s.control), ..s },
                    Step::More,
                ),
                Instr::Move(delta) => {
                    let target = s.mem_index.wrapping_add(delta);
                    if s.reach.contains(index) && s.reach.contains(target as int) {
                        let flushed = s.cells.insert(index, s.cur_pos_value);
                        (
                            OptState {
                                cells: flushed,
                                mem_index: target,
                                cur_pos_value: flushed[target as int],
                                control: advanced(s.control),
                                ..s
                            },
                            Step::More,
                        )
                    } else {
                        (s, Step::Fault(Fault::OutOfTape))
                    }
                },
                Instr::Loop(_) => if s.cur_pos_value != 0 {
                    (OptState { control: s.control.push(0int), ..s }, Step::More)
                } else {
                    (OptState { control: advanced(s.control), ..s }, Step::More)
                },
                Instr::GetInput => match input {
                    Some(read) => (
                        OptState { cur_pos_value: read, control: advanced(s.control), ..s },
                        Step::More,
                    ),
                    None => (s, Step::Input),
                },
                Instr::PrintOutput => (
                    OptState { control: advanced(s.control), ..s },
                    Step::Output(s.cur_pos_value),
                ),
            }
        }
    }
}

/// The steps of the interpreter as a function.
pub open spec fn opt_steps() -> spec_fn(OptState, Option<u8>) -> (OptState, Step) {
    |state: OptState, input: Option<u8>| opt_next(state, input)
}

/// The tape as the program sees it: the tape with the held value in the
/// current cell.
pub open spec fn visible_cells(s: OptState) -> Map<int, u8> {
    s.cells.insert(s.mem_index as int, s.cur_pos_value)
}

/// The tape as the program has left it: as the program sees it once the run
/// has begun, and as it was given before.
pub open spec fn shown_tape(s: OptState) -> Map<int, u8> {
    if s.control.len() == 0 {
        s.cells
    } else {
        visible_cells(s)
    }
}

/// Whether two states have the cursor on the same cell and the same tape,
/// as the program has left it.
pub open spec fn same_tape(a: OptState, b: OptState) -> bool {
    a.mem_index == b.mem_index && shown_tape(a) == shown_tape(b)
}

/// [`same_tape`] as a function.
pub open spec fn same_tape_relation() -> spec_fn(OptState, OptState) -> bool {
    |a: OptState, b: OptState| same_tape(a, b)
}

/// A step that stops the run leaves the cursor where it is and the tape as
/// the program sees it.
pub proof fn lemma_stop_keeps_tape(s: OptState)
    requires
        opt_next(s, None).1 != Step::More,
        !(opt_next(s, None).1 is Output),
    ensures
        opt_next(s, None).0.mem_index == s.mem_index,
        opt_next(s, None).0.control.len() == s.control.len(),
        shown_tape(opt_next(s, None).0) == shown_tape(s),
{
    assert(shown_tape(opt_next(s, None).0) =~= shown_tape(s));
}

/// Whether the run stands at an operation, and at which.
pub open spec fn stands_at(s: OptState, instr: Instr) -> bool {
    &&& s.control.len() > 0
    &&& 0 <= s.control.last() < block_at(s.ops, s.control).len()
    &&& block_at(s.ops, s.control)[s.control.last()] == instr
}

/// Cell arithmetic wraps modulo 256: adding 1 to 255 gives 0, taking 1 from
/// 0 gives 255.
pub proof fn lemma_opt_arithmetic_wraps(s: OptState, input: Option<u8>, value: i8)
    requires
        stands_at(s, Instr::Mod(value)),
    ensures
        opt_next(s, input).1 == Step::More,
        opt_next(s, input).0 == (OptState {
            cur_pos_value: ((s.cur_pos_value + value) % 256) as u8,
            control: advanced(s.control),
            ..s
        }),
{
}

/// A loop on a zero cell is skipped whole: one step leads behind the loop
/// and changes nothing else, so that nothing in the loop's body runs.
pub proof fn lemma_opt_skips_loop_on_zero(s: OptState, input: Option<u8>, body: Seq<Instr>)
    requires
        stands_at(s, Instr::Loop(body)),
        s.cur_pos_value == 0,
    ensures
        opt_next(s, input).1 == Step::More,
        opt_next(s, input).0 == (OptState { control: advanced(s.control), ..s }),
{
}

/// A move by 0 reports nothing and changes nothing that the program can
/// see: the cursor, the held value and the tape with the held value in place
/// stay as they are.
pub proof fn lemma_opt_move_zero_is_neutral(s: OptState, input: Option<u8>)
    requires
        stands_at(s, Instr::Move(0)),
        s.reach.contains(s.mem_index as int),
    ensures
        opt_next(s, input).1 == Step::More,
        opt_next(s, input).0.mem_index == s.mem_index,
        opt_next(s, input).0.cur_pos_value == s.cur_pos_value,
        visible_cells(opt_next(s, input).0) == visible_cells(s),
        opt_next(s, input).0.control == advanced(s.control),
{
    assert(visible_cells(opt_next(s, input).0) =~= visible_cells(s));
}

/// In a valid place the last index is at most the length of the sequence it
/// points into.
pub proof fn lemma_control_last_in_block(ops: Seq<Instr>, control: Seq<int>)
    requires
        control.len() > 0,
        control_valid(ops, control),
    ensures
        0 <= control.last() <= block_at(ops, control).len(),
    decreases control.len(),
{
    if control.len() > 1 {
        match ops[control[0]] {
            Instr::Loop(body) => {
                lemma_control_last_in_block(body, control.drop_first());
            },
            _ => {},
        }
    }
}

/// Another last index in the same sequence gives a valid place in it.
pub proof fn lemma_control_replace_last(ops: Seq<Instr>, control: Seq<int>, last: int)
    requires
        control.len() > 0,
        control_valid(ops, control),
        0 <= last <= block_at(ops, control).len(),
    ensures
        control_valid(ops, control.drop_last().push(last)),
        block_at(ops, control.drop_last().push(last)) == block_at(ops, control),
    decreases control.len(),
{
    let replaced = control.drop_last().push(last);
    if control.len() > 1 {
        match ops[control[0]] {
            Instr::Loop(body) => {
                lemma_control_replace_last(body, control.drop_first(), last);
                assert(replaced.drop_first() =~= control.drop_first().drop_last().push(last));
            },
            _ => {},
        }
    }
}

/// Entering the loop that a valid place points at gives a valid place at the
/// start of the loop's body.
pub proof fn lemma_control_enter(ops: Seq<Instr>, control: Seq<int>, body: Seq<Instr>)
    requires
        control.len() > 0,
        control_valid(ops, control),
        0 <= control.last() < block_at(ops, control).len(),
        block_at(ops, control)[control.last()] == Instr::Loop(body),
    ensures
        control_valid(ops, control.push(0int)),
        block_at(ops, control.push(0int)) == body,
    decreases control.len(),
{
    let entered = control.push(0int);
    assert(entered[0] == control[0]);
    if control.len() == 1 {
        let inner = entered.drop_first();
        assert(inner =~= seq![0int]);
        assert(inner.len() == 1);
        assert(control_valid(body, inner));
        assert(block_at(body, inner) == body);
        assert(block_at(ops, control) == ops);
    } else {
        match ops[control[0]] {
            Instr::Loop(inner) => {
                assert(control.drop_first().last() == control.last());
                assert(block_at(ops, control) == block_at(inner, control.drop_first()));
                lemma_control_enter(inner, control.drop_first(), body);
                assert(entered.drop_first() =~= control.drop_first().push(0int));
            },
            _ => {},
        }
    }
}

/// Leaving the innermost loop of a valid place gives a valid place that
/// points at that loop.
pub proof fn lemma_control_leave(ops: Seq<Instr>, control: Seq<int>)
    requires
        control.len() > 1,
        control_valid(ops, control),
    ensures
        control_valid(ops, control.drop_last()),
        0 <= control.drop_last().last() < block_at(ops, control.drop_last()).len(),
        block_at(ops, control.drop_last())[control.drop_last().last()] == Instr::Loop(
            block_at(ops, control),
        ),
    decreases control.len(),
{
    let outer = control.drop_last();
    assert(outer[0] == control[0]);
    match ops[control[0]] {
        Instr::Loop(body) => {
            assert(block_at(ops, control) == block_at(body, control.drop_first()));
            if control.len() > 2 {
                lemma_control_leave(body, control.drop_first());
                assert(outer.drop_first() =~= control.drop_first().drop_last());
                assert(outer.last() == control.drop_first().drop_last().last());
                assert(block_at(ops, outer) == block_at(body, outer.drop_first()));
            } else {
                assert(control.drop_first().len() == 1);
                assert(block_at(body, control.drop_first()) == body);
                assert(outer.len() == 1);
                assert(block_at(ops, outer) == ops);
                assert(outer.last() == control[0]);
            }
        },
        _ => {},
    }
}

/// The interpreter that walks the tree of operations.
#[derive(Debug)]
pub struct BfOptInterpreter<T> {
    memory: T,
    operations: Operations,
    control: Vec<usize>,
    mem_index: i32,
    cur_pos_value: u8,
}

impl<T: BfMemory> BfOptInterpreter<T> {
    /// The interpreter before the first step of the program `operations`,
    /// taken as it is.
    pub fn with_operations(operations: Operations, bf_memory: T) -> (interpreter: BfOptInterpreter<T>)
        requires
            bf_memory.wf(),
        ensures
            interpreter.wf(),
            interpreter.state() == (OptState {
                ops: operations@,
                reach: tape_reach(bf_memory),
                cells: tape_cells(bf_memory),
                control: Seq::empty(),
                mem_index: 0,
                cur_pos_value: 0,
            }),
    {
        BfOptInterpreter {
            memory: bf_memory,
            operations,
            control: Vec::new(),
            mem_index: 0,
            cur_pos_value: 0,
        }
    }

    /// The program that the interpreter runs.
    pub fn get_ops(&self) -> (ops: &[Operation])
        ensures
            ops_view(ops@) == self.state().ops,
    {
        self.operations.as_slice()
    }

    /// The tape. The value of the current cell goes back to it when the
    /// cursor moves and when the program ends.
    pub fn memory(&self) -> (memory: &T)
        ensures
            forall|index: int| #[trigger] memory.cell(index) == self.state().cells[index],
            memory.wf() == self.wf_memory(),
    {
        &self.memory
    }

    /// Whether the tape is as its layout asks.
    pub closed spec fn wf_memory(&self) -> bool {
        self.memory.wf()
    }

    /// Runs the program on `input` for at most `max_steps` instructions, from
    /// where the interpreter stands. A read takes the next byte of `input`;
    /// the run stops where the program ends, at a fault, before a read that
    /// finds `input` used up, and when the steps are.
    pub fn start(&mut self, input: &[u8], max_steps: u64) -> (run: Run)
        requires
            old(self).wf(),
        ensures
            final(self).wf(),
            final(self).state() == run_spec(
                Self::steps(),
                old(self).state(),
                input@,
                max_steps as nat,
            ).state,
            run.output@ == run_spec(Self::steps(), old(self).state(), input@, max_steps as nat).output,
            run.consumed == run_spec(
                Self::steps(),
                old(self).state(),
                input@,
                max_steps as nat,
            ).consumed,
            run.end == run_spec(Self::steps(), old(self).state(), input@, max_steps as nat).end,
    {
        run(self, input, max_steps)
    }

    /// The sequence of operations that the run stands in.
    fn current_block<'a>(operations: &'a Operations, control: &Vec<usize>) -> (block: &'a [Operation])
        requires
            control@.len() > 0,
            control_valid(operations@, places(control@)),
        ensures
            ops_view(block@) == block_at(operations@, places(control@)),
    {
        let mut block: &[Operation] = operations.operations.as_slice();
        let mut depth: usize = 0;
        let ghost path = places(control@);
        assert(path.skip(0) =~= path);
        while depth < control.len() - 1
            invariant
                depth < control@.len(),
                path == places(control@),
                control_valid(ops_view(block@), path.skip(depth as int)),
                block_at(ops_view(block@), path.skip(depth as int)) == block_at(operations@, path),
            decreases control@.len() - depth,
        {
            let ghost rest = path.skip(depth as int);
            assert(rest[0] == control@[depth as int]);
            assert(rest.drop_first() =~= path.skip(depth + 1));
            let at = control[depth];
            match &block[at] {
                Operation::Loop(body) => {
                    block = body.operations.as_slice();
                },
                _ => {
                    assert(false);
                },
            }
            depth += 1;
        }
        block
    }

    /// Moves the place of the run behind the operation it points at.
    fn advance(&mut self)
        requires
            old(self).control@.len() > 0,
            old(self).wf(),
            old(self).control@.last() < block_at(
                old(self).operations@,
                places(old(self).control@),
            ).len(),
            old(self).control@.last() < usize::MAX,
        ensures
            final(self).wf(),
            final(self).state() == (OptState {
                control: advanced(old(self).state().control),
                ..old(self).state()
            }),
    {
        let depth = self.control.len();
        let pos = self.control[depth - 1];
        proof {
            lemma_control_replace_last(self.operations@, places(self.control@), pos + 1);
            assert(places(self.control@.update(depth - 1, (pos + 1) as usize)) =~= advanced(
                places(self.control@),
            ));
        }
        self.control.set(depth - 1, pos + 1);
        assert(self.state() =~= (OptState {
            control: advanced(old(self).state().control),
            ..old(self).state()
        }));
    }
}

impl<T: BfMemory> Machine for BfOptInterpreter<T> {
    type State = OptState;

    closed spec fn wf(&self) -> bool {
        &&& self.memory.wf()
        &&& control_valid(self.operations@, places(self.control@))
    }

    closed spec fn state(&self) -> OptState {
        OptState {
            ops: self.operations@,
            reach: tape_reach(self.memory),
            cells: tape_cells(self.memory),
            control: places(self.control@),
            mem_index: self.mem_index,
            cur_pos_value: self.cur_pos_value,
        }
    }

    open spec fn steps() -> spec_fn(OptState, Option<u8>) -> (OptState, Step) {
        opt_steps()
    }

    fn step(&mut self, input: Option<u8>) -> (step: Step) {
        let ghost before = self.state();
        let index = self.mem_index;
        let depth = self.control.len();
        if depth == 0 {
            if !self.memory.can_reach(index) {
                return Step::Fault(Fault::OutOfTape);
            }
            self.cur_pos_value = *self.memory.get_ref(index);
            self.control.push(0);
            assert(places(self.control@) =~= seq![0int]);
            assert(self.state() =~= opt_next(before, input).0);
            return Step::More;
        }
        let block = BfOptInterpreter::<T>::current_block(&self.operations, &self.control);
        let pos = self.control[depth - 1];
        proof {
            lemma_control_last_in_block(self.operations@, places(self.control@));
            assert(places(self.control@).last() == pos);
        }
        if pos >= block.len() {
            if depth == 1 {
                if !self.memory.can_reach(index) {
                    return Step::Fault(Fault::OutOfTape);
                }
                *self.memory.get_ref(index) = self.cur_pos_value;
                assert(self.state() =~= opt_next(before, input).0);
                return Step::Done;
            }
            proof {
                lemma_control_leave(self.operations@, places(self.control@));
            }
            if self.cur_pos_value != 0 {
                proof {
                    lemma_control_replace_last(self.operations@, places(self.control@), 0);
                    assert(places(self.control@.update(depth - 1, 0usize)) =~= places(
                        self.control@,
                    ).drop_last().push(0int));
                }
                self.control.set(depth - 1, 0);
                assert(self.state() =~= opt_next(before, input).0);
            } else {
                proof {
                    assert(places(self.control@.drop_last()) =~= places(self.control@).drop_last());
                }
                self.control.pop();
                let outer = BfOptInterpreter::<T>::current_block(&self.operations, &self.control);
                let outer_len = outer.len();
                assert(ops_view(outer@).len() == outer_len);
                self.advance();
            }
            return Step::More;
        }
        let ghost instr = block_at(self.operations@, places(self.control@))[pos as int];
        assert(instr == op_view(block@[pos as int]));
        match &block[pos] {
            Operation::Mod(value) => {
                self.cur_pos_value = self.cur_pos_value.wrapping_add_signed(*value);
                self.advance();
                Step::More
            },
            Operation::SetValue(value) => {
                self.cur_pos_value = *value;
                self.advance();
                Step::More
            },
            Operation::Move(delta) => {
                let target = index.wrapping_add(*delta);
                if !self.memory.can_reach(index) || !self.memory.can_reach(target) {
                    return Step::Fault(Fault::OutOfTape);
                }
                *self.memory.get_ref(index) = self.cur_pos_value;
                self.mem_index = target;
                self.cur_pos_value = *self.memory.get_ref(target);
                self.advance();
                assert(self.state() =~= opt_next(before, input).0);
                Step::More
            },
            Operation::Loop(body) => {
                if self.cur_pos_value != 0 {
                    proof {
                        lemma_control_enter(self.operations@, places(self.control@), body@);
                        assert(places(self.control@.push(0usize)) =~= places(self.control@).push(
                            0int,
                        ));
                    }
                    self.control.push(0);
                    assert(self.state() =~= opt_next(before, input).0);
                } else {
                    self.advance();
                }
                Step::More
            },
            Operation::GetInput => match input {
                Some(read) => {
                    self.cur_pos_value = read;
                    self.advance();
                    Step::More
                },
                None => Step::Input,
            },
            Operation::PrintOutput => {
                let value = self.cur_pos_value;
                self.advance();
                Step::Output(value)
            },
        }
    }
}

impl<T: BfMemory> Executor<T> for BfOptInterpreter<T> {
    /// The interpreter before the first step of the program that `code`
    /// holds, optimized where `enable_optimizations` is set.
    fn new(code: String, bf_memory: T, enable_optimizations: bool) -> (res: Result<
        BfOptInterpreter<T>,
        ParseError,
    >)
        ensures
            match parse(encode_utf8(code@)) {
                Ok(parsed) => res matches Ok(interpreter) && interpreter.state() == (OptState {
                    ops: if enable_optimizations {
                        optimize_fix(parsed)
                    } else {
                        parsed
                    },
                    reach: tape_reach(bf_memory),
                    cells: tape_cells(bf_memory),
                    control: Seq::empty(),
                    mem_index: 0,
                    cur_pos_value: 0,
                }),
                Err(e) => res matches Err(err) && err == e,
            },
    {
        let mut operations = match Operations::conv_string_to_operations(code.as_str()) {
            Ok(operations) => operations,
            Err(e) => {
                return Err(e);
            },
        };
        if enable_optimizations {
            operations.optimize();
        }
        Ok(BfOptInterpreter::with_operations(operations, bf_memory))
    }
}

} // verus!
