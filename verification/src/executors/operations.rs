//! The intermediate representation, the front-end that builds it from program
//! text, and the peephole optimizer.

use vstd::prelude::*;
use vstd::std_specs::cmp::PartialEqSpecImpl;
use vstd::string::StringSliceAdditionalSpecFns;

verus! {

/// `+`
pub const PLUS: u8 = 43;

/// `,`
pub const COMMA: u8 = 44;

/// `-`
pub const MINUS: u8 = 45;

/// `.`
pub const DOT: u8 = 46;

/// `<`
pub const LEFT: u8 = 60;

/// `>`
pub const RIGHT: u8 = 62;

/// `[`
pub const OPEN: u8 = 91;

/// `]`
pub const CLOSE: u8 = 93;

/// One operation of the intermediate representation.
#[derive(Debug)]
pub enum Operation {
    /// Add the value to the current cell, wrapping modulo 256.
    Mod(i8),
    /// Shift the tape cursor by the given number of cells.
    Move(i32),
    /// Run the body while the current cell is not zero.
    Loop(Operations),
    /// Assign the value to the current cell.
    SetValue(u8),
    /// Read one byte of input into the current cell.
    GetInput,
    /// Write the current cell to the output.
    PrintOutput,
}

/// An ordered sequence of operations.
#[derive(Debug)]
pub struct Operations {
    pub operations: Vec<Operation>,
}

/// The mathematical model of an [`Operation`].
pub enum Instr {
    Mod(i8),
    Move(i32),
    Loop(Seq<Instr>),
    SetValue(u8),
    GetInput,
    PrintOutput,
}

/// Why program text was rejected. Both variants carry a byte index into the text.
#[derive(Debug, Clone, Copy, PartialEq, Eq, Structural)]
pub enum ParseError {
    /// The `[` at this index is never closed; of several, the innermost.
    UnmatchedOpenBracket(usize),
    /// The `]` at this index closes nothing.
    UnmatchedCloseBracket(usize),
}

/// The model of one operation.
pub open spec fn op_view(op: Operation) -> Instr
    decreases op,
{
    match op {
        Operation::Mod(v) => Instr::Mod(v),
        Operation::Move(v) => Instr::Move(v),
        Operation::Loop(body) => Instr::Loop(ops_view(body.operations@)),
        Operation::SetValue(v) => Instr::SetValue(v),
        Operation::GetInput => Instr::GetInput,
        Operation::PrintOutput => Instr::PrintOutput,
    }
}

/// The model of a sequence of operations, element by element.
pub open spec fn ops_view(ops: Seq<Operation>) -> Seq<Instr>
    decreases ops,
{
    Seq::new(
        ops.len(),
        |i: int|
            if 0 <= i < ops.len() {
                op_view(ops[i])
            } else {
                Instr::GetInput
            },
    )
}

impl View for Operation {
    type V = Instr;

    open spec fn view(&self) -> Instr {
        op_view(*self)
    }
}

impl View for Operations {
    type V = Seq<Instr>;

    open spec fn view(&self) -> Seq<Instr> {
        ops_view(self.operations@)
    }
}

/// Scanning forward from `pos` at bracket depth `depth`: the index of the first
/// `]` that closes more than was opened since `pos`, or the length where there
/// is none.
pub open spec fn scan_close(src: Seq<u8>, pos: int, depth: nat) -> int
    decreases src.len() - pos,
{
    if pos < 0 || pos >= src.len() {
        src.len() as int
    } else if src[pos] == OPEN {
        scan_close(src, pos + 1, depth + 1)
    } else if src[pos] == CLOSE {
        if depth == 0 {
            pos
        } else {
            scan_close(src, pos + 1, (depth - 1) as nat)
        }
    } else {
        scan_close(src, pos + 1, depth)
    }
}

/// What a byte other than a bracket emits.
pub open spec fn instr_of_byte(b: u8) -> Option<Instr> {
    if b == PLUS {
        Some(Instr::Mod(1))
    } else if b == MINUS {
        Some(Instr::Mod(-1i8))
    } else if b == LEFT {
        Some(Instr::Move(-1i32))
    } else if b == RIGHT {
        Some(Instr::Move(1))
    } else if b == COMMA {
        Some(Instr::GetInput)
    } else if b == DOT {
        Some(Instr::PrintOutput)
    } else {
        None
    }
}

/// The operations of the text between `lo` and `hi`, where every bracket in
/// that range is matched within it: a `[` becomes a loop over the text up to
/// its `]`.
pub open spec fn parse_range(src: Seq<u8>, lo: int, hi: int) -> Seq<Instr>
    decreases hi - lo,
{
    if lo < 0 || lo >= hi || hi > src.len() {
        Seq::empty()
    } else if src[lo] == OPEN {
        let close = scan_close(src, lo + 1, 0);
        if lo < close < hi {
            seq![Instr::Loop(parse_range(src, lo + 1, close))] + parse_range(src, close + 1, hi)
        } else {
            Seq::empty()
        }
    } else {
        match instr_of_byte(src[lo]) {
            Some(instr) => seq![instr] + parse_range(src, lo + 1, hi),
            None => parse_range(src, lo + 1, hi),
        }
    }
}

/// Whether `src[i]` is a `[` that no later `]` closes.
pub open spec fn is_unmatched_open(src: Seq<u8>, i: int) -> bool {
    0 <= i < src.len() && src[i] == OPEN && scan_close(src, i + 1, 0) >= src.len()
}

/// The greatest index below `n` of an unmatched `[`, or -1.
pub open spec fn last_unmatched_open(src: Seq<u8>, n: int) -> int
    decreases n,
{
    if n <= 0 {
        -1
    } else if is_unmatched_open(src, n - 1) {
        n - 1
    } else {
        last_unmatched_open(src, n - 1)
    }
}

/// What the front-end makes of program text: the first `]` that closes
/// nothing is an error; else the innermost `[` left open is one; else the
/// text is a program.
pub open spec fn parse(src: Seq<u8>) -> Result<Seq<Instr>, ParseError> {
    let stop = scan_close(src, 0, 0);
    let open = last_unmatched_open(src, src.len() as int);
    if stop < src.len() {
        Err(ParseError::UnmatchedCloseBracket(stop as usize))
    } else if open >= 0 {
        Err(ParseError::UnmatchedOpenBracket(open as usize))
    } else {
        Ok(parse_range(src, 0, src.len() as int))
    }
}

/// A scan never goes backwards nor past the end.
pub proof fn lemma_scan_close_bounds(src: Seq<u8>, pos: int, depth: nat)
    requires
        0 <= pos <= src.len(),
    ensures
        pos <= scan_close(src, pos, depth) <= src.len(),
        scan_close(src, pos, depth) < src.len() ==> src[scan_close(src, pos, depth)] == CLOSE,
    decreases src.len() - pos,
{
    if pos < src.len() {
        if src[pos] == OPEN {
            lemma_scan_close_bounds(src, pos + 1, depth + 1);
        } else if src[pos] == CLOSE {
            if depth > 0 {
                lemma_scan_close_bounds(src, pos + 1, (depth - 1) as nat);
            }
        } else {
            lemma_scan_close_bounds(src, pos + 1, depth);
        }
    }
}

/// Closing one level more means closing the level, then scanning on at depth 0.
pub proof fn lemma_scan_close_deeper(src: Seq<u8>, pos: int, depth: nat)
    requires
        0 <= pos <= src.len(),
    ensures
        scan_close(src, pos, depth + 1) == if scan_close(src, pos, depth) < src.len() {
            scan_close(src, scan_close(src, pos, depth) + 1, 0)
        } else {
            src.len() as int
        },
    decreases src.len() - pos,
{
    if pos < src.len() {
        if src[pos] == OPEN {
            lemma_scan_close_deeper(src, pos + 1, depth + 1);
        } else if src[pos] == CLOSE {
            if depth > 0 {
                lemma_scan_close_deeper(src, pos + 1, (depth - 1) as nat);
            }
        } else {
            lemma_scan_close_deeper(src, pos + 1, depth);
        }
    }
}

/// A deeper scan stops later, where it stops at all.
pub proof fn lemma_scan_close_monotone(src: Seq<u8>, pos: int, shallow: nat, deep: nat)
    requires
        0 <= pos <= src.len(),
        shallow < deep,
        scan_close(src, pos, deep) < src.len(),
    ensures
        scan_close(src, pos, shallow) < scan_close(src, pos, deep),
    decreases deep - shallow,
{
    let below = (deep - 1) as nat;
    lemma_scan_close_deeper(src, pos, below);
    lemma_scan_close_bounds(src, pos, below);
    if scan_close(src, pos, below) < src.len() {
        lemma_scan_close_bounds(src, scan_close(src, pos, below) + 1, 0);
    }
    if shallow < below {
        lemma_scan_close_monotone(src, pos, shallow, below);
    }
}

/// Every `[` between `pos` and the `]` that a scan from `pos` stops at is
/// closed before that `]`.
pub proof fn lemma_opens_closed_within(src: Seq<u8>, pos: int, depth: nat, j: int)
    requires
        0 <= pos <= j < scan_close(src, pos, depth) < src.len(),
        src[j] == OPEN,
    ensures
        scan_close(src, j + 1, 0) < scan_close(src, pos, depth),
    decreases src.len() - pos,
{
    if src[pos] == OPEN {
        if j == pos {
            lemma_scan_close_monotone(src, pos + 1, 0, depth + 1);
        } else {
            lemma_opens_closed_within(src, pos + 1, depth + 1, j);
        }
    } else if src[pos] == CLOSE {
        lemma_opens_closed_within(src, pos + 1, (depth - 1) as nat, j);
    } else {
        lemma_opens_closed_within(src, pos + 1, depth, j);
    }
}

/// What [`last_unmatched_open`] finds is an unmatched `[`, and none follows it.
pub proof fn lemma_last_unmatched_open(src: Seq<u8>, n: int)
    requires
        0 <= n <= src.len(),
    ensures
        -1 <= last_unmatched_open(src, n) < n,
        last_unmatched_open(src, n) >= 0 ==> is_unmatched_open(src, last_unmatched_open(src, n)),
        forall|j: int|
            last_unmatched_open(src, n) < j < n ==> !#[trigger] is_unmatched_open(src, j),
    decreases n,
{
    if n > 0 && !is_unmatched_open(src, n - 1) {
        lemma_last_unmatched_open(src, n - 1);
    }
}

/// Pushing an operation pushes its model.
pub proof fn lemma_ops_view_push(ops: Seq<Operation>, op: Operation)
    ensures
        ops_view(ops.push(op)) == ops_view(ops).push(op_view(op)),
{
    assert(ops_view(ops.push(op)) =~= ops_view(ops).push(op_view(op)));
}

impl Default for Operations {
    fn default() -> (ops: Operations)
        ensures
            ops@ == Seq::<Instr>::empty(),
    {
        let ops = Operations { operations: Vec::new() };
        assert(ops@ =~= Seq::<Instr>::empty());
        ops
    }
}

impl Operations {
    /// The number of operations at the top level.
    pub fn len(&self) -> (n: usize)
        ensures
            n == self@.len(),
    {
        self.operations.len()
    }

    /// The operations as a slice.
    pub fn as_slice(&self) -> (ops: &[Operation])
        ensures
            ops_view(ops@) == self@,
    {
        self.operations.as_slice()
    }

    /// Appends one operation.
    pub fn push(&mut self, op: Operation)
        ensures
            final(self)@ == old(self)@.push(op@),
    {
        proof {
            lemma_ops_view_push(self.operations@, op);
        }
        self.operations.push(op);
    }

    /// Builds the program of the text `code`, read as bytes: only the eight
    /// command bytes count, every other byte is skipped.
    pub fn conv_string_to_operations(code: &str) -> (res: Result<Operations, ParseError>)
        ensures
            match res {
                Ok(ops) => parse(code.spec_bytes()) == Ok::<Seq<Instr>, ParseError>(ops@),
                Err(e) => parse(code.spec_bytes()) == Err::<Seq<Instr>, ParseError>(e),
            },
    {
        let bytes = code.as_bytes();
        let mut pos: usize = 0;
        let res = Operations::iterator_to_operations(bytes, &mut pos, None);
        proof {
            lemma_last_unmatched_open(bytes@, bytes@.len() as int);
        }
        res
    }

    /// Reads operations from `code` at `*pos` up to the `]` that closes the
    /// loop opened at `loop_start`, or, outside any loop, up to the end. On
    /// success `*pos` is just behind what was read.
    pub fn iterator_to_operations(code: &[u8], pos: &mut usize, loop_start: Option<usize>) -> (res:
        Result<Operations, ParseError>)
        requires
            *old(pos) <= code@.len(),
            loop_start matches Some(s) ==> s + 1 == *old(pos) && code@[s as int] == OPEN,
        ensures
            match res {
                Ok(ops) => {
                    let end = scan_close(code@, *old(pos) as int, 0);
                    &&& ops@ == parse_range(code@, *old(pos) as int, end)
                    &&& loop_start is Some ==> end < code@.len() && *final(pos) == end + 1
                    &&& loop_start is None ==> end == code@.len() && *final(pos) == end
                    &&& forall|j: int|
                        *old(pos) <= j < end ==> !#[trigger] is_unmatched_open(code@, j)
                },
                Err(ParseError::UnmatchedCloseBracket(i)) => {
                    &&& loop_start is None
                    &&& i == scan_close(code@, *old(pos) as int, 0)
                    &&& i < code@.len()
                },
                Err(ParseError::UnmatchedOpenBracket(i)) => {
                    &&& scan_close(code@, *old(pos) as int, 0) == code@.len()
                    &&& i == last_unmatched_open(code@, code@.len() as int)
                },
            },
        decreases code@.len() - *old(pos),
    {
        let mut vec = Operations::default();
        let ghost src = code@;
        let ghost start = *pos as int;
        let ghost end = scan_close(src, start, 0);
        proof {
            lemma_scan_close_bounds(src, start, 0);
        }
        while *pos < code.len()
            invariant
                src == code@,
                start <= *pos <= src.len(),
                start == *old(pos),
                loop_start matches Some(s) ==> s + 1 == start && src[s as int] == OPEN,
                end == scan_close(src, start, 0),
                end == scan_close(src, *pos as int, 0),
                *pos <= end <= src.len(),
                parse_range(src, start, end) == vec@ + parse_range(src, *pos as int, end),
                forall|j: int| start <= j < *pos ==> !#[trigger] is_unmatched_open(src, j),
            decreases src.len() - *pos,
        {
            let index = *pos;
            let byte = code[index];
            *pos = index + 1;
            proof {
                lemma_scan_close_bounds(src, index + 1, 0);
                lemma_scan_close_bounds(src, index + 1, 1);
                lemma_scan_close_deeper(src, index + 1, 0);
            }
            if byte == OPEN {
                match Operations::iterator_to_operations(code, pos, Some(index)) {
                    Ok(body) => {
                        let ghost close = scan_close(src, index + 1, 0);
                        proof {
                            lemma_scan_close_bounds(src, close + 1, 0);
                            assert forall|j: int| start <= j < close + 1 implies !#[trigger] is_unmatched_open(
                                src,
                                j,
                            ) by {
                                if index < j && j < close && src[j] == OPEN {
                                    lemma_opens_closed_within(src, index + 1, 0, j);
                                }
                            }
                            assert(parse_range(src, index as int, end) =~= seq![
                                Instr::Loop(body@),
                            ] + parse_range(src, close + 1, end));
                            assert(vec@.push(Instr::Loop(body@)) + parse_range(src, close + 1, end)
                                =~= vec@ + parse_range(src, index as int, end));
                        }
                        vec.push(Operation::Loop(body));
                    },
                    Err(e) => {
                        return Err(e);
                    },
                }
            } else if byte == CLOSE {
                match loop_start {
                    Some(_) => {
                        assert(parse_range(src, index as int, end) =~= Seq::<Instr>::empty());
                        assert(vec@ + Seq::<Instr>::empty() =~= vec@);
                        return Ok(vec);
                    },
                    None => {
                        return Err(ParseError::UnmatchedCloseBracket(index));
                    },
                }
            } else {
                let ghost rest = parse_range(src, index + 1, end);
                if byte == PLUS {
                    assert(vec@.push(Instr::Mod(1)) + rest =~= vec@ + (seq![Instr::Mod(1)] + rest));
                    vec.push(Operation::Mod(1));
                } else if byte == MINUS {
                    assert(vec@.push(Instr::Mod(-1i8)) + rest =~= vec@ + (seq![Instr::Mod(-1i8)]
                        + rest));
                    vec.push(Operation::Mod(-1));
                } else if byte == LEFT {
                    assert(vec@.push(Instr::Move(-1i32)) + rest =~= vec@ + (seq![Instr::Move(-1i32)]
                        + rest));
                    vec.push(Operation::Move(-1));
                } else if byte == RIGHT {
                    assert(vec@.push(Instr::Move(1)) + rest =~= vec@ + (seq![Instr::Move(1)]
                        + rest));
                    vec.push(Operation::Move(1));
                } else if byte == COMMA {
                    assert(vec@.push(Instr::GetInput) + rest =~= vec@ + (seq![Instr::GetInput]
                        + rest));
                    vec.push(Operation::GetInput);
                } else if byte == DOT {
                    assert(vec@.push(Instr::PrintOutput) + rest =~= vec@ + (seq![Instr::PrintOutput]
                        + rest));
                    vec.push(Operation::PrintOutput);
                }
            }
        }
        proof {
            lemma_last_unmatched_open(src, src.len() as int);
            assert(parse_range(src, src.len() as int, end) =~= Seq::<Instr>::empty());
            assert(vec@ + Seq::<Instr>::empty() =~= vec@);
        }
        match loop_start {
            Some(s) => {
                assert(is_unmatched_open(src, s as int));
                Err(ParseError::UnmatchedOpenBracket(s))
            },
            None => Ok(vec),
        }
    }
}

/// The number of operations in one operation, loop bodies counted.
pub open spec fn instr_size(instr: Instr) -> nat
    decreases instr,
{
    match instr {
        Instr::Loop(body) => 1 + ops_size(body),
        _ => 1,
    }
}

/// The number of operations in a sequence, loop bodies counted.
pub open spec fn ops_size(ops: Seq<Instr>) -> nat
    decreases ops,
{
    if ops.len() == 0 {
        0
    } else {
        ops_size(ops.drop_last()) + instr_size(ops.last())
    }
}

/// Appending one operation other than a loop to a result buffer: it fuses
/// with the last operation of the buffer where a rewrite applies. Two moves
/// fuse only where their sum is a 32-bit value.
pub open spec fn append_instr(acc: Seq<Instr>, instr: Instr) -> Seq<Instr> {
    if acc.len() == 0 {
        acc.push(instr)
    } else {
        match (acc.last(), instr) {
            (Instr::Mod(w), Instr::Mod(v)) => acc.drop_last().push(Instr::Mod(w.wrapping_add(v))),
            (Instr::SetValue(w), Instr::Mod(v)) => acc.drop_last().push(
                Instr::SetValue(w.wrapping_add_signed(v)),
            ),
            (Instr::Move(w), Instr::Move(v)) => if i32::MIN <= w + v <= i32::MAX {
                acc.drop_last().push(Instr::Move((w + v) as i32))
            } else {
                acc.push(instr)
            },
            (Instr::Mod(_), Instr::SetValue(v)) => acc.drop_last().push(Instr::SetValue(v)),
            (Instr::SetValue(_), Instr::SetValue(v)) => acc.drop_last().push(Instr::SetValue(v)),
            _ => acc.push(instr),
        }
    }
}

/// Whether a loop body is a single `Mod(1)` or `Mod(-1)`: such a loop only
/// clears the cell.
pub open spec fn is_clear_body(body: Seq<Instr>) -> bool {
    body.len() == 1 && (body[0] == Instr::Mod(1) || body[0] == Instr::Mod(-1i8))
}

/// What a loop becomes once its body is optimized.
pub open spec fn rewrite_loop(body: Seq<Instr>) -> Instr {
    if is_clear_body(body) {
        Instr::SetValue(0)
    } else {
        Instr::Loop(body)
    }
}

/// One traversal of the optimizer: the operations are appended in order to a
/// result buffer, each loop after its body went through the same traversal.
pub open spec fn optimize_pass(ops: Seq<Instr>) -> Seq<Instr>
    decreases ops,
{
    if ops.len() == 0 {
        ops
    } else {
        let acc = optimize_pass(ops.drop_last());
        match ops.last() {
            Instr::Loop(body) => acc.push(rewrite_loop(optimize_pass(body))),
            instr => append_instr(acc, instr),
        }
    }
}

/// The size of a sequence with one more operation.
pub proof fn lemma_ops_size_push(ops: Seq<Instr>, instr: Instr)
    ensures
        ops_size(ops.push(instr)) == ops_size(ops) + instr_size(instr),
{
    assert(ops.push(instr).drop_last() =~= ops);
}

/// A traversal never grows a program, and one that keeps its size keeps the
/// program.
pub proof fn lemma_pass_shrinks(ops: Seq<Instr>)
    ensures
        ops_size(optimize_pass(ops)) <= ops_size(ops),
        ops_size(optimize_pass(ops)) == ops_size(ops) ==> optimize_pass(ops) == ops,
    decreases ops,
{
    if ops.len() > 0 {
        let init = ops.drop_last();
        let acc = optimize_pass(init);
        lemma_pass_shrinks(init);
        assert(init.push(ops.last()) =~= ops);
        match ops.last() {
            Instr::Loop(body) => {
                lemma_pass_shrinks(body);
                let inner = optimize_pass(body);
                lemma_ops_size_push(acc, rewrite_loop(inner));
                assert(optimize_pass(ops) == acc.push(rewrite_loop(inner)));
                if is_clear_body(inner) {
                    lemma_ops_size_push(Seq::<Instr>::empty(), inner[0]);
                    assert(Seq::<Instr>::empty().push(inner[0]) =~= inner);
                    assert(ops_size(inner) == 1);
                    assert(instr_size(rewrite_loop(inner)) == 1);
                } else {
                    assert(instr_size(rewrite_loop(inner)) == 1 + ops_size(inner));
                }
                assert(instr_size(ops.last()) == 1 + ops_size(body));
            },
            instr => {
                lemma_ops_size_push(acc, instr);
                assert(optimize_pass(ops) == append_instr(acc, instr));
                assert(instr_size(instr) == 1);
                if acc.len() > 0 {
                    let fused = append_instr(acc, instr);
                    if fused != acc.push(instr) {
                        assert(acc.drop_last().push(acc.last()) =~= acc);
                        lemma_ops_size_push(acc.drop_last(), acc.last());
                        lemma_ops_size_push(acc.drop_last(), fused.last());
                        assert(acc.drop_last().push(fused.last()) =~= fused);
                        assert(instr_size(fused.last()) == 1);
                        assert(instr_size(acc.last()) == 1);
                    }
                }
            },
        }
        assert(ops_size(ops) == ops_size(init) + instr_size(ops.last()));
    }
}

/// The optimizer: traversals are repeated until one leaves the program as it
/// was.
pub open spec fn optimize_fix(ops: Seq<Instr>) -> Seq<Instr>
    decreases ops_size(ops),
{
    let next = optimize_pass(ops);
    if next == ops {
        ops
    } else {
        proof {
            lemma_pass_shrinks(ops);
        }
        optimize_fix(next)
    }
}

/// One more traversal changes nothing in an optimized program.
pub proof fn lemma_optimize_fix_is_fixed_point(ops: Seq<Instr>)
    ensures
        optimize_pass(optimize_fix(ops)) == optimize_fix(ops),
    decreases ops_size(ops),
{
    let next = optimize_pass(ops);
    if next != ops {
        lemma_pass_shrinks(ops);
        lemma_optimize_fix_is_fixed_point(next);
    }
}

/// Optimizing twice gives what optimizing once gives.
pub proof fn lemma_optimize_fix_idempotent(ops: Seq<Instr>)
    ensures
        optimize_fix(optimize_fix(ops)) == optimize_fix(ops),
{
    lemma_optimize_fix_is_fixed_point(ops);
}

/// Whether two operations have the same model.
pub fn operation_equal(a: &Operation, b: &Operation) -> (same: bool)
    ensures
        same == (a@ == b@),
    decreases a,
{
    match (a, b) {
        (Operation::Mod(x), Operation::Mod(y)) => *x == *y,
        (Operation::Move(x), Operation::Move(y)) => *x == *y,
        (Operation::Loop(x), Operation::Loop(y)) => operations_equal(
            x.operations.as_slice(),
            y.operations.as_slice(),
        ),
        (Operation::SetValue(x), Operation::SetValue(y)) => *x == *y,
        (Operation::GetInput, Operation::GetInput) => true,
        (Operation::PrintOutput, Operation::PrintOutput) => true,
        _ => false,
    }
}

/// Whether two sequences of operations have the same model.
pub fn operations_equal(a: &[Operation], b: &[Operation]) -> (same: bool)
    ensures
        same == (ops_view(a@) == ops_view(b@)),
    decreases a@,
{
    if a.len() != b.len() {
        assert(ops_view(a@).len() != ops_view(b@).len());
        return false;
    }
    let mut i: usize = 0;
    while i < a.len()
        invariant
            a@.len() == b@.len(),
            i <= a@.len(),
            forall|j: int| 0 <= j < i ==> op_view(a@[j]) == op_view(b@[j]),
        decreases a@.len() - i,
    {
        if !operation_equal(&a[i], &b[i]) {
            assert(ops_view(a@)[i as int] != ops_view(b@)[i as int]);
            return false;
        }
        i += 1;
    }
    assert(ops_view(a@) =~= ops_view(b@));
    true
}

impl PartialEq for Operation {
    fn eq(&self, other: &Operation) -> (same: bool) {
        operation_equal(self, other)
    }
}

impl PartialEqSpecImpl for Operation {
    open spec fn obeys_eq_spec() -> bool {
        true
    }

    open spec fn eq_spec(&self, other: &Operation) -> bool {
        self@ == other@
    }
}

impl PartialEq for Operations {
    fn eq(&self, other: &Operations) -> (same: bool) {
        operations_equal(self.operations.as_slice(), other.operations.as_slice())
    }
}

impl PartialEqSpecImpl for Operations {
    open spec fn obeys_eq_spec() -> bool {
        true
    }

    open spec fn eq_spec(&self, other: &Operations) -> bool {
        self@ == other@
    }
}

impl Operations {
    /// Runs the optimizer: traversals are repeated until one changes nothing.
    pub fn optimize(&mut self)
        ensures
            final(self)@ == optimize_fix(old(self)@),
    {
        loop
            invariant
                optimize_fix(self@) == optimize_fix(old(self)@),
            ensures
                self@ == optimize_fix(old(self)@),
            decreases ops_size(self@),
        {
            let new_ops = Operations::optimise_operations(self.operations.as_slice());
            proof {
                lemma_pass_shrinks(self@);
            }
            if new_ops == *self {
                break ;
            }
            *self = new_ops;
        }
    }

    /// One traversal of the optimizer over `old_ops`.
    pub fn optimise_operations(old_ops: &[Operation]) -> (new_ops: Operations)
        ensures
            new_ops@ == optimize_pass(ops_view(old_ops@)),
        decreases old_ops@,
    {
        let mut new_ops = Operations::default();
        let ghost all = ops_view(old_ops@);
        let mut i: usize = 0;
        while i < old_ops.len()
            invariant
                i <= old_ops@.len(),
                all == ops_view(old_ops@),
                new_ops@ == optimize_pass(all.take(i as int)),
            decreases old_ops@.len() - i,
        {
            let ghost acc = new_ops@;
            proof {
                assert(all.take(i + 1).drop_last() =~= all.take(i as int));
                assert(all.take(i + 1).last() == op_view(old_ops@[i as int]));
            }
            let n = new_ops.operations.len();
            match &old_ops[i] {
                Operation::Mod(value) => {
                    let fused = if n > 0 {
                        match new_ops.operations[n - 1] {
                            Operation::Mod(last) => Some(Operation::Mod(last.wrapping_add(*value))),
                            Operation::SetValue(last) => Some(
                                Operation::SetValue(last.wrapping_add_signed(*value)),
                            ),
                            _ => None,
                        }
                    } else {
                        None
                    };
                    new_ops.append_or_replace(fused, Operation::Mod(*value));
                },
                Operation::Move(value) => {
                    let fused = if n > 0 {
                        match new_ops.operations[n - 1] {
                            Operation::Move(last) => match last.checked_add(*value) {
                                Some(sum) => Some(Operation::Move(sum)),
                                None => None,
                            },
                            _ => None,
                        }
                    } else {
                        None
                    };
                    new_ops.append_or_replace(fused, Operation::Move(*value));
                },
                Operation::Loop(operations) => {
                    let loop_ops = Operations::optimise_operations(operations.operations.as_slice());
                    if loop_ops.is_clear_loop() {
                        new_ops.push(Operation::SetValue(0));
                    } else {
                        new_ops.push(Operation::Loop(loop_ops));
                    }
                },
                Operation::SetValue(value) => {
                    let fused = if n > 0 {
                        match new_ops.operations[n - 1] {
                            Operation::Mod(_) => Some(Operation::SetValue(*value)),
                            Operation::SetValue(_) => Some(Operation::SetValue(*value)),
                            _ => None,
                        }
                    } else {
                        None
                    };
                    new_ops.append_or_replace(fused, Operation::SetValue(*value));
                },
                Operation::GetInput => {
                    new_ops.push(Operation::GetInput);
                },
                Operation::PrintOutput => {
                    new_ops.push(Operation::PrintOutput);
                },
            }
            i += 1;
        }
        assert(all.take(i as int) =~= all);
        new_ops
    }

    /// Whether these operations are a single `Mod(1)` or `Mod(-1)`.
    fn is_clear_loop(&self) -> (clear: bool)
        ensures
            clear == is_clear_body(self@),
    {
        if self.operations.len() == 1 {
            match self.operations[0] {
                Operation::Mod(value) => value == 1 || value == -1,
                _ => false,
            }
        } else {
            false
        }
    }

    /// Puts `fused` in the place of the last operation, or appends `op` where
    /// there is nothing to fuse.
    fn append_or_replace(&mut self, fused: Option<Operation>, op: Operation)
        requires
            fused is Some ==> old(self)@.len() > 0,
        ensures
            final(self)@ == match fused {
                Some(f) => old(self)@.drop_last().push(f@),
                None => old(self)@.push(op@),
            },
    {
        match fused {
            Some(f) => {
                let n = self.operations.len();
                proof {
                    assert(ops_view(self.operations@.update(n - 1, f)) =~= ops_view(
                        self.operations@,
                    ).drop_last().push(op_view(f)));
                }
                self.operations.set(n - 1, f);
            },
            None => {
                self.push(op);
            },
        }
    }
}

} // verus!
