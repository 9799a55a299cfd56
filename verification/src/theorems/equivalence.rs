//! The two interpreters show the same and leave the same tape: the one that
//! works on the program text and the one that walks the tree that the
//! front-end makes of that text go through the program side by side.

use vstd::prelude::*;
use crate::executors::{Fault, Step, run_spec};
use crate::executors::operations::{
    CLOSE, COMMA, DOT, Instr, LEFT, MINUS, OPEN, PLUS, ParseError, RIGHT, instr_of_byte,
    is_unmatched_open, lemma_last_unmatched_open, lemma_scan_close_bounds,
    lemma_scan_close_deeper, parse, parse_range, scan_close,
};
use crate::executors::bf_interpreter::{
    InterpreterState, behind_loop, interpreter_next, interpreter_steps, touches_cell,
};
use crate::executors::bf_opt_interpreter::{
    OptState, advanced, block_at, control_valid, lemma_stop_keeps_tape, opt_next, opt_steps,
    shown_tape, visible_cells,
};
use crate::theorems::simulation::{
    ends_in, fed, holds, is_simulation, is_simulation_unless, lemma_simulation,
    lemma_simulation_back, lemma_simulation_unless, same_observation, step_matches,
    step_matches_unless, stops,
};

verus! {

/// Whether a place in the text and a place in the tree are the same place.
/// The text between `lo` and `hi` is the sequence that the first index of
/// `control` points into. `stack` holds, for each loop around the place, the
/// index behind its `[`, and `pc` is the index of the next byte. At each
/// level the text from the place to the end of the level is what is left of
/// the level's operations.
pub open spec fn places_match(
    src: Seq<u8>,
    lo: int,
    hi: int,
    stack: Seq<int>,
    pc: int,
    control: Seq<int>,
) -> bool
    decreases control.len(),
{
    let block = parse_range(src, lo, hi);
    if control.len() == 0 {
        false
    } else if control.len() == 1 {
        &&& stack.len() == 0
        &&& 0 <= lo <= pc <= hi <= src.len()
        &&& scan_close(src, pc, 0) == hi
        &&& 0 <= control[0] <= block.len()
        &&& parse_range(src, pc, hi) == block.skip(control[0])
    } else {
        let open = stack[0] - 1;
        let close = scan_close(src, stack[0], 0);
        &&& stack.len() > 0
        &&& 0 <= lo <= open < close < hi <= src.len()
        &&& src[open] == OPEN
        &&& scan_close(src, open, 0) == hi
        &&& 0 <= control[0] < block.len()
        &&& parse_range(src, open, hi) == block.skip(control[0])
        &&& places_match(src, stack[0], close, stack.drop_first(), pc, control.drop_first())
    }
}

/// Where the innermost level of a place in the text begins.
pub open spec fn inner_lo(lo: int, stack: Seq<int>) -> int {
    if stack.len() == 0 {
        lo
    } else {
        stack.last()
    }
}

/// A stretch of text holds at most as many operations as bytes.
pub proof fn lemma_parse_range_len(src: Seq<u8>, lo: int, hi: int)
    ensures
        parse_range(src, lo, hi).len() <= if lo < hi {
            hi - lo
        } else {
            0
        },
    decreases hi - lo,
{
    if !(lo < 0 || lo >= hi || hi > src.len()) {
        if src[lo] == OPEN {
            let close = scan_close(src, lo + 1, 0);
            if lo < close < hi {
                lemma_parse_range_len(src, close + 1, hi);
            }
        } else {
            lemma_parse_range_len(src, lo + 1, hi);
        }
    }
}

/// A loop in the text is the loop over its body, followed by what stands
/// behind its `]`.
pub proof fn lemma_parse_range_at_open(src: Seq<u8>, open: int, hi: int)
    requires
        0 <= open < hi <= src.len(),
        src[open] == OPEN,
        scan_close(src, open, 0) == hi,
        scan_close(src, open + 1, 0) < hi,
    ensures
        ({
            let close = scan_close(src, open + 1, 0);
            &&& open < close < hi
            &&& src[close] == CLOSE
            &&& scan_close(src, close + 1, 0) == hi
            &&& parse_range(src, open, hi) == seq![Instr::Loop(parse_range(src, open + 1, close))]
                + parse_range(src, close + 1, hi)
        }),
{
    lemma_scan_close_bounds(src, open + 1, 0);
    lemma_scan_close_deeper(src, open + 1, 0);
}

/// Where the rest of a sequence begins with an operation, the sequence holds
/// that operation there, and the rest behind it is the rest of the rest.
pub proof fn lemma_skip_head(block: Seq<Instr>, k: int, head: Instr, tail: Seq<Instr>)
    requires
        0 <= k <= block.len(),
        block.skip(k) == seq![head] + tail,
    ensures
        k < block.len(),
        block[k] == head,
        block.skip(k + 1) == tail,
{
    let rest = block.skip(k);
    assert(rest.len() == tail.len() + 1);
    assert(rest[0] == head);
    assert(block.skip(k + 1) =~= rest.skip(1));
    assert(rest.skip(1) =~= tail);
}

/// What a place that is the same in text and tree says of the innermost
/// level: the text from the level's start to the `]` that ends it is the
/// sequence that the tree's place points into, and the text from the place
/// on is the rest of that sequence.
pub proof fn lemma_places_inner(
    src: Seq<u8>,
    lo: int,
    hi: int,
    stack: Seq<int>,
    pc: int,
    control: Seq<int>,
)
    requires
        places_match(src, lo, hi, stack, pc, control),
    ensures
        ({
            let start = inner_lo(lo, stack);
            let end = scan_close(src, pc, 0);
            let block = block_at(parse_range(src, lo, hi), control);
            &&& control.len() == stack.len() + 1
            &&& 0 <= start <= pc <= end <= src.len()
            &&& stack.len() > 0 ==> end < src.len() && scan_close(src, start, 0) == end
            &&& stack.len() == 0 ==> end == hi
            &&& block == parse_range(src, start, end)
            &&& 0 <= control.last() <= block.len()
            &&& parse_range(src, pc, end) == block.skip(control.last())
            &&& control_valid(parse_range(src, lo, hi), control)
            &&& block.len() <= src.len()
        }),
    decreases control.len(),
{
    lemma_parse_range_len(src, lo, hi);
    if control.len() > 1 {
        let open = stack[0] - 1;
        let close = scan_close(src, stack[0], 0);
        let outer = parse_range(src, lo, hi);
        lemma_parse_range_at_open(src, open, hi);
        lemma_skip_head(
            outer,
            control[0],
            Instr::Loop(parse_range(src, open + 1, close)),
            parse_range(src, close + 1, hi),
        );
        lemma_places_inner(src, stack[0], close, stack.drop_first(), pc, control.drop_first());
        assert(control.drop_first().last() == control.last());
        if stack.len() > 1 {
            assert(stack.drop_first().last() == stack.last());
        }
    }
}

/// Another place on the innermost level is again the same in text and tree,
/// where the text from it on is the rest of the level's sequence from the
/// new index on.
pub proof fn lemma_places_replace(
    src: Seq<u8>,
    lo: int,
    hi: int,
    stack: Seq<int>,
    pc: int,
    control: Seq<int>,
    new_pc: int,
    new_last: int,
)
    requires
        places_match(src, lo, hi, stack, pc, control),
        inner_lo(lo, stack) <= new_pc <= scan_close(src, pc, 0),
        scan_close(src, new_pc, 0) == scan_close(src, pc, 0),
        0 <= new_last <= parse_range(src, inner_lo(lo, stack), scan_close(src, pc, 0)).len(),
        parse_range(src, new_pc, scan_close(src, pc, 0)) == parse_range(
            src,
            inner_lo(lo, stack),
            scan_close(src, pc, 0),
        ).skip(new_last),
    ensures
        places_match(src, lo, hi, stack, new_pc, control.drop_last().push(new_last)),
    decreases control.len(),
{
    let replaced = control.drop_last().push(new_last);
    if control.len() > 1 {
        let close = scan_close(src, stack[0], 0);
        lemma_places_inner(src, stack[0], close, stack.drop_first(), pc, control.drop_first());
        if stack.len() > 1 {
            assert(stack.drop_first().last() == stack.last());
        }
        lemma_places_replace(
            src,
            stack[0],
            close,
            stack.drop_first(),
            pc,
            control.drop_first(),
            new_pc,
            new_last,
        );
        assert(replaced.drop_first() =~= control.drop_first().drop_last().push(new_last));
        assert(replaced[0] == control[0]);
    } else {
        assert(replaced =~= seq![new_last]);
    }
}

/// Entering the loop whose `[` stands at the place gives the same place in
/// text and tree again: the start of the loop's body.
pub proof fn lemma_places_enter(
    src: Seq<u8>,
    lo: int,
    hi: int,
    stack: Seq<int>,
    pc: int,
    control: Seq<int>,
)
    requires
        places_match(src, lo, hi, stack, pc, control),
        pc < src.len(),
        src[pc] == OPEN,
        scan_close(src, pc + 1, 0) < scan_close(src, pc, 0),
    ensures
        places_match(src, lo, hi, stack.push(pc + 1), pc + 1, control.push(0int)),
    decreases control.len(),
{
    let entered = control.push(0int);
    let pushed = stack.push(pc + 1);
    lemma_scan_close_bounds(src, pc + 1, 0);
    if control.len() > 1 {
        let close = scan_close(src, stack[0], 0);
        lemma_places_enter(src, stack[0], close, stack.drop_first(), pc, control.drop_first());
        assert(entered.drop_first() =~= control.drop_first().push(0int));
        assert(pushed.drop_first() =~= stack.drop_first().push(pc + 1));
        assert(entered[0] == control[0]);
        assert(pushed[0] == stack[0]);
    } else {
        let end = scan_close(src, pc, 0);
        let close = scan_close(src, pc + 1, 0);
        lemma_parse_range_at_open(src, pc, end);
        lemma_skip_head(
            parse_range(src, lo, hi),
            control[0],
            Instr::Loop(parse_range(src, pc + 1, close)),
            parse_range(src, close + 1, end),
        );
        let inner_control = entered.drop_first();
        let inner_stack = pushed.drop_first();
        assert(inner_control =~= seq![0int]);
        assert(inner_stack =~= Seq::<int>::empty());
        assert(pushed[0] == pc + 1);
        assert(parse_range(src, pc + 1, close).skip(0) =~= parse_range(src, pc + 1, close));
        assert(places_match(src, pc + 1, close, inner_stack, pc + 1, inner_control));
    }
}

/// Leaving the innermost loop at its `]` gives the same place in text and
/// tree again: the place behind the loop.
pub proof fn lemma_places_leave(
    src: Seq<u8>,
    lo: int,
    hi: int,
    stack: Seq<int>,
    pc: int,
    control: Seq<int>,
)
    requires
        places_match(src, lo, hi, stack, pc, control),
        stack.len() > 0,
        scan_close(src, pc, 0) == pc,
    ensures
        places_match(src, lo, hi, stack.drop_last(), pc + 1, advanced(control.drop_last())),
    decreases control.len(),
{
    let left = advanced(control.drop_last());
    let popped = stack.drop_last();
    let open = stack[0] - 1;
    let close = scan_close(src, stack[0], 0);
    lemma_parse_range_at_open(src, open, hi);
    lemma_parse_range_len(src, lo, hi);
    if control.len() > 2 {
        lemma_places_inner(src, stack[0], close, stack.drop_first(), pc, control.drop_first());
        lemma_places_leave(src, stack[0], close, stack.drop_first(), pc, control.drop_first());
        assert(control.drop_last().drop_first() =~= control.drop_first().drop_last());
        assert(control.drop_last().last() == control.drop_first().drop_last().last());
        assert(left.drop_first() =~= advanced(control.drop_first().drop_last()));
        assert(popped.drop_first() =~= stack.drop_first().drop_last());
        assert(left[0] == control[0]);
        assert(popped[0] == stack[0]);
        assert(left.len() == control.len() - 1);
    } else {
        // The loop that is left is the only one around the place.
        lemma_places_inner(src, stack[0], close, stack.drop_first(), pc, control.drop_first());
        assert(control.drop_first().len() == 1);
        assert(stack.drop_first().len() == 0);
        assert(pc == close);
        lemma_skip_head(
            parse_range(src, lo, hi),
            control[0],
            Instr::Loop(parse_range(src, open + 1, close)),
            parse_range(src, close + 1, hi),
        );
        assert(control.drop_last() =~= seq![control[0]]);
        assert(left =~= seq![control[0] + 1]);
        assert(popped =~= Seq::<int>::empty());
        assert(scan_close(src, pc + 1, 0) == hi);
        assert(parse_range(src, pc + 1, hi) == parse_range(src, lo, hi).skip(left[0]));
    }
}

/// Whether the tape can hand out every cell that a cursor can stand on.
pub open spec fn all_cells_reachable(reach: Set<int>) -> bool {
    forall|index: int| i32::MIN <= index <= i32::MAX ==> #[trigger] reach.contains(index)
}

/// Whether the tape holds a value for every cell.
pub open spec fn tape_is_total(cells: Map<int, u8>) -> bool {
    forall|index: int| #[trigger] cells.dom().contains(index)
}

/// Whether every bracket of the text has its partner: the text that the
/// front-end accepts.
pub open spec fn well_bracketed(src: Seq<u8>) -> bool {
    &&& scan_close(src, 0, 0) == src.len()
    &&& forall|index: int| !#[trigger] is_unmatched_open(src, index)
}

/// Whether the two interpreters stand side by side: the tree is that of the
/// text, both stand at the same place in it with the cursor on the same
/// cell, and the text interpreter's tape is the tree interpreter's with the
/// held value in place. Before its first step the tree interpreter stands
/// where the text interpreter starts.
pub open spec fn side_by_side(a: InterpreterState, b: OptState) -> bool {
    &&& well_bracketed(a.code)
    &&& b.ops == parse_range(a.code, 0, a.code.len() as int)
    &&& all_cells_reachable(a.reach)
    &&& all_cells_reachable(b.reach)
    &&& tape_is_total(b.cells)
    &&& a.mem_index == b.mem_index
    &&& if b.control.len() == 0 {
        &&& a.pc == 0
        &&& a.loop_stack.len() == 0
        &&& a.cells == b.cells
    } else {
        a.cells == visible_cells(b) && places_match(
            a.code,
            0,
            a.code.len() as int,
            a.loop_stack,
            a.pc,
            b.control,
        )
    }
}

/// [`side_by_side`] as a function.
pub open spec fn side_by_side_relation() -> spec_fn(InterpreterState, OptState) -> bool {
    |a: InterpreterState, b: OptState| side_by_side(a, b)
}

/// How many bytes of the text lie before the text interpreter.
pub open spec fn text_rank() -> spec_fn(InterpreterState) -> nat {
    |a: InterpreterState|
        if a.pc < a.code.len() {
            (a.code.len() - a.pc) as nat
        } else {
            0
        }
}

/// Whether the tree interpreter has yet to do its first step.
pub open spec fn tree_rank() -> spec_fn(OptState) -> nat {
    |b: OptState|
        if b.control.len() == 0 {
            1
        } else {
            0
        }
}

/// Before its first step the tree interpreter loads the current cell, and
/// then stands where the text interpreter starts.
proof fn lemma_step_first(a: InterpreterState, b: OptState)
    requires
        side_by_side(a, b),
        b.control.len() == 0,
    ensures
        step_matches(
            interpreter_steps(),
            opt_steps(),
            side_by_side_relation(),
            text_rank(),
            tree_rank(),
            a,
            b,
        ),
{
    let b1 = opt_next(b, None).0;
    let src = a.code;
    assert(b1.control =~= seq![0int]);
    assert(visible_cells(b1) =~= b.cells);
    assert(parse_range(src, 0, src.len() as int).skip(0) =~= parse_range(src, 0, src.len() as int));
    assert(places_match(src, 0, src.len() as int, a.loop_stack, a.pc, b1.control));
    assert(side_by_side(a, b1));
    assert(holds(side_by_side_relation(), a, b1));
}

/// At the end of a level both interpreters end the program, or both go
/// through the loop once more, or both leave it.
proof fn lemma_step_at_end(a: InterpreterState, b: OptState)
    requires
        side_by_side(a, b),
        b.control.len() > 0,
        scan_close(a.code, a.pc, 0) == a.pc,
    ensures
        step_matches(
            interpreter_steps(),
            opt_steps(),
            side_by_side_relation(),
            text_rank(),
            tree_rank(),
            a,
            b,
        ),
{
    let src = a.code;
    let len = src.len() as int;
    lemma_places_inner(src, 0, len, a.loop_stack, a.pc, b.control);
    let start = inner_lo(0, a.loop_stack);
    let block = block_at(b.ops, b.control);
    assert(parse_range(src, a.pc, a.pc) =~= Seq::<Instr>::empty());
    assert(block.skip(b.control.last()).len() == 0);
    assert(b.control.last() == block.len());
    let (a1, x) = interpreter_next(a, None);
    let (b1, y) = opt_next(b, None);
    if a.loop_stack.len() == 0 {
        assert(x == Step::Done);
        assert(y == Step::Done);
    } else {
        lemma_scan_close_bounds(src, a.pc, 0);
        assert(src[a.pc] == CLOSE);
        assert(a.cells[a.mem_index as int] == b.cur_pos_value);
        assert(x == Step::More);
        assert(y == Step::More);
        if b.cur_pos_value != 0 {
            assert(parse_range(src, start, a.pc).skip(0) =~= parse_range(src, start, a.pc));
            lemma_places_replace(src, 0, len, a.loop_stack, a.pc, b.control, start, 0int);
            assert(visible_cells(b1) == visible_cells(b));
            assert(side_by_side(a1, b1));
        } else {
            lemma_places_leave(src, 0, len, a.loop_stack, a.pc, b.control);
            assert(visible_cells(b1) == visible_cells(b));
            assert(side_by_side(a1, b1));
        }
        assert(holds(side_by_side_relation(), a1, b1));
    }
}

/// At a `[` both interpreters enter the loop, or both pass it.
proof fn lemma_step_at_open(a: InterpreterState, b: OptState)
    requires
        side_by_side(a, b),
        b.control.len() > 0,
        a.pc < scan_close(a.code, a.pc, 0),
        a.code[a.pc] == OPEN,
    ensures
        step_matches(
            interpreter_steps(),
            opt_steps(),
            side_by_side_relation(),
            text_rank(),
            tree_rank(),
            a,
            b,
        ),
{
    let src = a.code;
    let len = src.len() as int;
    lemma_places_inner(src, 0, len, a.loop_stack, a.pc, b.control);
    let start = inner_lo(0, a.loop_stack);
    let end = scan_close(src, a.pc, 0);
    let close = scan_close(src, a.pc + 1, 0);
    let block = block_at(b.ops, b.control);
    let k = b.control.last();
    lemma_scan_close_bounds(src, a.pc + 1, 0);
    lemma_scan_close_deeper(src, a.pc + 1, 0);
    assert(close < len) by {
        if close >= len {
            assert(is_unmatched_open(src, a.pc));
        }
    }
    lemma_scan_close_bounds(src, close + 1, 0);
    lemma_parse_range_at_open(src, a.pc, end);
    let body = parse_range(src, a.pc + 1, close);
    let rest = parse_range(src, close + 1, end);
    lemma_skip_head(block, k, Instr::Loop(body), rest);
    let (a1, x) = interpreter_next(a, None);
    let (b1, y) = opt_next(b, None);
    assert(a.cells[a.mem_index as int] == b.cur_pos_value);
    assert(x == Step::More);
    assert(y == Step::More);
    if b.cur_pos_value != 0 {
        lemma_places_enter(src, 0, len, a.loop_stack, a.pc, b.control);
        assert(visible_cells(b1) == visible_cells(b));
        assert(side_by_side(a1, b1));
    } else {
        assert(behind_loop(src, a.pc + 1) == close + 1);
        lemma_places_replace(src, 0, len, a.loop_stack, a.pc, b.control, close + 1, k + 1);
        assert(visible_cells(b1) == visible_cells(b));
        assert(side_by_side(a1, b1));
    }
    assert(holds(side_by_side_relation(), a1, b1));
}

/// At a byte that is no bracket the text interpreter alone passes a byte
/// that is no command, or both interpreters do what the command says.
proof fn lemma_step_at_byte(a: InterpreterState, b: OptState)
    requires
        side_by_side(a, b),
        b.control.len() > 0,
        a.pc < scan_close(a.code, a.pc, 0),
        a.code[a.pc] != OPEN,
    ensures
        step_matches(
            interpreter_steps(),
            opt_steps(),
            side_by_side_relation(),
            text_rank(),
            tree_rank(),
            a,
            b,
        ),
{
    let src = a.code;
    let len = src.len() as int;
    lemma_places_inner(src, 0, len, a.loop_stack, a.pc, b.control);
    let end = scan_close(src, a.pc, 0);
    let block = block_at(b.ops, b.control);
    let k = b.control.last();
    let byte = src[a.pc];
    let index = a.mem_index as int;
    let rest = parse_range(src, a.pc + 1, end);
    assert(byte != CLOSE);
    assert(scan_close(src, a.pc + 1, 0) == end);
    assert(a.cells[index] == b.cur_pos_value);
    let (a1, x) = interpreter_next(a, None);
    let (b1, y) = opt_next(b, None);
    match instr_of_byte(byte) {
        None => {
            assert(parse_range(src, a.pc, end) == rest);
            assert(!touches_cell(byte));
            assert(x == Step::More);
            lemma_places_replace(src, 0, len, a.loop_stack, a.pc, b.control, a.pc + 1, k);
            assert(b.control.drop_last().push(k) =~= b.control);
            assert(side_by_side(a1, b));
            assert(holds(side_by_side_relation(), a1, b));
            assert(text_rank()(a1) < text_rank()(a));
        },
        Some(instr) => {
            assert(parse_range(src, a.pc, end) == seq![instr] + rest);
            lemma_skip_head(block, k, instr, rest);
            lemma_places_replace(
                src,
                0,
                len,
                a.loop_stack,
                a.pc,
                b.control,
                a.pc + 1,
                k + 1,
            );
            assert(b.control.drop_last().push(k + 1) == advanced(b.control));
            if byte == COMMA {
                assert(x == Step::Input && y == Step::Input);
                assert(a1 == a && b1 == b);
                assert forall|read: u8| #[trigger]
                    holds(
                        side_by_side_relation(),
                        fed(interpreter_steps(), a1, read),
                        fed(opt_steps(), b1, read),
                    ) by {
                    let a2 = interpreter_next(a, Some(read)).0;
                    let b2 = opt_next(b, Some(read)).0;
                    assert(visible_cells(b2) =~= a2.cells);
                    assert(side_by_side(a2, b2));
                }
            } else if byte == DOT {
                assert(x == y);
                assert(visible_cells(b1) == visible_cells(b));
                assert(side_by_side(a1, b1));
                assert(holds(side_by_side_relation(), a1, b1));
            } else if byte == PLUS || byte == MINUS {
                assert(x == Step::More && y == Step::More);
                assert(visible_cells(b1) =~= a1.cells);
                assert(side_by_side(a1, b1));
                assert(holds(side_by_side_relation(), a1, b1));
            } else {
                assert(byte == LEFT || byte == RIGHT);
                assert(x == Step::More && y == Step::More);
                assert(a1.mem_index == b1.mem_index);
                assert(visible_cells(b1) =~= a1.cells);
                assert(tape_is_total(b1.cells));
                assert(side_by_side(a1, b1));
                assert(holds(side_by_side_relation(), a1, b1));
            }
        },
    }
}

/// Side by side the two interpreters stay side by side.
pub proof fn lemma_side_by_side_is_kept()
    ensures
        is_simulation(
            interpreter_steps(),
            opt_steps(),
            side_by_side_relation(),
            text_rank(),
            tree_rank(),
        ),
{
    assert forall|a: InterpreterState, b: OptState| #[trigger]
        holds(side_by_side_relation(), a, b) implies step_matches(
        interpreter_steps(),
        opt_steps(),
        side_by_side_relation(),
        text_rank(),
        tree_rank(),
        a,
        b,
    ) by {
        assert(side_by_side(a, b));
        if b.control.len() == 0 {
            lemma_step_first(a, b);
        } else {
            lemma_places_inner(a.code, 0, a.code.len() as int, a.loop_stack, a.pc, b.control);
            if scan_close(a.code, a.pc, 0) == a.pc {
                lemma_step_at_end(a, b);
            } else if a.code[a.pc] == OPEN {
                lemma_step_at_open(a, b);
            } else {
                lemma_step_at_byte(a, b);
            }
        }
    }
}

/// The text interpreter at the start of the text `src`.
pub open spec fn text_start(src: Seq<u8>, reach: Set<int>, cells: Map<int, u8>) -> InterpreterState {
    InterpreterState { code: src, reach, cells, pc: 0, mem_index: 0, loop_stack: Seq::empty() }
}

/// The tree interpreter before the first step of the program `ops`.
pub open spec fn tree_start(ops: Seq<Instr>, reach: Set<int>, cells: Map<int, u8>) -> OptState {
    OptState { ops, reach, cells, control: Seq::empty(), mem_index: 0, cur_pos_value: 0 }
}

/// The text that the front-end accepts is the text whose brackets all have
/// partners, and its program is that of the whole text.
pub proof fn lemma_parse_ok(src: Seq<u8>)
    ensures
        parse(src) is Ok <==> well_bracketed(src),
        parse(src) matches Ok(ops) ==> ops == parse_range(src, 0, src.len() as int),
{
    lemma_last_unmatched_open(src, src.len() as int);
    lemma_scan_close_bounds(src, 0, 0);
    if well_bracketed(src) {
        let open = crate::executors::operations::last_unmatched_open(src, src.len() as int);
        if open >= 0 {
            assert(is_unmatched_open(src, open));
        }
    }
}

/// Whether the two interpreters have the cursor on the same cell and the
/// same tape: the text interpreter's is the tree interpreter's as the
/// program has left it.
pub open spec fn text_tape_is_tree_tape(a: InterpreterState, b: OptState) -> bool {
    a.mem_index == b.mem_index && a.cells == shown_tape(b)
}

/// [`text_tape_is_tree_tape`] as a function.
pub open spec fn text_tape_is_tree_tape_relation() -> spec_fn(InterpreterState, OptState) -> bool {
    |a: InterpreterState, b: OptState| text_tape_is_tree_tape(a, b)
}

/// Where the two interpreters stop side by side, they have left the same
/// tape.
pub proof fn lemma_side_by_side_ends_alike()
    ensures
        ends_in(
            interpreter_steps(),
            opt_steps(),
            side_by_side_relation(),
            text_tape_is_tree_tape_relation(),
        ),
{
    let ended = text_tape_is_tree_tape_relation();
    assert forall|a: InterpreterState, b: OptState| #[trigger]
        holds(side_by_side_relation(), a, b) && stops(interpreter_steps()(a, None).1)
            && interpreter_steps()(a, None).1 == opt_steps()(b, None).1 implies holds(
        ended,
        interpreter_steps()(a, None).0,
        opt_steps()(b, None).0,
    ) by {
        assert(interpreter_steps()(a, None) == interpreter_next(a, None));
        assert(opt_steps()(b, None) == opt_next(b, None));
        assert(side_by_side(a, b));
        lemma_stop_keeps_tape(b);
        assert(interpreter_next(a, None).0 == a);
    }
}

/// On a program that the front-end accepts, on a tape that can hand out every
/// cell, the two interpreters show the same: whatever the text interpreter
/// writes, reads and ends with in `fuel` steps, the tree interpreter, on the
/// program as the front-end built it, writes, reads and ends with in as many
/// steps as the result says. Where the text interpreter has stopped, both
/// have left the cursor on the same cell and the same tape.
pub proof fn lemma_tree_interpreter_follows_text_interpreter(
    src: Seq<u8>,
    reach: Set<int>,
    cells: Map<int, u8>,
    input: Seq<u8>,
    fuel: nat,
) -> (other: nat)
    requires
        parse(src) is Ok,
        all_cells_reachable(reach),
        tape_is_total(cells),
    ensures
        same_observation(
            run_spec(interpreter_steps(), text_start(src, reach, cells), input, fuel),
            run_spec(opt_steps(), tree_start(parse(src)->Ok_0, reach, cells), input, other),
        ),
        run_spec(interpreter_steps(), text_start(src, reach, cells), input, fuel).end
            != Step::More ==> text_tape_is_tree_tape(
            run_spec(interpreter_steps(), text_start(src, reach, cells), input, fuel).state,
            run_spec(opt_steps(), tree_start(parse(src)->Ok_0, reach, cells), input, other).state,
        ),
{
    lemma_parse_ok(src);
    lemma_side_by_side_is_kept();
    lemma_side_by_side_ends_alike();
    let a = text_start(src, reach, cells);
    let b = tree_start(parse(src)->Ok_0, reach, cells);
    assert(side_by_side(a, b));
    assert(holds(side_by_side_relation(), a, b));
    lemma_simulation(
        interpreter_steps(),
        opt_steps(),
        side_by_side_relation(),
        text_rank(),
        tree_rank(),
        text_tape_is_tree_tape_relation(),
        a,
        b,
        input,
        fuel,
    )
}

/// The same the other way round: whatever the tree interpreter shows and
/// leaves in `fuel` steps, the text interpreter shows and leaves in as many
/// steps as the result says.
pub proof fn lemma_text_interpreter_follows_tree_interpreter(
    src: Seq<u8>,
    reach: Set<int>,
    cells: Map<int, u8>,
    input: Seq<u8>,
    fuel: nat,
) -> (other: nat)
    requires
        parse(src) is Ok,
        all_cells_reachable(reach),
        tape_is_total(cells),
    ensures
        same_observation(
            run_spec(interpreter_steps(), text_start(src, reach, cells), input, other),
            run_spec(opt_steps(), tree_start(parse(src)->Ok_0, reach, cells), input, fuel),
        ),
        run_spec(opt_steps(), tree_start(parse(src)->Ok_0, reach, cells), input, fuel).end
            != Step::More ==> text_tape_is_tree_tape(
            run_spec(interpreter_steps(), text_start(src, reach, cells), input, other).state,
            run_spec(opt_steps(), tree_start(parse(src)->Ok_0, reach, cells), input, fuel).state,
        ),
{
    lemma_parse_ok(src);
    lemma_side_by_side_is_kept();
    lemma_side_by_side_ends_alike();
    let a = text_start(src, reach, cells);
    let b = tree_start(parse(src)->Ok_0, reach, cells);
    assert(side_by_side(a, b));
    assert(holds(side_by_side_relation(), a, b));
    lemma_simulation_back(
        interpreter_steps(),
        opt_steps(),
        side_by_side_relation(),
        text_rank(),
        tree_rank(),
        text_tape_is_tree_tape_relation(),
        a,
        b,
        input,
        fuel,
    )
}

/// Two states of the text interpreter that differ at most in that the tape
/// of the second can hand out more cells.
pub open spec fn text_on_wider_tape() -> spec_fn(InterpreterState, InterpreterState) -> bool {
    |a: InterpreterState, b: InterpreterState|
        a.reach.subset_of(b.reach) && b == (InterpreterState { reach: b.reach, ..a })
}

/// Two states of the tree interpreter that differ at most in that the tape
/// of the second can hand out more cells.
pub open spec fn tree_on_wider_tape() -> spec_fn(OptState, OptState) -> bool {
    |a: OptState, b: OptState| a.reach.subset_of(b.reach) && b == (OptState { reach: b.reach, ..a })
}

/// A run of the text interpreter that does not end outside the tape shows
/// the same on every tape that can hand out whatever this one can: within its
/// bounds the fixed tape is as good as a tape that grows.
pub proof fn lemma_text_interpreter_on_wider_tape(
    a: InterpreterState,
    reach: Set<int>,
    input: Seq<u8>,
    fuel: nat,
)
    requires
        a.reach.subset_of(reach),
        run_spec(interpreter_steps(), a, input, fuel).end != Step::Fault(Fault::OutOfTape),
    ensures
        same_observation(
            run_spec(interpreter_steps(), a, input, fuel),
            run_spec(interpreter_steps(), InterpreterState { reach, ..a }, input, fuel),
        ),
{
    let related = text_on_wider_tape();
    let escape = Step::Fault(Fault::OutOfTape);
    assert forall|x: InterpreterState, y: InterpreterState| #[trigger]
        holds(related, x, y) implies step_matches_unless(
        interpreter_steps(),
        interpreter_steps(),
        related,
        escape,
        x,
        y,
    ) by {
        let (x1, step) = interpreter_next(x, None);
        let (y1, other) = interpreter_next(y, None);
        if step != escape {
            assert(step == other);
            assert(y1 == (InterpreterState { reach: y.reach, ..x1 }));
            assert(holds(related, x1, y1));
            if step == Step::Input {
                assert forall|byte: u8| #[trigger]
                    holds(
                        related,
                        fed(interpreter_steps(), x1, byte),
                        fed(interpreter_steps(), y1, byte),
                    ) by {
                    let x2 = interpreter_next(x1, Some(byte)).0;
                    let y2 = interpreter_next(y1, Some(byte)).0;
                    assert(y2 == (InterpreterState { reach: y.reach, ..x2 }));
                }
            }
        }
    }
    let b = InterpreterState { reach, ..a };
    assert(holds(related, a, b));
    lemma_simulation_unless(
        interpreter_steps(),
        interpreter_steps(),
        related,
        escape,
        a,
        b,
        input,
        fuel,
    );
}

/// A run of the tree interpreter that does not end outside the tape shows
/// the same on every tape that can hand out whatever this one can.
pub proof fn lemma_tree_interpreter_on_wider_tape(
    a: OptState,
    reach: Set<int>,
    input: Seq<u8>,
    fuel: nat,
)
    requires
        a.reach.subset_of(reach),
        run_spec(opt_steps(), a, input, fuel).end != Step::Fault(Fault::OutOfTape),
    ensures
        same_observation(
            run_spec(opt_steps(), a, input, fuel),
            run_spec(opt_steps(), OptState { reach, ..a }, input, fuel),
        ),
{
    let related = tree_on_wider_tape();
    let escape = Step::Fault(Fault::OutOfTape);
    assert forall|x: OptState, y: OptState| #[trigger] holds(related, x, y) implies step_matches_unless(
        opt_steps(),
        opt_steps(),
        related,
        escape,
        x,
        y,
    ) by {
        let (x1, step) = opt_next(x, None);
        let (y1, other) = opt_next(y, None);
        if step != escape {
            assert(step == other);
            assert(y1 == (OptState { reach: y.reach, ..x1 }));
            assert(holds(related, x1, y1));
            if step == Step::Input {
                assert forall|byte: u8| #[trigger]
                    holds(related, fed(opt_steps(), x1, byte), fed(opt_steps(), y1, byte)) by {
                    let x2 = opt_next(x1, Some(byte)).0;
                    let y2 = opt_next(y1, Some(byte)).0;
                    assert(y2 == (OptState { reach: y.reach, ..x2 }));
                }
            }
        }
    }
    let b = OptState { reach, ..a };
    assert(holds(related, a, b));
    lemma_simulation_unless(opt_steps(), opt_steps(), related, escape, a, b, input, fuel);
}

} // verus!
