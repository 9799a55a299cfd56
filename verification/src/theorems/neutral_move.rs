//! A move by 0 changes nothing that a program shows or leaves: the program
//! with such a move put in anywhere, in the program itself or in the body of
//! any loop, shows the same as the program without it and leaves the same
//! tape.

use vstd::prelude::*;
use crate::executors::{Step, run_spec};
use crate::executors::operations::Instr;
use crate::executors::bf_opt_interpreter::{
    OptState, advanced, block_at, control_valid, lemma_control_enter, lemma_control_last_in_block,
    lemma_control_leave, lemma_control_replace_last, opt_next, opt_steps, same_tape_relation,
    visible_cells,
};
use crate::theorems::equivalence::{tape_is_total, tree_start};
use crate::theorems::rewrites::{lemma_stops_with_same_tape, lemma_visible_cells_with, same_run};
use crate::theorems::simulation::{
    fed, holds, is_simulation, lemma_simulation, lemma_simulation_back, step_matches,
};

verus! {

/// The program with a move by 0 put in at `place`: all indices of `place` but
/// the last lead through loops, each in the body of the one before, and the
/// move is put in before the operation at the last index. With an empty
/// place the program stays as it is.
pub open spec fn with_move_zero(ops: Seq<Instr>, place: Seq<int>) -> Seq<Instr>
    decreases place.len(),
{
    if place.len() == 0 {
        ops
    } else if place.len() == 1 {
        if 0 <= place[0] <= ops.len() {
            ops.insert(place[0], Instr::Move(0))
        } else {
            ops
        }
    } else if 0 <= place[0] < ops.len() {
        match ops[place[0]] {
            Instr::Loop(body) => ops.update(
                place[0],
                Instr::Loop(with_move_zero(body, place.drop_first())),
            ),
            _ => ops,
        }
    } else {
        ops
    }
}

/// Whether the place `control` lies in the sequence that the move is put
/// into, or in a loop of that sequence.
pub open spec fn on_insertion_level(place: Seq<int>, control: Seq<int>) -> bool {
    &&& place.len() > 0
    &&& control.len() >= place.len()
    &&& control.take(place.len() - 1) == place.take(place.len() - 1)
}

/// Where the place `control` of the program is found in the program with the
/// move put in: at or behind the move, the index in the sequence that the
/// move is put into is one greater.
pub open spec fn shifted(place: Seq<int>, control: Seq<int>) -> Seq<int> {
    let depth = place.len() - 1;
    if on_insertion_level(place, control) && control[depth] >= place.last() {
        control.update(depth, control[depth] + 1)
    } else {
        control
    }
}

/// Whether `other` is, in the program with the move put in, the place
/// `control` of the program: the same operation, or, where `control` is
/// where the move is put in, the move itself.
pub open spec fn same_place(place: Seq<int>, control: Seq<int>, other: Seq<int>) -> bool {
    other == shifted(place, control) || (control == place && other == control)
}

/// Whether two operations are of the same kind: the same operation, or two
/// loops.
pub open spec fn same_kind(a: Instr, b: Instr) -> bool {
    if a is Loop {
        b is Loop
    } else {
        a == b
    }
}

/// The same place in the two programs points into the same sequence: into
/// the sequence with the move put in, where the place lies in the sequence
/// that the move is put into; else into a sequence of as many operations of
/// the same kinds, at the same index.
pub proof fn lemma_block_with_move_zero(
    ops: Seq<Instr>,
    place: Seq<int>,
    control: Seq<int>,
    other: Seq<int>,
)
    requires
        control_valid(ops, place),
        control_valid(ops, control),
        control.len() > 0,
        same_place(place, control, other),
    ensures
        ({
            let block = block_at(ops, control);
            let moved = block_at(with_move_zero(ops, place), other);
            if on_insertion_level(place, control) && control.len() == place.len() {
                &&& 0 <= place.last() <= block.len()
                &&& moved == block.insert(place.last(), Instr::Move(0))
            } else {
                &&& other.last() == control.last()
                &&& moved.len() == block.len()
                &&& forall|i: int| 0 <= i < block.len() ==> same_kind(block[i], #[trigger] moved[i])
            }
        }),
        other.len() == control.len(),
    decreases control.len(),
{
    let changed = with_move_zero(ops, place);
    if control.len() == 1 {
        if place.len() == 0 {
            assert(other == control);
        } else if place.len() == 1 {
            assert(control.take(0) =~= place.take(0));
        } else {
            assert(other == control);
            match ops[place[0]] {
                Instr::Loop(body) => {},
                _ => {},
            }
        }
    } else {
        match ops[control[0]] {
            Instr::Loop(body) => {
                let inner = control.drop_first();
                if place.len() == 0 {
                    assert(other == control);
                    lemma_block_with_move_zero(body, Seq::empty(), inner, inner);
                } else if place.len() == 1 {
                    assert(control.take(0) =~= place.take(0));
                    assert(on_insertion_level(place, control));
                    assert(control != place);
                    assert(other == shifted(place, control));
                    assert(other[0] == if control[0] >= place[0] {
                        control[0] + 1
                    } else {
                        control[0]
                    });
                    assert(changed[other[0]] == ops[control[0]]);
                    assert(other.drop_first() =~= inner);
                    lemma_block_with_move_zero(body, Seq::empty(), inner, inner);
                } else if control[0] == place[0] {
                    let rest = place.drop_first();
                    assert(rest.last() == place.last());
                    if control.len() >= place.len() {
                        let width = place.len() - 1;
                        assert(inner.take(width - 1) =~= control.take(width).drop_first());
                        assert(rest.take(width - 1) =~= place.take(width).drop_first());
                        assert(control.take(width) =~= seq![control[0]] + inner.take(width - 1));
                        assert(place.take(width) =~= seq![place[0]] + rest.take(width - 1));
                        if on_insertion_level(rest, inner) {
                            assert(on_insertion_level(place, control));
                        }
                        assert(on_insertion_level(place, control) == on_insertion_level(rest, inner));
                        assert(inner[width - 1] == control[width]);
                    } else {
                        assert(!on_insertion_level(place, control));
                        assert(!on_insertion_level(rest, inner));
                    }
                    assert(shifted(place, control).drop_first() =~= shifted(rest, inner));
                    assert(shifted(place, control)[0] == control[0]);
                    if control == place {
                        assert(inner == rest);
                    }
                    assert(other[0] == control[0]);
                    assert(same_place(rest, inner, other.drop_first()));
                    lemma_block_with_move_zero(body, rest, inner, other.drop_first());
                } else {
                    if control.len() >= place.len() {
                        let width = place.len() - 1;
                        assert(control.take(width)[0] != place.take(width)[0]);
                    }
                    assert(!on_insertion_level(place, control));
                    assert(other == control);
                    match ops[place[0]] {
                        Instr::Loop(_) => {},
                        _ => {},
                    }
                    assert(changed[control[0]] == ops[control[0]]);
                    lemma_block_with_move_zero(body, Seq::empty(), inner, inner);
                }
            },
            _ => {},
        }
    }
}

/// Behind the same operation the two programs are at the same place again,
/// or the program with the move stands at the move.
pub proof fn lemma_same_place_advanced(place: Seq<int>, control: Seq<int>)
    requires
        place.len() > 0,
        control.len() > 0,
    ensures
        same_place(place, advanced(control), advanced(shifted(place, control))),
{
    let depth = place.len() - 1;
    let next = advanced(control);
    let other = shifted(place, control);
    if control.len() > depth {
        assert(next.take(depth) =~= control.take(depth));
        if on_insertion_level(place, control) {
            if control.len() - 1 == depth {
                assert(next.len() == place.len());
                if control[depth] < place.last() && next[depth] >= place.last() {
                    assert(next =~= place) by {
                        assert forall|i: int| 0 <= i < place.len() implies next[i] == place[i] by {
                            if i < depth {
                                assert(next.take(depth)[i] == place.take(depth)[i]);
                            }
                        }
                    }
                    assert(advanced(other) == next);
                } else {
                    assert(advanced(other) =~= shifted(place, next));
                }
            } else {
                assert(advanced(other) =~= shifted(place, next));
            }
        } else {
            assert(!on_insertion_level(place, next));
        }
    }
}

/// At the start of the same loop body the two programs are at the same
/// place, or the program with the move stands at the move.
pub proof fn lemma_same_place_restarted(place: Seq<int>, control: Seq<int>, other: Seq<int>)
    requires
        place.len() > 0,
        place.last() >= 0,
        control.len() > 0,
        same_place(place, control, other),
    ensures
        same_place(
            place,
            control.drop_last().push(0int),
            other.drop_last().push(0int),
        ),
{
    let depth = place.len() - 1;
    let next = control.drop_last().push(0int);
    let moved = other.drop_last().push(0int);
    if control.len() > depth {
        assert(next.take(depth) =~= control.take(depth));
        if on_insertion_level(place, control) {
            if control.len() - 1 == depth {
                assert(moved =~= next);
                if place.last() == 0 {
                    assert(next =~= place) by {
                        assert forall|i: int| 0 <= i < place.len() implies next[i] == place[i] by {
                            if i < depth {
                                assert(next.take(depth)[i] == place.take(depth)[i]);
                            }
                        }
                    }
                }
            } else {
                assert(moved =~= shifted(place, next));
            }
        } else {
            assert(!on_insertion_level(place, next));
            assert(moved =~= next);
        }
    } else {
        assert(moved =~= next);
    }
}

/// In the same loop the two programs are at the same place, or the program
/// with the move stands at the move.
pub proof fn lemma_same_place_entered(place: Seq<int>, control: Seq<int>)
    requires
        place.len() > 0,
        place.last() >= 0,
        control.len() > 0,
    ensures
        same_place(place, control.push(0int), shifted(place, control).push(0int)),
{
    let depth = place.len() - 1;
    let next = control.push(0int);
    let other = shifted(place, control);
    if control.len() > depth {
        assert(next.take(depth) =~= control.take(depth));
        assert(other.push(0int) =~= shifted(place, next));
    } else if control.len() == depth {
        assert(other == control);
        assert(next.take(depth) =~= control);
        if control == place.take(depth) && place.last() == 0 {
            assert(next =~= place);
        } else if control == place.take(depth) {
            assert(shifted(place, next) == next);
        } else {
            assert(!on_insertion_level(place, next));
        }
    } else {
        assert(other == control);
        assert(!on_insertion_level(place, next));
    }
}

/// Behind the same loop the two programs are at the same place, or the
/// program with the move stands at the move.
pub proof fn lemma_same_place_left(place: Seq<int>, control: Seq<int>, other: Seq<int>)
    requires
        place.len() > 0,
        control.len() > 1,
        same_place(place, control, other),
    ensures
        same_place(place, advanced(control.drop_last()), advanced(other.drop_last())),
{
    let depth = place.len() - 1;
    let outer = control.drop_last();
    if control.len() - 1 == depth {
        // The loop that is left is the sequence that the move is put into.
        assert(other.drop_last() =~= outer);
        assert(!on_insertion_level(place, advanced(outer)));
    } else {
        if control.len() > depth {
            assert(outer.take(depth) =~= control.take(depth));
            assert(other.drop_last() =~= shifted(place, outer));
        } else {
            assert(other.drop_last() =~= shifted(place, outer));
        }
        lemma_same_place_advanced(place, outer);
    }
}

/// Whether two states of the tree interpreter are the same but for the move
/// by 0 that the program of the second holds at `place`: both stand at the
/// same place with the cursor on the same cell and hold the same value, and
/// their tapes are the same with the held value in place.
pub open spec fn same_but_for_move(place: Seq<int>, a: OptState, b: OptState) -> bool {
    &&& place.len() > 0
    &&& control_valid(a.ops, place)
    &&& b.ops == with_move_zero(a.ops, place)
    &&& a.reach == b.reach
    &&& a.mem_index == b.mem_index
    &&& a.cur_pos_value == b.cur_pos_value
    &&& tape_is_total(a.cells)
    &&& tape_is_total(b.cells)
    &&& if a.control.len() == 0 {
        b.control.len() == 0 && a.cells == b.cells
    } else {
        &&& control_valid(a.ops, a.control)
        &&& same_place(place, a.control, b.control)
        &&& visible_cells(a) == visible_cells(b)
        &&& a.reach.contains(a.mem_index as int)
    }
}

/// [`same_but_for_move`] as a function.
pub open spec fn same_but_for_move_relation(place: Seq<int>) -> spec_fn(OptState, OptState) -> bool {
    |a: OptState, b: OptState| same_but_for_move(place, a, b)
}

/// The program without the move never steps alone.
pub open spec fn no_rank() -> spec_fn(OptState) -> nat {
    |a: OptState| 0nat
}

/// Whether the program with the move stands at the move.
pub open spec fn move_rank(place: Seq<int>) -> spec_fn(OptState) -> nat {
    |b: OptState|
        if b.control == place {
            1nat
        } else {
            0nat
        }
}

/// Where the program with the move stands at the move, it alone does a
/// step, which changes nothing that the program can see.
proof fn lemma_step_at_move(place: Seq<int>, a: OptState, b: OptState)
    requires
        same_but_for_move(place, a, b),
        a.control == place,
        b.control == place,
    ensures
        step_matches(
            opt_steps(),
            opt_steps(),
            same_but_for_move_relation(place),
            no_rank(),
            move_rank(place),
            a,
            b,
        ),
{
    lemma_block_with_move_zero(a.ops, place, a.control, b.control);
    let depth = place.len() - 1;
    lemma_control_last_in_block(a.ops, place);
    let (b1, y) = opt_next(b, None);
    let moved = block_at(b.ops, b.control);
    assert(place.take(depth) =~= a.control.take(depth));
    assert(moved[place.last()] == Instr::Move(0));
    assert(y == Step::More);
    assert(b1.control =~= shifted(place, a.control));
    assert(b1.control != place);
    assert(visible_cells(b1) =~= visible_cells(b));
    assert(same_but_for_move(place, a, b1));
    assert(holds(same_but_for_move_relation(place), a, b1));
    assert(move_rank(place)(b1) < move_rank(place)(b));
}

/// Where both programs stand at the same operation, or both at the end of
/// the same sequence, both do the same step.
proof fn lemma_step_at_same_operation(place: Seq<int>, a: OptState, b: OptState)
    requires
        same_but_for_move(place, a, b),
        a.control.len() > 0,
        b.control == shifted(place, a.control),
    ensures
        step_matches(
            opt_steps(),
            opt_steps(),
            same_but_for_move_relation(place),
            no_rank(),
            move_rank(place),
            a,
            b,
        ),
{
    let control = a.control;
    let other = b.control;
    lemma_block_with_move_zero(a.ops, place, control, other);
    lemma_control_last_in_block(a.ops, control);
    lemma_control_last_in_block(a.ops, place);
    let block = block_at(a.ops, control);
    let moved = block_at(b.ops, other);
    let k = control.last();
    let k2 = other.last();
    assert((k >= block.len()) == (k2 >= moved.len()));
    let (a1, x) = opt_next(a, None);
    let (b1, y) = opt_next(b, None);
    if k >= block.len() {
        if control.len() == 1 {
            assert(x == Step::Done && y == Step::Done);
        } else {
            assert(x == Step::More && y == Step::More);
            if a.cur_pos_value != 0 {
                lemma_control_replace_last(a.ops, control, 0int);
                lemma_same_place_restarted(place, control, other);
            } else {
                lemma_control_leave(a.ops, control);
                let outer = control.drop_last();
                lemma_control_replace_last(a.ops, outer, outer.last() + 1);
                lemma_same_place_left(place, control, other);
            }
            lemma_visible_cells_with(a, b, a1, b1);
            assert(same_but_for_move(place, a1, b1));
            assert(holds(same_but_for_move_relation(place), a1, b1));
        }
    } else {
        assert(same_kind(block[k], moved[k2]));
        lemma_control_replace_last(a.ops, control, k + 1);
        lemma_same_place_advanced(place, control);
        match block[k] {
            Instr::Loop(body) => {
                assert(x == Step::More && y == Step::More);
                if a.cur_pos_value != 0 {
                    lemma_control_enter(a.ops, control, body);
                    lemma_same_place_entered(place, control);
                }
                lemma_visible_cells_with(a, b, a1, b1);
                assert(same_but_for_move(place, a1, b1));
                assert(holds(same_but_for_move_relation(place), a1, b1));
            },
            Instr::Move(delta) => {
                assert(x == y);
                if x == Step::More {
                    assert(a1.cells == visible_cells(a));
                    assert(b1.cells == visible_cells(b));
                    assert(visible_cells(a1) =~= visible_cells(b1));
                    assert(tape_is_total(a1.cells));
                    assert(tape_is_total(b1.cells));
                    assert(same_but_for_move(place, a1, b1));
                    assert(holds(same_but_for_move_relation(place), a1, b1));
                }
            },
            Instr::GetInput => {
                assert(x == Step::Input && y == Step::Input);
                assert forall|read: u8| #[trigger]
                    holds(
                        same_but_for_move_relation(place),
                        fed(opt_steps(), a1, read),
                        fed(opt_steps(), b1, read),
                    ) by {
                    let a2 = opt_next(a, Some(read)).0;
                    let b2 = opt_next(b, Some(read)).0;
                    lemma_visible_cells_with(a, b, a2, b2);
                    assert(same_but_for_move(place, a2, b2));
                }
            },
            _ => {
                assert(x == y);
                lemma_visible_cells_with(a, b, a1, b1);
                assert(same_but_for_move(place, a1, b1));
                assert(holds(same_but_for_move_relation(place), a1, b1));
            },
        }
    }
}

/// Two programs that are the same but for a move by 0 go on as such.
pub proof fn lemma_same_but_for_move_is_kept(place: Seq<int>)
    ensures
        is_simulation(
            opt_steps(),
            opt_steps(),
            same_but_for_move_relation(place),
            no_rank(),
            move_rank(place),
        ),
{
    assert forall|a: OptState, b: OptState| #[trigger]
        holds(same_but_for_move_relation(place), a, b) implies step_matches(
        opt_steps(),
        opt_steps(),
        same_but_for_move_relation(place),
        no_rank(),
        move_rank(place),
        a,
        b,
    ) by {
        assert(same_but_for_move(place, a, b));
        if a.control.len() == 0 {
            let (a1, x) = opt_next(a, None);
            let (b1, y) = opt_next(b, None);
            assert(x == y);
            if x == Step::More {
                let first = seq![0int];
                assert(a1.control =~= first);
                assert(b1.control =~= first);
                if first == place {
                } else {
                    if on_insertion_level(place, first) {
                        assert(place.len() == 1);
                        assert(place.last() != 0) by {
                            if place.last() == 0 {
                                assert(place =~= first);
                            }
                        }
                    }
                    assert(shifted(place, first) == first);
                }
                assert(visible_cells(a1) =~= visible_cells(b1));
                assert(same_but_for_move(place, a1, b1));
                assert(holds(same_but_for_move_relation(place), a1, b1));
            }
        } else if b.control == shifted(place, a.control) {
            lemma_step_at_same_operation(place, a, b);
        } else {
            lemma_step_at_move(place, a, b);
        }
    }
}

/// From two states that are the same but for a move by 0 in the program of
/// the second, the two programs go on alike: whatever the first writes,
/// reads and ends with in `fuel` steps, the second writes, reads and ends
/// with in as many steps as the result says, and where the first has
/// stopped, both have left the cursor on the same cell and the same tape.
pub proof fn lemma_run_with_move_zero_follows(
    place: Seq<int>,
    a: OptState,
    b: OptState,
    input: Seq<u8>,
    fuel: nat,
) -> (other: nat)
    requires
        same_but_for_move(place, a, b),
    ensures
        same_run(run_spec(opt_steps(), a, input, fuel), run_spec(opt_steps(), b, input, other)),
{
    lemma_same_but_for_move_is_kept(place);
    lemma_stops_with_same_tape(same_but_for_move_relation(place));
    assert(holds(same_but_for_move_relation(place), a, b));
    lemma_simulation(
        opt_steps(),
        opt_steps(),
        same_but_for_move_relation(place),
        no_rank(),
        move_rank(place),
        same_tape_relation(),
        a,
        b,
        input,
        fuel,
    )
}

/// The same the other way round: whatever the program with the move shows
/// and leaves in `fuel` steps, the program without it shows and leaves in as
/// many steps as the result says.
pub proof fn lemma_run_without_move_zero_follows(
    place: Seq<int>,
    a: OptState,
    b: OptState,
    input: Seq<u8>,
    fuel: nat,
) -> (other: nat)
    requires
        same_but_for_move(place, a, b),
    ensures
        same_run(run_spec(opt_steps(), b, input, fuel), run_spec(opt_steps(), a, input, other)),
{
    lemma_same_but_for_move_is_kept(place);
    lemma_stops_with_same_tape(same_but_for_move_relation(place));
    assert(holds(same_but_for_move_relation(place), a, b));
    lemma_simulation_back(
        opt_steps(),
        opt_steps(),
        same_but_for_move_relation(place),
        no_rank(),
        move_rank(place),
        same_tape_relation(),
        a,
        b,
        input,
        fuel,
    )
}

/// A move by 0, put in anywhere in a program, changes nothing that the
/// program shows or leaves: whatever the program writes, reads and ends with
/// in `fuel` steps, the program with the move writes, reads and ends with in
/// as many steps as the result says, and where the program has stopped, both
/// have left the cursor on the same cell and the same tape.
pub proof fn lemma_program_with_move_zero_follows(
    ops: Seq<Instr>,
    place: Seq<int>,
    reach: Set<int>,
    cells: Map<int, u8>,
    input: Seq<u8>,
    fuel: nat,
) -> (other: nat)
    requires
        place.len() > 0,
        control_valid(ops, place),
        tape_is_total(cells),
    ensures
        same_run(
            run_spec(opt_steps(), tree_start(ops, reach, cells), input, fuel),
            run_spec(
                opt_steps(),
                tree_start(with_move_zero(ops, place), reach, cells),
                input,
                other,
            ),
        ),
{
    let a = tree_start(ops, reach, cells);
    let b = tree_start(with_move_zero(ops, place), reach, cells);
    assert(same_but_for_move(place, a, b));
    lemma_run_with_move_zero_follows(place, a, b, input, fuel)
}

/// The same the other way round: whatever the program with the move shows
/// and leaves in `fuel` steps, the program without it shows and leaves in as
/// many steps as the result says.
pub proof fn lemma_program_without_move_zero_follows(
    ops: Seq<Instr>,
    place: Seq<int>,
    reach: Set<int>,
    cells: Map<int, u8>,
    input: Seq<u8>,
    fuel: nat,
) -> (other: nat)
    requires
        place.len() > 0,
        control_valid(ops, place),
        tape_is_total(cells),
    ensures
        same_run(
            run_spec(
                opt_steps(),
                tree_start(with_move_zero(ops, place), reach, cells),
                input,
                fuel,
            ),
            run_spec(opt_steps(), tree_start(ops, reach, cells), input, other),
        ),
{
    let a = tree_start(ops, reach, cells);
    let b = tree_start(with_move_zero(ops, place), reach, cells);
    assert(same_but_for_move(place, a, b));
    lemma_run_without_move_zero_follows(place, a, b, input, fuel)
}

} // verus!
