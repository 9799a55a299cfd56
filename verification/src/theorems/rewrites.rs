//! Rewrites of a program in one place, and what they keep: where a few
//! operations that stand side by side in some sequence of a program, the
//! program's own or the body of a loop, are replaced by others that do the
//! same, the program shows the same as before.

use vstd::prelude::*;
use crate::executors::{RunModel, Step, run_spec};
use crate::executors::operations::{Instr, append_instr};
use crate::executors::bf_opt_interpreter::{
    OptState, advanced, block_at, control_valid, lemma_control_enter, lemma_control_last_in_block,
    lemma_control_leave, lemma_control_replace_last, lemma_stop_keeps_tape, opt_next, opt_steps,
    same_tape, same_tape_relation, visible_cells,
};
use crate::theorems::equivalence::{all_cells_reachable, tape_is_total, tree_start};
use crate::theorems::neutral_move::{on_insertion_level, same_kind};
use crate::theorems::simulation::{
    ends_in, fed, holds, is_simulation, lemma_simulation, lemma_simulation_back,
    same_observation, step_matches, stops,
};

verus! {

/// The program with, in the sequence that `place` leads into, the `removed`
/// operations from the last index of `place` on replaced by `added`. All
/// indices of `place` but the last lead through loops, each in the body of
/// the one before.
pub open spec fn spliced(ops: Seq<Instr>, place: Seq<int>, removed: nat, added: Seq<Instr>) -> Seq<Instr>
    decreases place.len(),
{
    if place.len() == 0 {
        ops
    } else if place.len() == 1 {
        if 0 <= place[0] && place[0] + removed <= ops.len() {
            ops.take(place[0]) + added + ops.skip(place[0] + removed)
        } else {
            ops
        }
    } else if 0 <= place[0] < ops.len() {
        match ops[place[0]] {
            Instr::Loop(body) => ops.update(
                place[0],
                Instr::Loop(spliced(body, place.drop_first(), removed, added)),
            ),
            _ => ops,
        }
    } else {
        ops
    }
}

/// Whether the place `control` lies among the operations that are replaced,
/// behind the first of them, or in a loop among them.
pub open spec fn in_region(place: Seq<int>, removed: nat, control: Seq<int>) -> bool {
    let depth = place.len() - 1;
    &&& on_insertion_level(place, control)
    &&& place.last() <= control[depth] < place.last() + removed
    &&& !(control.len() == place.len() && control[depth] == place.last())
}

/// Where a place of the program that lies outside the replaced operations
/// is found in the rewritten program: behind them, the index in their
/// sequence moves by as much as the sequence grows.
pub open spec fn moved_place(place: Seq<int>, removed: nat, added: nat, control: Seq<int>) -> Seq<int> {
    let depth = place.len() - 1;
    if on_insertion_level(place, control) && control[depth] >= place.last() + removed {
        control.update(depth, control[depth] - removed + added)
    } else {
        control
    }
}

/// Whether `place` leads to `removed` operations of the program.
pub open spec fn region_valid(ops: Seq<Instr>, place: Seq<int>, removed: nat) -> bool {
    &&& place.len() > 0
    &&& removed > 0
    &&& control_valid(ops, place)
    &&& place.last() + removed <= block_at(ops, place).len()
}

/// A place outside the replaced operations points, in the rewritten program,
/// into the same sequence: into the sequence with the operations replaced,
/// where it lies in their sequence; else into a sequence of as many
/// operations of the same kinds, at the same index.
pub proof fn lemma_block_spliced(
    ops: Seq<Instr>,
    place: Seq<int>,
    removed: nat,
    added: Seq<Instr>,
    control: Seq<int>,
)
    requires
        region_valid(ops, place, removed),
        control_valid(ops, control),
        control.len() > 0,
        !in_region(place, removed, control),
    ensures
        ({
            let other = moved_place(place, removed, added.len(), control);
            let block = block_at(ops, control);
            let moved = block_at(spliced(ops, place, removed, added), other);
            &&& other.len() == control.len()
            &&& if on_insertion_level(place, control) && control.len() == place.len() {
                &&& block == block_at(ops, place)
                &&& moved == block.take(place.last()) + added + block.skip(place.last() + removed)
            } else {
                &&& other.last() == control.last()
                &&& moved.len() == block.len()
                &&& forall|i: int| 0 <= i < block.len() ==> same_kind(block[i], #[trigger] moved[i])
            }
        }),
    decreases control.len(),
{
    let changed = spliced(ops, place, removed, added);
    let other = moved_place(place, removed, added.len(), control);
    lemma_control_last_in_block(ops, place);
    if control.len() == 1 {
        if place.len() == 1 {
            assert(control.take(0) =~= place.take(0));
        } else {
            assert(other == control);
            match ops[place[0]] {
                Instr::Loop(body) => {},
                _ => {},
            }
        }
    } else {
        match ops[control[0]] {
            Instr::Loop(body) => {
                let inner = control.drop_first();
                if place.len() == 1 {
                    assert(control.take(0) =~= place.take(0));
                    assert(on_insertion_level(place, control));
                    assert(changed[other[0]] == ops[control[0]]);
                    assert(other.drop_first() =~= inner);
                } else if control[0] == place[0] {
                    let rest = place.drop_first();
                    assert(rest.last() == place.last());
                    if control.len() >= place.len() {
                        let width = place.len() - 1;
                        assert(inner.take(width - 1) =~= control.take(width).drop_first());
                        assert(rest.take(width - 1) =~= place.take(width).drop_first());
                        assert(control.take(width) =~= seq![control[0]] + inner.take(width - 1));
                        assert(place.take(width) =~= seq![place[0]] + rest.take(width - 1));
                        if on_insertion_level(rest, inner) {
                            assert(on_insertion_level(place, control));
                        }
                        assert(on_insertion_level(place, control) == on_insertion_level(rest, inner));
                        assert(inner[width - 1] == control[width]);
                    } else {
                        assert(!on_insertion_level(place, control));
                        assert(!on_insertion_level(rest, inner));
                    }
                    assert(other.drop_first() =~= moved_place(rest, removed, added.len(), inner));
                    assert(other[0] == control[0]);
                    assert(block_at(ops, place) == block_at(body, rest));
                    lemma_block_spliced(body, rest, removed, added, inner);
                } else {
                    if control.len() >= place.len() {
                        let width = place.len() - 1;
                        assert(control.take(width)[0] != place.take(width)[0]);
                    }
                    assert(!on_insertion_level(place, control));
                    assert(other == control);
                    match ops[place[0]] {
                        Instr::Loop(_) => {},
                        _ => {},
                    }
                    assert(changed[control[0]] == ops[control[0]]);
                }
            },
            _ => {},
        }
    }
}

/// Behind an operation outside the replaced ones the place is again
/// outside them, and is found in the rewritten program behind the same
/// operation.
pub proof fn lemma_moved_place_advanced(place: Seq<int>, removed: nat, added: nat, control: Seq<int>)
    requires
        place.len() > 0,
        removed > 0,
        control.len() > 0,
        !in_region(place, removed, control),
        control != place,
    ensures
        !in_region(place, removed, advanced(control)),
        moved_place(place, removed, added, advanced(control)) == advanced(
            moved_place(place, removed, added, control),
        ),
{
    let depth = place.len() - 1;
    let next = advanced(control);
    let other = moved_place(place, removed, added, control);
    if control.len() > depth {
        assert(next.take(depth) =~= control.take(depth));
        if on_insertion_level(place, control) {
            if control.len() - 1 == depth {
                if control[depth] == place.last() {
                    assert(control =~= place) by {
                        assert forall|i: int| 0 <= i < place.len() implies control[i] == place[i] by {
                            if i < depth {
                                assert(control.take(depth)[i] == place.take(depth)[i]);
                            }
                        }
                    }
                }
            }
            assert(advanced(other) =~= moved_place(place, removed, added, next));
        } else {
            assert(!on_insertion_level(place, next));
        }
    }
}

/// At the start of a loop body outside the replaced operations the place is
/// again outside them, and is found in the rewritten program at the start of
/// the same body.
pub proof fn lemma_moved_place_restarted(place: Seq<int>, removed: nat, added: nat, control: Seq<int>)
    requires
        place.len() > 0,
        place.last() >= 0,
        removed > 0,
        control.len() > 0,
        !in_region(place, removed, control),
    ensures
        !in_region(place, removed, control.drop_last().push(0int)),
        moved_place(place, removed, added, control.drop_last().push(0int)) == moved_place(
            place,
            removed,
            added,
            control,
        ).drop_last().push(0int),
{
    let depth = place.len() - 1;
    let next = control.drop_last().push(0int);
    let other = moved_place(place, removed, added, control);
    if control.len() > depth {
        assert(next.take(depth) =~= control.take(depth));
        if on_insertion_level(place, control) {
            assert(other.drop_last().push(0int) =~= moved_place(place, removed, added, next));
        } else {
            assert(!on_insertion_level(place, next));
        }
    }
}

/// In a loop outside the replaced operations the place is again outside
/// them, and is found in the rewritten program in the same loop.
pub proof fn lemma_moved_place_entered(place: Seq<int>, removed: nat, added: nat, control: Seq<int>)
    requires
        place.len() > 0,
        place.last() >= 0,
        removed > 0,
        control.len() > 0,
        !in_region(place, removed, control),
        control != place,
    ensures
        !in_region(place, removed, control.push(0int)),
        moved_place(place, removed, added, control.push(0int)) == moved_place(
            place,
            removed,
            added,
            control,
        ).push(0int),
{
    let depth = place.len() - 1;
    let next = control.push(0int);
    let other = moved_place(place, removed, added, control);
    if control.len() > depth {
        assert(next.take(depth) =~= control.take(depth));
        if on_insertion_level(place, control) {
            if control.len() - 1 == depth && control[depth] == place.last() {
                assert(control =~= place) by {
                    assert forall|i: int| 0 <= i < place.len() implies control[i] == place[i] by {
                        if i < depth {
                            assert(control.take(depth)[i] == place.take(depth)[i]);
                        }
                    }
                }
            }
            assert(other.push(0int) =~= moved_place(place, removed, added, next));
        } else {
            assert(!on_insertion_level(place, next));
        }
    } else if control.len() == depth {
        assert(next.take(depth) =~= control);
        assert(other.push(0int) =~= moved_place(place, removed, added, next));
    } else {
        assert(!on_insertion_level(place, next));
    }
}

/// Behind a loop outside the replaced operations the place is again outside
/// them, and is found in the rewritten program behind the same loop.
pub proof fn lemma_moved_place_left(place: Seq<int>, removed: nat, added: nat, control: Seq<int>)
    requires
        place.len() > 0,
        removed > 0,
        control.len() > 1,
        !in_region(place, removed, control),
    ensures
        !in_region(place, removed, advanced(control.drop_last())),
        moved_place(place, removed, added, advanced(control.drop_last())) == advanced(
            moved_place(place, removed, added, control).drop_last(),
        ),
{
    let depth = place.len() - 1;
    let outer = control.drop_last();
    let other = moved_place(place, removed, added, control);
    if control.len() - 1 == depth {
        assert(other.drop_last() =~= outer);
        assert(!on_insertion_level(place, advanced(outer)));
    } else if control.len() > depth {
        assert(outer.take(depth) =~= control.take(depth));
        assert(advanced(outer).take(depth) =~= control.take(depth));
        if on_insertion_level(place, control) {
            assert(advanced(other.drop_last()) =~= moved_place(place, removed, added, advanced(outer)));
        } else {
            assert(!on_insertion_level(place, advanced(outer)));
            assert(!on_insertion_level(place, outer));
        }
    } else {
        assert(!on_insertion_level(place, advanced(outer)));
    }
}

/// Whether `b` runs the program of `a` with the operations at `place`
/// replaced, on such tapes.
pub open spec fn runs_rewritten(
    place: Seq<int>,
    removed: nat,
    added: Seq<Instr>,
    a: OptState,
    b: OptState,
) -> bool {
    &&& region_valid(a.ops, place, removed)
    &&& b.ops == spliced(a.ops, place, removed, added)
    &&& a.reach == b.reach
    &&& all_cells_reachable(a.reach)
    &&& tape_is_total(a.cells)
    &&& tape_is_total(b.cells)
}

/// Whether two states are the same but for the rewrite, with the first
/// outside the replaced operations: before its first step, or at a place
/// that is found at the moved place in the rewritten program.
pub open spec fn outside_related(
    place: Seq<int>,
    removed: nat,
    added: Seq<Instr>,
    a: OptState,
    b: OptState,
) -> bool {
    &&& runs_rewritten(place, removed, added, a, b)
    &&& a.mem_index == b.mem_index
    &&& a.cur_pos_value == b.cur_pos_value
    &&& if a.control.len() == 0 {
        b.control.len() == 0 && a.cells == b.cells
    } else {
        &&& control_valid(a.ops, a.control)
        &&& !in_region(place, removed, a.control)
        &&& b.control == moved_place(place, removed, added.len(), a.control)
        &&& visible_cells(a) == visible_cells(b)
    }
}

/// Tapes that are the same with one value in the current cell are the same
/// with any value there.
pub proof fn lemma_visible_cells_with(a: OptState, b: OptState, a1: OptState, b1: OptState)
    requires
        visible_cells(a) == visible_cells(b),
        a.mem_index == b.mem_index,
        a1.mem_index == a.mem_index,
        b1.mem_index == a.mem_index,
        a1.cells == a.cells,
        b1.cells == b.cells,
        a1.cur_pos_value == b1.cur_pos_value,
    ensures
        visible_cells(a1) == visible_cells(b1),
{
    let index = a.mem_index as int;
    assert(visible_cells(a).dom() =~= a.cells.dom().insert(index));
    assert(visible_cells(b).dom() =~= b.cells.dom().insert(index));
    assert(visible_cells(a1).dom() =~= a.cells.dom().insert(index));
    assert(visible_cells(b1).dom() =~= b.cells.dom().insert(index));
    assert forall|other: int| #[trigger]
        visible_cells(a1).dom().contains(other) implies visible_cells(a1)[other] == visible_cells(
        b1,
    )[other] by {
        if other != index {
            assert(visible_cells(a)[other] == a.cells[other]);
            assert(visible_cells(b)[other] == b.cells[other]);
        }
    }
    assert(visible_cells(a1) =~= visible_cells(b1));
}

/// Whether both machines do a step that reports the same and leaves the
/// first outside the replaced operations again.
pub open spec fn both_step_outside(
    place: Seq<int>,
    removed: nat,
    added: Seq<Instr>,
    a: OptState,
    b: OptState,
) -> bool {
    let (a1, x) = opt_next(a, None);
    let (b1, y) = opt_next(b, None);
    x == y && match x {
        Step::More => outside_related(place, removed, added, a1, b1),
        Step::Output(_) => outside_related(place, removed, added, a1, b1),
        Step::Input => forall|byte: u8|
            outside_related(
                place,
                removed,
                added,
                #[trigger] fed(opt_steps(), a1, byte),
                fed(opt_steps(), b1, byte),
            ),
        _ => true,
    }
}

/// Before their first steps both programs do the same step.
pub proof fn lemma_first_step_outside(
    place: Seq<int>,
    removed: nat,
    added: Seq<Instr>,
    a: OptState,
    b: OptState,
)
    requires
        outside_related(place, removed, added, a, b),
        a.control.len() == 0,
    ensures
        both_step_outside(place, removed, added, a, b),
{
    let (a1, x) = opt_next(a, None);
    let (b1, y) = opt_next(b, None);
    let first = seq![0int];
    lemma_control_last_in_block(a.ops, place);
    assert(a1.control =~= first);
    assert(b1.control =~= first);
    if on_insertion_level(place, first) {
        assert(place.len() == 1);
    }
    assert(moved_place(place, removed, added.len(), first) == first);
    assert(visible_cells(a1) =~= visible_cells(b1));
    assert(outside_related(place, removed, added, a1, b1));
}

/// At a place outside the replaced operations, and not before the first of
/// them, both programs do the same step, and the place is then outside the
/// replaced operations again.
pub proof fn lemma_step_outside(
    place: Seq<int>,
    removed: nat,
    added: Seq<Instr>,
    a: OptState,
    b: OptState,
)
    requires
        outside_related(place, removed, added, a, b),
        a.control.len() > 0,
        a.control != place,
    ensures
        both_step_outside(place, removed, added, a, b),
{
    let control = a.control;
    let other = b.control;
    let width = added.len();
    lemma_block_spliced(a.ops, place, removed, added, control);
    lemma_control_last_in_block(a.ops, control);
    lemma_control_last_in_block(a.ops, place);
    let block = block_at(a.ops, control);
    let moved = block_at(b.ops, other);
    let k = control.last();
    let k2 = other.last();
    let depth = place.len() - 1;
    if on_insertion_level(place, control) && control.len() == place.len() {
        if k == place.last() {
            assert(control =~= place) by {
                assert forall|i: int| 0 <= i < place.len() implies control[i] == place[i] by {
                    if i < depth {
                        assert(control.take(depth)[i] == place.take(depth)[i]);
                    }
                }
            }
        }
        if k < block.len() {
            assert(moved[k2] == block[k]);
        }
    }
    assert((k >= block.len()) == (k2 >= moved.len()));
    let (a1, x) = opt_next(a, None);
    let (b1, y) = opt_next(b, None);
    if k >= block.len() {
        if control.len() == 1 {
            assert(x == Step::Done && y == Step::Done);
        } else {
            assert(x == Step::More && y == Step::More);
            if a.cur_pos_value != 0 {
                lemma_control_replace_last(a.ops, control, 0);
                lemma_moved_place_restarted(place, removed, width, control);
            } else {
                lemma_control_leave(a.ops, control);
                let outer = control.drop_last();
                lemma_control_replace_last(a.ops, outer, outer.last() + 1);
                lemma_moved_place_left(place, removed, width, control);
            }
            lemma_visible_cells_with(a, b, a1, b1);
            assert(outside_related(place, removed, added, a1, b1));
        }
    } else {
        assert(same_kind(block[k], moved[k2]));
        lemma_control_replace_last(a.ops, control, k + 1);
        lemma_moved_place_advanced(place, removed, width, control);
        match block[k] {
            Instr::Loop(body) => {
                assert(x == Step::More && y == Step::More);
                if a.cur_pos_value != 0 {
                    lemma_control_enter(a.ops, control, body);
                    lemma_moved_place_entered(place, removed, width, control);
                }
                lemma_visible_cells_with(a, b, a1, b1);
                assert(outside_related(place, removed, added, a1, b1));
            },
            Instr::Move(delta) => {
                assert(x == Step::More && y == Step::More);
                assert(a1.cells == visible_cells(a));
                assert(b1.cells == visible_cells(b));
                assert(visible_cells(a1) =~= visible_cells(b1));
                assert(tape_is_total(a1.cells));
                assert(tape_is_total(b1.cells));
                assert(outside_related(place, removed, added, a1, b1));
            },
            Instr::GetInput => {
                assert(x == Step::Input && y == Step::Input);
                assert forall|read: u8|
                    outside_related(
                        place,
                        removed,
                        added,
                        #[trigger] fed(opt_steps(), a1, read),
                        fed(opt_steps(), b1, read),
                    ) by {
                    let a2 = opt_next(a, Some(read)).0;
                    let b2 = opt_next(b, Some(read)).0;
                    lemma_visible_cells_with(a, b, a2, b2);
                    assert(outside_related(place, removed, added, a2, b2));
                }
            },
            _ => {
                assert(x == y);
                lemma_visible_cells_with(a, b, a1, b1);
                assert(outside_related(place, removed, added, a1, b1));
            },
        }
    }
}

/// The run of the tree interpreter on the program `ops` from its start.
pub open spec fn tree_run(
    ops: Seq<Instr>,
    reach: Set<int>,
    cells: Map<int, u8>,
    input: Seq<u8>,
    fuel: nat,
) -> RunModel<OptState> {
    run_spec(opt_steps(), tree_start(ops, reach, cells), input, fuel)
}

/// Whether two runs show the same and, where the first has stopped, have
/// left the cursor on the same cell and the same tape.
pub open spec fn same_run(a: RunModel<OptState>, b: RunModel<OptState>) -> bool {
    &&& same_observation(a, b)
    &&& a.end != Step::More ==> same_tape(a.state, b.state)
}

/// Whether some run of the program `q` shows what the run of `p` of `fuel`
/// steps shows, and leaves the tape that it leaves.
pub open spec fn follows(
    p: Seq<Instr>,
    q: Seq<Instr>,
    reach: Set<int>,
    cells: Map<int, u8>,
    input: Seq<u8>,
    fuel: nat,
) -> bool {
    exists|other: nat|
        same_run(
            tree_run(p, reach, cells, input, fuel),
            #[trigger] tree_run(q, reach, cells, input, other),
        )
}

/// Whether two programs show the same: on every tape that holds a value for
/// every cell and can hand out every cell, on every input, whatever a run of
/// the one shows, some run of the other shows too, and a run that has
/// stopped has left the cursor and the tape as the other leaves them.
pub open spec fn shows_same(p: Seq<Instr>, q: Seq<Instr>) -> bool {
    &&& forall|reach: Set<int>, cells: Map<int, u8>, input: Seq<u8>, fuel: nat|
        all_cells_reachable(reach) && tape_is_total(cells) ==> #[trigger] follows(
            p,
            q,
            reach,
            cells,
            input,
            fuel,
        )
    &&& forall|reach: Set<int>, cells: Map<int, u8>, input: Seq<u8>, fuel: nat|
        all_cells_reachable(reach) && tape_is_total(cells) ==> #[trigger] follows(
            q,
            p,
            reach,
            cells,
            input,
            fuel,
        )
}

/// A program shows the same as itself.
pub proof fn lemma_shows_same_reflexive(p: Seq<Instr>)
    ensures
        shows_same(p, p),
{
    assert forall|reach: Set<int>, cells: Map<int, u8>, input: Seq<u8>, fuel: nat| #[trigger]
        follows(p, p, reach, cells, input, fuel) by {
        assert(same_run(
            tree_run(p, reach, cells, input, fuel),
            tree_run(p, reach, cells, input, fuel),
        ));
    }
}

/// Where the first of three programs shows the same as the second, and the
/// second the same as the third, the first shows the same as the third.
pub proof fn lemma_shows_same_transitive(p: Seq<Instr>, q: Seq<Instr>, r: Seq<Instr>)
    requires
        shows_same(p, q),
        shows_same(q, r),
    ensures
        shows_same(p, r),
{
    assert forall|reach: Set<int>, cells: Map<int, u8>, input: Seq<u8>, fuel: nat|
        all_cells_reachable(reach) && tape_is_total(cells) implies #[trigger] follows(
        p,
        r,
        reach,
        cells,
        input,
        fuel,
    ) by {
        assert(follows(p, q, reach, cells, input, fuel));
        let middle = choose|other: nat|
            same_run(
                tree_run(p, reach, cells, input, fuel),
                #[trigger] tree_run(q, reach, cells, input, other),
            );
        assert(follows(q, r, reach, cells, input, middle));
        let last = choose|other: nat|
            same_run(
                tree_run(q, reach, cells, input, middle),
                #[trigger] tree_run(r, reach, cells, input, other),
            );
        assert(same_run(
            tree_run(p, reach, cells, input, fuel),
            tree_run(r, reach, cells, input, last),
        ));
    }
    assert forall|reach: Set<int>, cells: Map<int, u8>, input: Seq<u8>, fuel: nat|
        all_cells_reachable(reach) && tape_is_total(cells) implies #[trigger] follows(
        r,
        p,
        reach,
        cells,
        input,
        fuel,
    ) by {
        assert(follows(r, q, reach, cells, input, fuel));
        let middle = choose|other: nat|
            same_run(
                tree_run(r, reach, cells, input, fuel),
                #[trigger] tree_run(q, reach, cells, input, other),
            );
        assert(follows(q, p, reach, cells, input, middle));
        let last = choose|other: nat|
            same_run(
                tree_run(q, reach, cells, input, middle),
                #[trigger] tree_run(p, reach, cells, input, other),
            );
        assert(same_run(
            tree_run(r, reach, cells, input, fuel),
            tree_run(p, reach, cells, input, last),
        ));
    }
}

/// Where related states that stop alike have the same tape, the states
/// that the stopping steps lead to have it too.
pub proof fn lemma_stops_with_same_tape(related: spec_fn(OptState, OptState) -> bool)
    requires
        forall|a: OptState, b: OptState| #[trigger]
            holds(related, a, b) && stops(opt_next(a, None).1) && opt_next(a, None).1 == opt_next(
                b,
                None,
            ).1 ==> same_tape(a, b),
    ensures
        ends_in(opt_steps(), opt_steps(), related, same_tape_relation()),
{
    let ended = same_tape_relation();
    assert forall|a: OptState, b: OptState| #[trigger]
        holds(related, a, b) && stops(opt_steps()(a, None).1) && opt_steps()(a, None).1
            == opt_steps()(b, None).1 implies holds(
        ended,
        opt_steps()(a, None).0,
        opt_steps()(b, None).0,
    ) by {
        assert(opt_steps()(a, None) == opt_next(a, None));
        assert(opt_steps()(b, None) == opt_next(b, None));
        lemma_stop_keeps_tape(a);
        lemma_stop_keeps_tape(b);
    }
}

/// Two programs whose runs stay related from their starts show the same.
pub proof fn lemma_related_programs_show_same(
    p: Seq<Instr>,
    q: Seq<Instr>,
    related: spec_fn(OptState, OptState) -> bool,
    rank_a: spec_fn(OptState) -> nat,
    rank_b: spec_fn(OptState) -> nat,
)
    requires
        is_simulation(opt_steps(), opt_steps(), related, rank_a, rank_b),
        forall|a: OptState, b: OptState| #[trigger]
            holds(related, a, b) && stops(opt_next(a, None).1) && opt_next(a, None).1 == opt_next(
                b,
                None,
            ).1 ==> same_tape(a, b),
        forall|reach: Set<int>, cells: Map<int, u8>|
            all_cells_reachable(reach) && tape_is_total(cells) ==> #[trigger] holds(
                related,
                tree_start(p, reach, cells),
                tree_start(q, reach, cells),
            ),
    ensures
        shows_same(p, q),
{
    let ended = same_tape_relation();
    lemma_stops_with_same_tape(related);
    assert forall|reach: Set<int>, cells: Map<int, u8>, input: Seq<u8>, fuel: nat|
        all_cells_reachable(reach) && tape_is_total(cells) implies #[trigger] follows(
        p,
        q,
        reach,
        cells,
        input,
        fuel,
    ) by {
        let a = tree_start(p, reach, cells);
        let b = tree_start(q, reach, cells);
        assert(holds(related, a, b));
        let other = lemma_simulation(
            opt_steps(),
            opt_steps(),
            related,
            rank_a,
            rank_b,
            ended,
            a,
            b,
            input,
            fuel,
        );
        assert(same_run(
            tree_run(p, reach, cells, input, fuel),
            tree_run(q, reach, cells, input, other),
        ));
    }
    assert forall|reach: Set<int>, cells: Map<int, u8>, input: Seq<u8>, fuel: nat|
        all_cells_reachable(reach) && tape_is_total(cells) implies #[trigger] follows(
        q,
        p,
        reach,
        cells,
        input,
        fuel,
    ) by {
        let a = tree_start(p, reach, cells);
        let b = tree_start(q, reach, cells);
        assert(holds(related, a, b));
        let other = lemma_simulation_back(
            opt_steps(),
            opt_steps(),
            related,
            rank_a,
            rank_b,
            ended,
            a,
            b,
            input,
            fuel,
        );
        assert(same_run(
            tree_run(q, reach, cells, input, fuel),
            tree_run(p, reach, cells, input, other),
        ));
    }
}

/// What two operations that stand side by side become where the second
/// fuses with the first.
pub open spec fn fused(first: Instr, second: Instr) -> Option<Instr> {
    let both = append_instr(seq![first], second);
    if both.len() == 1 {
        Some(both[0])
    } else {
        None
    }
}

/// Whether `place` leads to the operations `first` and `second`, which fuse
/// to `both`.
pub open spec fn fuse_site(
    ops: Seq<Instr>,
    place: Seq<int>,
    first: Instr,
    second: Instr,
    both: Instr,
) -> bool {
    &&& region_valid(ops, place, 2)
    &&& block_at(ops, place)[place.last()] == first
    &&& block_at(ops, place)[place.last() + 1] == second
    &&& fused(first, second) == Some(both)
}

/// Whether the tapes of two states with the cursor on the same cell are the
/// same but for that cell.
pub open spec fn same_off_cursor(a: OptState, b: OptState) -> bool {
    &&& a.mem_index == b.mem_index
    &&& a.cells.insert(a.mem_index as int, 0) == b.cells.insert(a.mem_index as int, 0)
}

/// Whether `a` is what `b` becomes by the operation `first`.
pub open spec fn done_first(first: Instr, a: OptState, b: OptState) -> bool {
    match first {
        Instr::Mod(value) => {
            &&& same_off_cursor(a, b)
            &&& a.cur_pos_value == b.cur_pos_value.wrapping_add_signed(value)
        },
        Instr::SetValue(value) => {
            &&& same_off_cursor(a, b)
            &&& a.cur_pos_value == value
        },
        Instr::Move(delta) => {
            &&& a.mem_index == b.mem_index.wrapping_add(delta)
            &&& a.cells == visible_cells(b)
            &&& a.cur_pos_value == a.cells[a.mem_index as int]
        },
        _ => false,
    }
}

/// Whether two states are the same but for the fusion of two operations at
/// `place`: the first outside the two, or between them with the first of
/// them done while the second stands before the fused operation.
pub open spec fn fuse_related(
    place: Seq<int>,
    first: Instr,
    second: Instr,
    both: Instr,
    a: OptState,
    b: OptState,
) -> bool {
    &&& fuse_site(a.ops, place, first, second, both)
    &&& {
        ||| outside_related(place, 2, seq![both], a, b)
        ||| {
            &&& runs_rewritten(place, 2, seq![both], a, b)
            &&& a.control == advanced(place)
            &&& b.control == place
            &&& done_first(first, a, b)
        }
    }
}

/// [`fuse_related`] as a function.
pub open spec fn fuse_relation(place: Seq<int>, first: Instr, second: Instr, both: Instr) -> spec_fn(
    OptState,
    OptState,
) -> bool {
    |a: OptState, b: OptState| fuse_related(place, first, second, both, a, b)
}

/// Whether the machine stands at `place`.
pub open spec fn at_place_rank(place: Seq<int>) -> spec_fn(OptState) -> nat {
    |a: OptState|
        if a.control == place {
            1nat
        } else {
            0nat
        }
}

/// A machine that never steps alone.
pub open spec fn never_alone() -> spec_fn(OptState) -> nat {
    |a: OptState| 0nat
}

/// Tapes that are the same off the cursor are the same with the same value
/// held.
pub proof fn lemma_same_off_cursor(a: OptState, b: OptState)
    requires
        a.mem_index == b.mem_index,
        tape_is_total(a.cells),
        tape_is_total(b.cells),
    ensures
        same_off_cursor(a, b) && a.cur_pos_value == b.cur_pos_value ==> visible_cells(a)
            == visible_cells(b),
        visible_cells(a) == visible_cells(b) ==> same_off_cursor(a, b),
{
    let index = a.mem_index as int;
    let za = a.cells.insert(index, 0);
    let zb = b.cells.insert(index, 0);
    if same_off_cursor(a, b) && a.cur_pos_value == b.cur_pos_value {
        assert forall|other: int| #[trigger]
            visible_cells(a).dom().contains(other) implies visible_cells(a)[other] == visible_cells(
            b,
        )[other] by {
            if other != index {
                assert(za[other] == a.cells[other]);
                assert(zb[other] == b.cells[other]);
            }
        }
        assert(visible_cells(a) =~= visible_cells(b));
    }
    if visible_cells(a) == visible_cells(b) {
        assert forall|other: int| #[trigger] za.dom().contains(other) implies za[other] == zb[other] by {
            if other != index {
                assert(visible_cells(a)[other] == a.cells[other]);
                assert(visible_cells(b)[other] == b.cells[other]);
            }
        }
        assert(za =~= zb);
    }
}

/// Two programs that are the same but for the fusion of two operations go on
/// as such.
#[verifier::rlimit(40)]
pub proof fn lemma_fuse_step(
    place: Seq<int>,
    first: Instr,
    second: Instr,
    both: Instr,
    a: OptState,
    b: OptState,
)
    requires
        fuse_related(place, first, second, both, a, b),
    ensures
        step_matches(
            opt_steps(),
            opt_steps(),
            fuse_relation(place, first, second, both),
            at_place_rank(place),
            never_alone(),
            a,
            b,
        ),
        stops(opt_next(a, None).1) ==> same_tape(a, b),
{
    let related = fuse_relation(place, first, second, both);
    let added = seq![both];
    let p = place.last();
    let site = block_at(a.ops, place);
    lemma_control_last_in_block(a.ops, place);
    assert forall|x: OptState, y: OptState|
        outside_related(place, 2, added, x, y) && fuse_site(x.ops, place, first, second, both)
            implies #[trigger] holds(related, x, y) by {}
    let (a1, x) = opt_next(a, None);
    let (b1, y) = opt_next(b, None);
    if outside_related(place, 2, added, a, b) {
        if a.control.len() == 0 {
            lemma_first_step_outside(place, 2, added, a, b);
            assert(fuse_site(a1.ops, place, first, second, both));
        } else if a.control != place {
            lemma_step_outside(place, 2, added, a, b);
            assert(fuse_site(a1.ops, place, first, second, both));
            if x == Step::Input {
                assert forall|read: u8| #[trigger]
                    holds(related, fed(opt_steps(), a1, read), fed(opt_steps(), b1, read)) by {
                    assert(outside_related(
                        place,
                        2,
                        added,
                        fed(opt_steps(), a1, read),
                        fed(opt_steps(), b1, read),
                    ));
                }
            }
        } else {
            // The first of the two operations is done by the first program alone.
            assert(site[p] == first);
            lemma_control_replace_last(a.ops, place, p + 1);
            lemma_same_off_cursor(a, b);
            match first {
                Instr::Mod(_) => {
                    lemma_same_off_cursor(a1, b);
                },
                Instr::SetValue(_) => {
                    lemma_same_off_cursor(a1, b);
                },
                Instr::Move(delta) => {
                    assert(a1.cells == visible_cells(a));
                },
                _ => {},
            }
            assert(x == Step::More);
            assert(done_first(first, a1, b));
            assert(fuse_related(place, first, second, both, a1, b));
            assert(holds(related, a1, b));
            assert(at_place_rank(place)(a1) < at_place_rank(place)(a));
        }
    } else {
        // The second is done while the second program does the fused one.
        lemma_block_spliced(a.ops, place, 2, added, place);
        let moved = block_at(b.ops, place);
        assert(moved[p] == both);
        assert(site[p + 1] == second);
        assert(a.control.last() == p + 1);
        lemma_control_replace_last(a.ops, place, p + 1);
        lemma_control_replace_last(a.ops, place, p + 2);
        assert(block_at(a.ops, a.control) == site);
        assert(x == Step::More);
        assert(y == Step::More);
        let depth = place.len() - 1;
        assert(a1.control =~= place.update(depth, p + 2));
        assert(a1.control.take(depth) =~= place.take(depth));
        assert(b1.control =~= moved_place(place, 2, 1, a1.control));
        assert(a1.mem_index == b1.mem_index);
        assert(a1.cur_pos_value == b1.cur_pos_value);
        match first {
            Instr::Move(_) => {
                assert(a.cells.insert(a.mem_index as int, a.cur_pos_value) =~= a.cells);
                assert(visible_cells(a1) =~= visible_cells(b1));
            },
            _ => {
                lemma_same_off_cursor(a1, b1);
            },
        }
        assert(tape_is_total(a1.cells));
        assert(tape_is_total(b1.cells));
        assert(visible_cells(a1) == visible_cells(b1));
        assert(a1.control =~= place.drop_last().push(p + 2));
        assert(control_valid(a.ops, a1.control));
        assert(!in_region(place, 2, a1.control));
        assert(runs_rewritten(place, 2, added, a1, b1));
        assert(outside_related(place, 2, added, a1, b1));
        assert(holds(related, a1, b1));
    }
}

/// Two operations that fuse, replaced anywhere in a program by what they
/// fuse to, leave the program showing the same.
pub proof fn lemma_fusing_shows_same(
    ops: Seq<Instr>,
    place: Seq<int>,
    first: Instr,
    second: Instr,
    both: Instr,
)
    requires
        fuse_site(ops, place, first, second, both),
    ensures
        shows_same(ops, spliced(ops, place, 2, seq![both])),
{
    let related = fuse_relation(place, first, second, both);
    let rewritten = spliced(ops, place, 2, seq![both]);
    assert forall|a: OptState, b: OptState| #[trigger] holds(related, a, b) implies step_matches(
        opt_steps(),
        opt_steps(),
        related,
        at_place_rank(place),
        never_alone(),
        a,
        b,
    ) by {
        lemma_fuse_step(place, first, second, both, a, b);
    }
    assert forall|a: OptState, b: OptState| #[trigger]
        holds(related, a, b) && stops(opt_next(a, None).1) && opt_next(a, None).1 == opt_next(
            b,
            None,
        ).1 implies same_tape(a, b) by {
        lemma_fuse_step(place, first, second, both, a, b);
    }
    assert forall|reach: Set<int>, cells: Map<int, u8>|
        all_cells_reachable(reach) && tape_is_total(cells) implies #[trigger] holds(
        related,
        tree_start(ops, reach, cells),
        tree_start(rewritten, reach, cells),
    ) by {
        assert(outside_related(
            place,
            2,
            seq![both],
            tree_start(ops, reach, cells),
            tree_start(rewritten, reach, cells),
        ));
    }
    lemma_related_programs_show_same(ops, rewritten, related, at_place_rank(place), never_alone());
}

/// Whether `place` leads to a loop whose body is a single `Mod(1)` or
/// `Mod(-1)`.
pub open spec fn clear_site(ops: Seq<Instr>, place: Seq<int>, delta: i8) -> bool {
    &&& region_valid(ops, place, 1)
    &&& block_at(ops, place)[place.last()] == Instr::Loop(seq![Instr::Mod(delta)])
    &&& (delta == 1 || delta == -1)
}

/// Whether two states are the same but for a loop at `place` that clears the
/// cell and in the second program is an assignment of 0: the first outside
/// the loop, or in the loop while the second stands before the assignment.
pub open spec fn clear_related(place: Seq<int>, delta: i8, a: OptState, b: OptState) -> bool {
    &&& clear_site(a.ops, place, delta)
    &&& {
        ||| outside_related(place, 1, seq![Instr::SetValue(0)], a, b)
        ||| {
            &&& runs_rewritten(place, 1, seq![Instr::SetValue(0)], a, b)
            &&& b.control == place
            &&& same_off_cursor(a, b)
            &&& {
                ||| a.control == place.push(0int) && a.cur_pos_value != 0
                ||| a.control == place.push(1int)
            }
        }
    }
}

/// [`clear_related`] as a function.
pub open spec fn clear_relation(place: Seq<int>, delta: i8) -> spec_fn(OptState, OptState) -> bool {
    |a: OptState, b: OptState| clear_related(place, delta, a, b)
}

/// A bound on the steps that the loop at `place` still takes.
pub open spec fn clear_rank(place: Seq<int>, delta: i8) -> spec_fn(OptState) -> nat {
    |a: OptState|
        {
            let left: nat = if delta == 1 {
                (256 - a.cur_pos_value) as nat
            } else {
                a.cur_pos_value as nat
            };
            if a.control == place {
                1024nat
            } else if a.control == place.push(0int) {
                2 * left
            } else if a.control == place.push(1int) {
                if a.cur_pos_value == 0 {
                    1nat
                } else {
                    2 * left + 1
                }
            } else {
                0nat
            }
        }
}

/// Two programs that are the same but for a loop that clears the cell go on
/// as such.
pub proof fn lemma_clear_step(place: Seq<int>, delta: i8, a: OptState, b: OptState)
    requires
        clear_related(place, delta, a, b),
    ensures
        step_matches(
            opt_steps(),
            opt_steps(),
            clear_relation(place, delta),
            clear_rank(place, delta),
            never_alone(),
            a,
            b,
        ),
        stops(opt_next(a, None).1) ==> same_tape(a, b),
{
    let related = clear_relation(place, delta);
    let rank = clear_rank(place, delta);
    let added = seq![Instr::SetValue(0)];
    let body = seq![Instr::Mod(delta)];
    let p = place.last();
    let site = block_at(a.ops, place);
    lemma_control_last_in_block(a.ops, place);
    lemma_control_enter(a.ops, place, body);
    lemma_control_replace_last(a.ops, place.push(0int), 1);
    lemma_control_replace_last(a.ops, place, p + 1);
    lemma_block_spliced(a.ops, place, 1, added, place);
    let inside = place.push(0int);
    let behind = place.push(1int);
    assert(inside.drop_last() =~= place);
    assert(behind.drop_last() =~= place);
    assert(inside.drop_last().push(1int) =~= behind);
    assert(behind.drop_last().push(0int) =~= inside);
    assert(block_at(a.ops, behind) == body);
    let depth = place.len() - 1;
    assert(advanced(place).take(depth) =~= place.take(depth));
    assert(moved_place(place, 1, 1, advanced(place)) =~= advanced(place));
    assert(!in_region(place, 1, advanced(place)));
    let (a1, x) = opt_next(a, None);
    let (b1, y) = opt_next(b, None);
    if outside_related(place, 1, added, a, b) {
        if a.control.len() == 0 {
            lemma_first_step_outside(place, 1, added, a, b);
            assert(clear_site(a1.ops, place, delta));
            if x == Step::More {
                assert(holds(related, a1, b1));
            }
        } else if a.control != place {
            lemma_step_outside(place, 1, added, a, b);
            assert(clear_site(a1.ops, place, delta));
            match x {
                Step::More => {
                    assert(holds(related, a1, b1));
                },
                Step::Output(_) => {
                    assert(holds(related, a1, b1));
                },
                Step::Input => {
                    assert forall|read: u8| #[trigger]
                        holds(related, fed(opt_steps(), a1, read), fed(opt_steps(), b1, read)) by {
                        assert(outside_related(
                            place,
                            1,
                            added,
                            fed(opt_steps(), a1, read),
                            fed(opt_steps(), b1, read),
                        ));
                    }
                },
                _ => {},
            }
        } else {
            assert(site[p] == Instr::Loop(body));
            assert(b.control == place);
            assert(block_at(b.ops, place)[p] == Instr::SetValue(0));
            assert(x == Step::More);
            if a.cur_pos_value == 0 {
                // The first program passes the loop, the second assigns 0.
                assert(y == Step::More);
                lemma_visible_cells_with(a, b, a1, b1);
                assert(outside_related(place, 1, added, a1, b1));
                assert(holds(related, a1, b1));
            } else {
                // The first program enters the loop alone.
                lemma_same_off_cursor(a, b);
                assert(a1.control == inside);
                assert(clear_related(place, delta, a1, b));
                assert(holds(related, a1, b));
                assert(rank(a1) < rank(a));
            }
        }
    } else {
        assert(block_at(b.ops, place)[p] == Instr::SetValue(0));
        if a.control == inside {
            // The first program alone changes the cell by one.
            assert(block_at(a.ops, inside) == body);
            assert(x == Step::More);
            assert(a1.control =~= behind);
            assert(clear_related(place, delta, a1, b));
            assert(holds(related, a1, b));
            assert(rank(a1) < rank(a));
        } else {
            assert(a.control == behind);
            assert(x == Step::More);
            if a.cur_pos_value != 0 {
                // The first program alone goes through the loop once more.
                assert(a1.control =~= inside);
                assert(clear_related(place, delta, a1, b));
                assert(holds(related, a1, b));
                assert(rank(a1) < rank(a));
            } else {
                // The first program leaves the loop, the second assigns 0.
                assert(y == Step::More);
                assert(a1.control =~= advanced(place));
                assert(b1.control =~= advanced(place));
                lemma_same_off_cursor(a1, b1);
                assert(tape_is_total(a1.cells));
                assert(tape_is_total(b1.cells));
                assert(outside_related(place, 1, added, a1, b1));
                assert(holds(related, a1, b1));
            }
        }
    }
}

/// A loop whose body is a single `Mod(1)` or `Mod(-1)`, replaced anywhere in
/// a program by an assignment of 0, leaves the program showing the same.
pub proof fn lemma_clearing_shows_same(ops: Seq<Instr>, place: Seq<int>, delta: i8)
    requires
        clear_site(ops, place, delta),
    ensures
        shows_same(ops, spliced(ops, place, 1, seq![Instr::SetValue(0)])),
{
    let related = clear_relation(place, delta);
    let rewritten = spliced(ops, place, 1, seq![Instr::SetValue(0)]);
    assert forall|a: OptState, b: OptState| #[trigger] holds(related, a, b) implies step_matches(
        opt_steps(),
        opt_steps(),
        related,
        clear_rank(place, delta),
        never_alone(),
        a,
        b,
    ) by {
        lemma_clear_step(place, delta, a, b);
    }
    assert forall|a: OptState, b: OptState| #[trigger]
        holds(related, a, b) && stops(opt_next(a, None).1) && opt_next(a, None).1 == opt_next(
            b,
            None,
        ).1 implies same_tape(a, b) by {
        lemma_clear_step(place, delta, a, b);
    }
    assert forall|reach: Set<int>, cells: Map<int, u8>|
        all_cells_reachable(reach) && tape_is_total(cells) implies #[trigger] holds(
        related,
        tree_start(ops, reach, cells),
        tree_start(rewritten, reach, cells),
    ) by {
        assert(outside_related(
            place,
            1,
            seq![Instr::SetValue(0)],
            tree_start(ops, reach, cells),
            tree_start(rewritten, reach, cells),
        ));
    }
    lemma_related_programs_show_same(
        ops,
        rewritten,
        related,
        clear_rank(place, delta),
        never_alone(),
    );
}

} // verus!
