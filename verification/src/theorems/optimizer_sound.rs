//! The optimizer keeps what a program shows and what it leaves on the tape:
//! each traversal is a chain of rewrites in one place, of two operations that
//! fuse or of a loop that clears its cell, and each of them leaves the
//! program showing the same.

use vstd::prelude::*;
use crate::executors::{Step, run_spec};
use crate::executors::bf_interpreter::interpreter_steps;
use crate::theorems::equivalence::{
    all_cells_reachable, lemma_text_interpreter_follows_tree_interpreter,
    lemma_tree_interpreter_follows_text_interpreter, tape_is_total, text_start,
    text_tape_is_tree_tape,
};
use crate::theorems::simulation::same_observation;
use crate::executors::operations::{
    Instr, append_instr, instr_size, is_clear_body, lemma_pass_shrinks, ops_size, optimize_fix,
    optimize_pass, parse, rewrite_loop,
};
use crate::executors::bf_opt_interpreter::{
    block_at, control_valid, lemma_control_enter, lemma_control_last_in_block,
    lemma_control_replace_last,
};
use crate::theorems::rewrites::{
    clear_site, follows, fuse_site, fused, lemma_clearing_shows_same, lemma_fusing_shows_same,
    lemma_shows_same_reflexive, lemma_shows_same_transitive, same_run, shows_same, spliced,
    tree_run,
};

verus! {

/// The body of the loop that `into` leads to: all indices of `into` lead
/// through loops, each in the body of the one before. With no index, the
/// program itself.
pub open spec fn body_at(ops: Seq<Instr>, into: Seq<int>) -> Seq<Instr> {
    block_at(ops, into.push(0int))
}

/// Whether `into` leads to a loop of the program.
pub open spec fn into_valid(ops: Seq<Instr>, into: Seq<int>) -> bool {
    control_valid(ops, into.push(0int))
}

/// The program with `body` as the body of the loop that `into` leads to.
pub open spec fn with_body(ops: Seq<Instr>, into: Seq<int>, body: Seq<Instr>) -> Seq<Instr> {
    spliced(ops, into.push(0int), body_at(ops, into).len(), body)
}

/// A loop's body that was replaced is what it was replaced with, and the way
/// to it leads to a loop as before.
pub proof fn lemma_with_body(ops: Seq<Instr>, into: Seq<int>, body: Seq<Instr>, other: Seq<Instr>)
    requires
        into_valid(ops, into),
    ensures
        into_valid(with_body(ops, into, body), into),
        body_at(with_body(ops, into, body), into) == body,
        with_body(with_body(ops, into, body), into, other) == with_body(ops, into, other),
        with_body(ops, into, body_at(ops, into)) == ops,
    decreases into.len(),
{
    let place = into.push(0int);
    let changed = with_body(ops, into, body);
    if into.len() == 0 {
        assert(place.len() == 1);
        assert(body_at(ops, into) == ops);
        assert(changed =~= body);
        assert(with_body(changed, into, other) =~= other);
        assert(with_body(ops, into, other) =~= other);
        assert(with_body(ops, into, ops) =~= ops);
    } else {
        assert(place[0] == into[0]);
        assert(place.drop_first() =~= into.drop_first().push(0int));
        match ops[into[0]] {
            Instr::Loop(inner) => {
                let rest = into.drop_first();
                lemma_with_body(inner, rest, body, other);
                assert(body_at(ops, into) == body_at(inner, rest));
                let inner_changed = with_body(inner, rest, body);
                assert(changed == ops.update(into[0], Instr::Loop(inner_changed)));
                assert(body_at(changed, into) == body_at(inner_changed, rest));
                assert(with_body(changed, into, other) =~= ops.update(
                    into[0],
                    Instr::Loop(with_body(inner_changed, rest, other)),
                ));
                assert(with_body(ops, into, body_at(ops, into)) =~= ops);
            },
            _ => {},
        }
    }
}

/// Replacing operations in a loop's body is replacing the body.
pub proof fn lemma_spliced_is_with_body(
    ops: Seq<Instr>,
    into: Seq<int>,
    at: int,
    removed: nat,
    added: Seq<Instr>,
)
    requires
        into_valid(ops, into),
        0 <= at,
        at + removed <= body_at(ops, into).len(),
    ensures
        control_valid(ops, into.push(at)),
        block_at(ops, into.push(at)) == body_at(ops, into),
        spliced(ops, into.push(at), removed, added) == with_body(
            ops,
            into,
            body_at(ops, into).take(at) + added + body_at(ops, into).skip(at + removed),
        ),
    decreases into.len(),
{
    let place = into.push(at);
    let whole = into.push(0int);
    let body = body_at(ops, into);
    let new_body = body.take(at) + added + body.skip(at + removed);
    if into.len() == 0 {
        assert(place.len() == 1);
        assert(whole.len() == 1);
        assert(body == ops);
        assert(ops.take(0) + new_body + ops.skip(ops.len() as int) =~= new_body);
    } else {
        assert(place[0] == into[0]);
        assert(whole[0] == into[0]);
        assert(place.drop_first() =~= into.drop_first().push(at));
        assert(whole.drop_first() =~= into.drop_first().push(0int));
        match ops[into[0]] {
            Instr::Loop(inner) => {
                lemma_spliced_is_with_body(inner, into.drop_first(), at, removed, added);
            },
            _ => {},
        }
    }
}

/// Replacing the body of a loop in a loop's body is replacing the outer
/// body by the one with the inner loop changed.
pub proof fn lemma_with_inner_body(
    ops: Seq<Instr>,
    into: Seq<int>,
    at: int,
    inner: Seq<Instr>,
    new_inner: Seq<Instr>,
)
    requires
        into_valid(ops, into),
        0 <= at < body_at(ops, into).len(),
        body_at(ops, into)[at] == Instr::Loop(inner),
    ensures
        into_valid(ops, into.push(at)),
        body_at(ops, into.push(at)) == inner,
        with_body(ops, into.push(at), new_inner) == with_body(
            ops,
            into,
            body_at(ops, into).update(at, Instr::Loop(new_inner)),
        ),
    decreases into.len(),
{
    let deeper = into.push(at);
    let body = body_at(ops, into);
    if into.len() == 0 {
        assert(body == ops);
        let place = deeper.push(0int);
        assert(place =~= seq![at, 0int]);
        assert(place[0] == at);
        assert(place.drop_first() =~= seq![0int]);
        assert(block_at(inner, seq![0int]) == inner);
        assert(control_valid(inner, seq![0int]));
        assert(body_at(ops, deeper) == inner);
        assert(with_body(ops, deeper, new_inner) == ops.update(
            at,
            Instr::Loop(spliced(inner, seq![0int], inner.len(), new_inner)),
        ));
        assert(spliced(inner, seq![0int], inner.len(), new_inner) =~= new_inner);
        assert(with_body(ops, into, body.update(at, Instr::Loop(new_inner))) =~= ops.update(
            at,
            Instr::Loop(new_inner),
        ));
    } else {
        let place = deeper.push(0int);
        let whole = into.push(0int);
        assert(place[0] == into[0]);
        assert(whole[0] == into[0]);
        assert(place.drop_first() =~= into.drop_first().push(at).push(0int));
        assert(whole.drop_first() =~= into.drop_first().push(0int));
        match ops[into[0]] {
            Instr::Loop(outer) => {
                lemma_with_inner_body(outer, into.drop_first(), at, inner, new_inner);
            },
            _ => {},
        }
    }
}

/// What the result buffer of a traversal becomes by the next operation.
pub open spec fn pass_step(acc: Seq<Instr>, instr: Instr) -> Seq<Instr> {
    match instr {
        Instr::Loop(body) => acc.push(rewrite_loop(optimize_pass(body))),
        _ => append_instr(acc, instr),
    }
}

/// What the result buffer `acc` of a traversal becomes by the operations
/// `rest` that are still to come.
pub open spec fn pass_from(acc: Seq<Instr>, rest: Seq<Instr>) -> Seq<Instr>
    decreases rest.len(),
{
    if rest.len() == 0 {
        acc
    } else {
        pass_from(pass_step(acc, rest[0]), rest.drop_first())
    }
}

/// A traversal of a sequence is the traversal of its first part, carried on
/// over the rest.
pub proof fn lemma_pass_from(first: Seq<Instr>, rest: Seq<Instr>)
    ensures
        optimize_pass(first + rest) == pass_from(optimize_pass(first), rest),
    decreases rest.len(),
{
    if rest.len() == 0 {
        assert(first + rest =~= first);
    } else {
        let longer = first.push(rest[0]);
        assert(longer.drop_last() =~= first);
        assert(longer.last() == rest[0]);
        assert(optimize_pass(longer) == pass_step(optimize_pass(first), rest[0]));
        assert(longer + rest.drop_first() =~= first + rest);
        lemma_pass_from(longer, rest.drop_first());
    }
}

/// A sequence counts what its first operation counts and what the rest counts.
pub proof fn lemma_ops_size_front(ops: Seq<Instr>)
    requires
        ops.len() > 0,
    ensures
        ops_size(ops) == instr_size(ops[0]) + ops_size(ops.drop_first()),
        instr_size(ops[0]) >= 1,
    decreases ops.len(),
{
    if ops.len() == 1 {
        assert(ops.drop_last() =~= ops.drop_first());
        assert(ops_size(ops.drop_first()) == 0);
    } else {
        lemma_ops_size_front(ops.drop_last());
        assert(ops.drop_last().drop_first() =~= ops.drop_first().drop_last());
        assert(ops.drop_first().last() == ops.last());
        assert(ops.drop_last()[0] == ops[0]);
    }
}

/// A traversal that is carried on in one loop body of a program leaves the
/// program showing the same: with `acc` for what the traversal has made of
/// the body so far and `rest` for what is still to come, the program shows
/// the same as the program with the traversal carried to the end.
pub proof fn lemma_pass_in_place(ops: Seq<Instr>, into: Seq<int>, acc: Seq<Instr>, rest: Seq<Instr>)
    requires
        into_valid(ops, into),
        body_at(ops, into) == acc + rest,
    ensures
        shows_same(ops, with_body(ops, into, pass_from(acc, rest))),
    decreases ops_size(rest),
{
    let body = acc + rest;
    let n = acc.len() as int;
    if rest.len() == 0 {
        assert(body =~= acc);
        lemma_with_body(ops, into, acc, acc);
        lemma_shows_same_reflexive(ops);
    } else {
        let x = rest[0];
        let r = rest.drop_first();
        lemma_ops_size_front(rest);
        assert(body[n] == x);
        assert(body.skip(n + 1) =~= r);
        assert(body.take(n) =~= acc);
        match x {
            Instr::Loop(b) => {
                let deeper = into.push(n);
                let pb = optimize_pass(b);
                lemma_with_inner_body(ops, into, n, b, pb);
                assert(Seq::<Instr>::empty() + b =~= b);
                lemma_pass_in_place(ops, deeper, Seq::empty(), b);
                assert(b =~= Seq::<Instr>::empty() + b);
                lemma_pass_from(Seq::empty(), b);
                assert(optimize_pass(Seq::<Instr>::empty()) =~= Seq::<Instr>::empty());
                assert(pass_from(Seq::empty(), b) == pb);
                let body2 = body.update(n, Instr::Loop(pb));
                let ops2 = with_body(ops, into, body2);
                assert(with_body(ops, deeper, pb) == ops2);
                assert(shows_same(ops, ops2));
                lemma_with_body(ops, into, body2, body2);
                if is_clear_body(pb) {
                    let delta = pb[0]->Mod_0;
                    assert(pb =~= seq![Instr::Mod(delta)]);
                    let acc3 = acc.push(Instr::SetValue(0));
                    let body3 = acc3 + r;
                    lemma_spliced_is_with_body(ops2, into, n, 1, seq![Instr::SetValue(0)]);
                    assert(body2.take(n) + seq![Instr::SetValue(0)] + body2.skip(n + 1) =~= body3);
                    let ops3 = with_body(ops2, into, body3);
                    assert(clear_site(ops2, deeper, delta));
                    lemma_clearing_shows_same(ops2, deeper, delta);
                    assert(shows_same(ops2, ops3));
                    lemma_with_body(ops2, into, body3, body3);
                    lemma_pass_in_place(ops3, into, acc3, r);
                    let done = pass_from(acc3, r);
                    lemma_with_body(ops2, into, body3, done);
                    lemma_with_body(ops, into, body2, done);
                    assert(with_body(ops3, into, done) == with_body(ops, into, done));
                    lemma_shows_same_transitive(ops, ops2, ops3);
                    lemma_shows_same_transitive(ops, ops3, with_body(ops, into, done));
                } else {
                    let acc2 = acc.push(Instr::Loop(pb));
                    assert(body2 =~= acc2 + r);
                    lemma_pass_in_place(ops2, into, acc2, r);
                    let done = pass_from(acc2, r);
                    lemma_with_body(ops, into, body2, done);
                    lemma_shows_same_transitive(ops, ops2, with_body(ops, into, done));
                }
            },
            _ => {
                let next = append_instr(acc, x);
                if next == acc.push(x) {
                    assert(body =~= next + r);
                    lemma_pass_in_place(ops, into, next, r);
                } else {
                    let both = next.last();
                    assert(next =~= acc.drop_last().push(both));
                    assert(fused(acc.last(), x) == Some(both)) by {
                        let pair = append_instr(seq![acc.last()], x);
                        assert(seq![acc.last()].drop_last() =~= Seq::<Instr>::empty());
                        assert(pair =~= seq![both]);
                    }
                    let at = n - 1;
                    let site = into.push(at);
                    lemma_spliced_is_with_body(ops, into, at, 2, seq![both]);
                    assert(body.take(at) + seq![both] + body.skip(at + 2) =~= next + r);
                    let ops1 = with_body(ops, into, next + r);
                    assert(body[at] == acc.last());
                    assert(fuse_site(ops, site, acc.last(), x, both));
                    lemma_fusing_shows_same(ops, site, acc.last(), x, both);
                    assert(shows_same(ops, ops1));
                    lemma_with_body(ops, into, next + r, next + r);
                    lemma_pass_in_place(ops1, into, next, r);
                    let done = pass_from(next, r);
                    lemma_with_body(ops, into, next + r, done);
                    lemma_shows_same_transitive(ops, ops1, with_body(ops, into, done));
                }
            },
        }
    }
}

/// A traversal of the optimizer leaves the program showing the same.
pub proof fn lemma_optimize_pass_shows_same(ops: Seq<Instr>)
    ensures
        shows_same(ops, optimize_pass(ops)),
{
    let into = Seq::<int>::empty();
    assert(into.push(0int).len() == 1);
    assert(Seq::<Instr>::empty() + ops =~= ops);
    lemma_pass_in_place(ops, into, Seq::empty(), ops);
    lemma_pass_from(Seq::empty(), ops);
    assert(optimize_pass(Seq::<Instr>::empty()) =~= Seq::<Instr>::empty());
    let done = optimize_pass(ops);
    assert(with_body(ops, into, done) =~= done);
}

/// The optimizer leaves the program showing the same: on every tape that
/// holds a value for every cell and can hand out every cell, on every input,
/// whatever a run of the program shows, some run of the optimized program
/// shows too, and the other way round; a run that has stopped has left the
/// cursor and the tape as the other leaves them.
pub proof fn lemma_optimizer_shows_same(ops: Seq<Instr>)
    ensures
        shows_same(ops, optimize_fix(ops)),
    decreases ops_size(ops),
{
    let next = optimize_pass(ops);
    if next == ops {
        lemma_shows_same_reflexive(ops);
    } else {
        lemma_pass_shrinks(ops);
        lemma_optimize_pass_shows_same(ops);
        lemma_optimizer_shows_same(next);
        lemma_shows_same_transitive(ops, next, optimize_fix(next));
    }
}

/// The optimized program shows and leaves what the program does: on a tape
/// that holds a value for every cell and can hand out every cell, whatever
/// the program writes, reads and ends with in `fuel` steps, the optimized
/// program writes, reads and ends with in as many steps as the result says,
/// and where the program has stopped, both have left the cursor on the same
/// cell and the same value in every cell.
pub proof fn lemma_optimized_program_follows(
    ops: Seq<Instr>,
    reach: Set<int>,
    cells: Map<int, u8>,
    input: Seq<u8>,
    fuel: nat,
) -> (other: nat)
    requires
        all_cells_reachable(reach),
        tape_is_total(cells),
    ensures
        same_run(
            tree_run(ops, reach, cells, input, fuel),
            tree_run(optimize_fix(ops), reach, cells, input, other),
        ),
{
    lemma_optimizer_shows_same(ops);
    assert(follows(ops, optimize_fix(ops), reach, cells, input, fuel));
    choose|other: nat|
        same_run(
            tree_run(ops, reach, cells, input, fuel),
            #[trigger] tree_run(optimize_fix(ops), reach, cells, input, other),
        )
}

/// The same the other way round: whatever the optimized program shows and
/// leaves in `fuel` steps, the program shows and leaves in as many steps as
/// the result says. So the one stops where the other does.
pub proof fn lemma_program_follows_optimized(
    ops: Seq<Instr>,
    reach: Set<int>,
    cells: Map<int, u8>,
    input: Seq<u8>,
    fuel: nat,
) -> (other: nat)
    requires
        all_cells_reachable(reach),
        tape_is_total(cells),
    ensures
        same_run(
            tree_run(optimize_fix(ops), reach, cells, input, fuel),
            tree_run(ops, reach, cells, input, other),
        ),
{
    lemma_optimizer_shows_same(ops);
    assert(follows(optimize_fix(ops), ops, reach, cells, input, fuel));
    choose|other: nat|
        same_run(
            tree_run(optimize_fix(ops), reach, cells, input, fuel),
            #[trigger] tree_run(ops, reach, cells, input, other),
        )
}

/// On a program that the front-end accepts, on a tape that can hand out
/// every cell, the tree interpreter on the optimized program shows what the
/// text interpreter shows: whatever the text interpreter writes, reads and
/// ends with in `fuel` steps, the tree interpreter writes, reads and ends
/// with in as many steps as the result says. Where the text interpreter has
/// stopped, both have left the cursor on the same cell and the same tape.
pub proof fn lemma_optimized_tree_follows_text(
    src: Seq<u8>,
    reach: Set<int>,
    cells: Map<int, u8>,
    input: Seq<u8>,
    fuel: nat,
) -> (other: nat)
    requires
        parse(src) is Ok,
        all_cells_reachable(reach),
        tape_is_total(cells),
    ensures
        same_observation(
            run_spec(interpreter_steps(), text_start(src, reach, cells), input, fuel),
            tree_run(optimize_fix(parse(src)->Ok_0), reach, cells, input, other),
        ),
        run_spec(interpreter_steps(), text_start(src, reach, cells), input, fuel).end
            != Step::More ==> text_tape_is_tree_tape(
            run_spec(interpreter_steps(), text_start(src, reach, cells), input, fuel).state,
            tree_run(optimize_fix(parse(src)->Ok_0), reach, cells, input, other).state,
        ),
{
    let program = parse(src)->Ok_0;
    let plain = lemma_tree_interpreter_follows_text_interpreter(src, reach, cells, input, fuel);
    lemma_optimizer_shows_same(program);
    assert(follows(program, optimize_fix(program), reach, cells, input, plain));
    choose|other: nat|
        same_run(
            tree_run(program, reach, cells, input, plain),
            #[trigger] tree_run(optimize_fix(program), reach, cells, input, other),
        )
}

/// The same the other way round: whatever the tree interpreter shows on the
/// optimized program in `fuel` steps, the text interpreter shows in as many
/// steps as the result says.
pub proof fn lemma_text_follows_optimized_tree(
    src: Seq<u8>,
    reach: Set<int>,
    cells: Map<int, u8>,
    input: Seq<u8>,
    fuel: nat,
) -> (other: nat)
    requires
        parse(src) is Ok,
        all_cells_reachable(reach),
        tape_is_total(cells),
    ensures
        same_observation(
            run_spec(interpreter_steps(), text_start(src, reach, cells), input, other),
            tree_run(optimize_fix(parse(src)->Ok_0), reach, cells, input, fuel),
        ),
        tree_run(optimize_fix(parse(src)->Ok_0), reach, cells, input, fuel).end != Step::More
            ==> text_tape_is_tree_tape(
            run_spec(interpreter_steps(), text_start(src, reach, cells), input, other).state,
            tree_run(optimize_fix(parse(src)->Ok_0), reach, cells, input, fuel).state,
        ),
{
    let program = parse(src)->Ok_0;
    lemma_optimizer_shows_same(program);
    assert(follows(optimize_fix(program), program, reach, cells, input, fuel));
    let plain = choose|other: nat|
        same_run(
            tree_run(optimize_fix(program), reach, cells, input, fuel),
            #[trigger] tree_run(program, reach, cells, input, other),
        );
    lemma_text_interpreter_follows_tree_interpreter(src, reach, cells, input, plain)
}

} // verus!
