//! When two machines show the same. A run shows what it wrote, how much it
//! read and why it stopped; two machines show the same from two states where
//! every run of the one is matched by a run of the other that shows the
//! same, whatever the input and however many steps the first may take. The
//! lemmas also say what holds of the two states in which such runs end.

use vstd::prelude::*;
use crate::executors::{RunModel, Step, run_after, run_spec};

verus! {

/// Whether two runs show the same: the same bytes written, as many bytes
/// read, the same reason to stop.
pub open spec fn same_observation<A, B>(a: RunModel<A>, b: RunModel<B>) -> bool {
    a.output == b.output && a.consumed == b.consumed && a.end == b.end
}

/// Whether `related` holds of two states.
pub open spec fn holds<A, B>(related: spec_fn(A, B) -> bool, a: A, b: B) -> bool {
    related(a, b)
}

/// The state after a step that takes the byte `byte`.
pub open spec fn fed<S>(next: spec_fn(S, Option<u8>) -> (S, Step), state: S, byte: u8) -> S {
    next(state, Some(byte)).0
}

/// Whether two related states stay related by one step: either one machine
/// alone does a step that reports nothing, and comes nearer to a step that
/// both do, or both do a step that reports the same.
pub open spec fn step_matches<A, B>(
    next_a: spec_fn(A, Option<u8>) -> (A, Step),
    next_b: spec_fn(B, Option<u8>) -> (B, Step),
    related: spec_fn(A, B) -> bool,
    rank_a: spec_fn(A) -> nat,
    rank_b: spec_fn(B) -> nat,
    a: A,
    b: B,
) -> bool {
    let (a1, x) = next_a(a, None);
    let (b1, y) = next_b(b, None);
    ||| y == Step::More && holds(related, a, b1) && rank_b(b1) < rank_b(b)
    ||| x == Step::More && holds(related, a1, b) && rank_a(a1) < rank_a(a)
    ||| x == y && match x {
        Step::More => holds(related, a1, b1),
        Step::Output(_) => holds(related, a1, b1),
        Step::Input => forall|byte: u8| #[trigger]
            holds(related, fed(next_a, a1, byte), fed(next_b, b1, byte)),
        _ => true,
    }
}

/// Whether `related` is kept by the steps of the two machines.
pub open spec fn is_simulation<A, B>(
    next_a: spec_fn(A, Option<u8>) -> (A, Step),
    next_b: spec_fn(B, Option<u8>) -> (B, Step),
    related: spec_fn(A, B) -> bool,
    rank_a: spec_fn(A) -> nat,
    rank_b: spec_fn(B) -> nat,
) -> bool {
    forall|a: A, b: B| #[trigger]
        holds(related, a, b) ==> step_matches(next_a, next_b, related, rank_a, rank_b, a, b)
}

/// Whether a step stops a run, for good or until there is input.
pub open spec fn stops(step: Step) -> bool {
    step != Step::More && !(step is Output)
}

/// Whether `ended` holds of the states that two related machines are in
/// after a step by which both stop with the same report.
pub open spec fn ends_in<A, B>(
    next_a: spec_fn(A, Option<u8>) -> (A, Step),
    next_b: spec_fn(B, Option<u8>) -> (B, Step),
    related: spec_fn(A, B) -> bool,
    ended: spec_fn(A, B) -> bool,
) -> bool {
    forall|a: A, b: B| #[trigger]
        holds(related, a, b) && stops(next_a(a, None).1) && next_a(a, None).1 == next_b(
            b,
            None,
        ).1 ==> holds(ended, next_a(a, None).0, next_b(b, None).0)
}

/// From related states, a run of the first machine is matched by a run of the
/// second that shows the same, and where the first run has stopped, `ended`
/// holds of the two states that the runs end in. The result is the number of
/// steps that the second takes.
pub proof fn lemma_simulation<A, B>(
    next_a: spec_fn(A, Option<u8>) -> (A, Step),
    next_b: spec_fn(B, Option<u8>) -> (B, Step),
    related: spec_fn(A, B) -> bool,
    rank_a: spec_fn(A) -> nat,
    rank_b: spec_fn(B) -> nat,
    ended: spec_fn(A, B) -> bool,
    a: A,
    b: B,
    input: Seq<u8>,
    fuel: nat,
) -> (other: nat)
    requires
        is_simulation(next_a, next_b, related, rank_a, rank_b),
        ends_in(next_a, next_b, related, ended),
        holds(related, a, b),
    ensures
        same_observation(run_spec(next_a, a, input, fuel), run_spec(next_b, b, input, other)),
        run_spec(next_a, a, input, fuel).end != Step::More ==> holds(
            ended,
            run_spec(next_a, a, input, fuel).state,
            run_spec(next_b, b, input, other).state,
        ),
    decreases fuel, rank_b(b),
{
    if fuel == 0 {
        0
    } else {
        assert(step_matches(next_a, next_b, related, rank_a, rank_b, a, b));
        let (a1, x) = next_a(a, None);
        let (b1, y) = next_b(b, None);
        let rest = (fuel - 1) as nat;
        if y == Step::More && holds(related, a, b1) && rank_b(b1) < rank_b(b) {
            let more = lemma_simulation(
                next_a,
                next_b,
                related,
                rank_a,
                rank_b,
                ended,
                a,
                b1,
                input,
                fuel,
            );
            assert(run_spec(next_b, b, input, more + 1) == run_spec(next_b, b1, input, more));
            more + 1
        } else if x == Step::More && holds(related, a1, b) && rank_a(a1) < rank_a(a) {
            lemma_simulation(
                next_a,
                next_b,
                related,
                rank_a,
                rank_b,
                ended,
                a1,
                b,
                input,
                rest,
            )
        } else {
            match x {
                Step::More => {
                    let more = lemma_simulation(
                        next_a,
                        next_b,
                        related,
                        rank_a,
                        rank_b,
                        ended,
                        a1,
                        b1,
                        input,
                        rest,
                    );
                    assert(run_spec(next_b, b, input, more + 1) == run_spec(next_b, b1, input, more));
                    more + 1
                },
                Step::Output(byte) => {
                    let more = lemma_simulation(
                        next_a,
                        next_b,
                        related,
                        rank_a,
                        rank_b,
                        ended,
                        a1,
                        b1,
                        input,
                        rest,
                    );
                    assert(run_spec(next_b, b, input, more + 1) == run_after(
                        seq![byte],
                        0,
                        run_spec(next_b, b1, input, more),
                    ));
                    more + 1
                },
                Step::Input => {
                    if input.len() == 0 {
                        1
                    } else {
                        let a2 = fed(next_a, a1, input[0]);
                        let b2 = fed(next_b, b1, input[0]);
                        assert(holds(related, a2, b2));
                        let more = lemma_simulation(
                            next_a,
                            next_b,
                            related,
                            rank_a,
                            rank_b,
                            ended,
                            a2,
                            b2,
                            input.drop_first(),
                            rest,
                        );
                        assert(run_spec(next_b, b, input, more + 1) == run_after(
                            Seq::empty(),
                            1,
                            run_spec(next_b, b2, input.drop_first(), more),
                        ));
                        more + 1
                    }
                },
                _ => 1,
            }
        }
    }
}

/// A relation that the steps keep is kept with the machines exchanged.
pub proof fn lemma_simulation_exchanged<A, B>(
    next_a: spec_fn(A, Option<u8>) -> (A, Step),
    next_b: spec_fn(B, Option<u8>) -> (B, Step),
    related: spec_fn(A, B) -> bool,
    rank_a: spec_fn(A) -> nat,
    rank_b: spec_fn(B) -> nat,
)
    requires
        is_simulation(next_a, next_b, related, rank_a, rank_b),
    ensures
        is_simulation(next_b, next_a, |b: B, a: A| related(a, b), rank_b, rank_a),
{
    let exchanged = |b: B, a: A| related(a, b);
    assert forall|b: B, a: A| #[trigger] holds(exchanged, b, a) implies step_matches(
        next_b,
        next_a,
        exchanged,
        rank_b,
        rank_a,
        b,
        a,
    ) by {
        assert(holds(related, a, b));
        assert(step_matches(next_a, next_b, related, rank_a, rank_b, a, b));
        let (a1, x) = next_a(a, None);
        let (b1, y) = next_b(b, None);
        if y == Step::More && holds(related, a, b1) && rank_b(b1) < rank_b(b) {
            assert(holds(exchanged, b1, a));
        } else if x == Step::More && holds(related, a1, b) && rank_a(a1) < rank_a(a) {
            assert(holds(exchanged, b, a1));
        } else {
            match x {
                Step::More => {
                    assert(holds(exchanged, b1, a1));
                },
                Step::Output(_) => {
                    assert(holds(exchanged, b1, a1));
                },
                Step::Input => {
                    assert forall|byte: u8| #[trigger]
                        holds(exchanged, fed(next_b, b1, byte), fed(next_a, a1, byte)) by {
                        assert(holds(related, fed(next_a, a1, byte), fed(next_b, b1, byte)));
                    }
                },
                _ => {},
            }
        }
    }
}

/// The same the other way round: a run of the second machine is matched by
/// a run of the first, and where the second run has stopped, `ended` holds
/// of the two states that the runs end in.
pub proof fn lemma_simulation_back<A, B>(
    next_a: spec_fn(A, Option<u8>) -> (A, Step),
    next_b: spec_fn(B, Option<u8>) -> (B, Step),
    related: spec_fn(A, B) -> bool,
    rank_a: spec_fn(A) -> nat,
    rank_b: spec_fn(B) -> nat,
    ended: spec_fn(A, B) -> bool,
    a: A,
    b: B,
    input: Seq<u8>,
    fuel: nat,
) -> (other: nat)
    requires
        is_simulation(next_a, next_b, related, rank_a, rank_b),
        ends_in(next_a, next_b, related, ended),
        holds(related, a, b),
    ensures
        same_observation(run_spec(next_a, a, input, other), run_spec(next_b, b, input, fuel)),
        run_spec(next_b, b, input, fuel).end != Step::More ==> holds(
            ended,
            run_spec(next_a, a, input, other).state,
            run_spec(next_b, b, input, fuel).state,
        ),
{
    lemma_simulation_exchanged(next_a, next_b, related, rank_a, rank_b);
    let exchanged = |b: B, a: A| related(a, b);
    let ended_exchanged = |b: B, a: A| ended(a, b);
    assert(holds(exchanged, b, a));
    assert forall|b: B, a: A| #[trigger]
        holds(exchanged, b, a) && stops(next_b(b, None).1) && next_b(b, None).1 == next_a(
            a,
            None,
        ).1 implies holds(ended_exchanged, next_b(b, None).0, next_a(a, None).0) by {
        assert(holds(related, a, b));
        assert(holds(ended, next_a(a, None).0, next_b(b, None).0));
    }
    let other = lemma_simulation(
        next_b,
        next_a,
        exchanged,
        rank_b,
        rank_a,
        ended_exchanged,
        b,
        a,
        input,
        fuel,
    );
    if run_spec(next_b, b, input, fuel).end != Step::More {
        assert(holds(
            ended_exchanged,
            run_spec(next_b, b, input, fuel).state,
            run_spec(next_a, a, input, other).state,
        ));
    }
    other
}

/// Whether two related states stay related by one step in which both
/// machines report the same, unless the first reports `escape`.
pub open spec fn step_matches_unless<A, B>(
    next_a: spec_fn(A, Option<u8>) -> (A, Step),
    next_b: spec_fn(B, Option<u8>) -> (B, Step),
    related: spec_fn(A, B) -> bool,
    escape: Step,
    a: A,
    b: B,
) -> bool {
    let (a1, x) = next_a(a, None);
    let (b1, y) = next_b(b, None);
    ||| x == escape
    ||| x == y && match x {
        Step::More => holds(related, a1, b1),
        Step::Output(_) => holds(related, a1, b1),
        Step::Input => forall|byte: u8| #[trigger]
            holds(related, fed(next_a, a1, byte), fed(next_b, b1, byte)),
        _ => true,
    }
}

/// Whether `related` is kept by the steps of the two machines for as long as
/// the first does not report `escape`.
pub open spec fn is_simulation_unless<A, B>(
    next_a: spec_fn(A, Option<u8>) -> (A, Step),
    next_b: spec_fn(B, Option<u8>) -> (B, Step),
    related: spec_fn(A, B) -> bool,
    escape: Step,
) -> bool {
    forall|a: A, b: B| #[trigger]
        holds(related, a, b) ==> step_matches_unless(next_a, next_b, related, escape, a, b)
}

/// From related states, a run of the first machine that does not end with
/// `escape` is matched step by step by the run of the second.
pub proof fn lemma_simulation_unless<A, B>(
    next_a: spec_fn(A, Option<u8>) -> (A, Step),
    next_b: spec_fn(B, Option<u8>) -> (B, Step),
    related: spec_fn(A, B) -> bool,
    escape: Step,
    a: A,
    b: B,
    input: Seq<u8>,
    fuel: nat,
)
    requires
        is_simulation_unless(next_a, next_b, related, escape),
        holds(related, a, b),
        run_spec(next_a, a, input, fuel).end != escape,
        escape is Fault,
    ensures
        same_observation(run_spec(next_a, a, input, fuel), run_spec(next_b, b, input, fuel)),
    decreases fuel,
{
    if fuel > 0 {
        assert(step_matches_unless(next_a, next_b, related, escape, a, b));
        let (a1, x) = next_a(a, None);
        let (b1, y) = next_b(b, None);
        let rest = (fuel - 1) as nat;
        match x {
            Step::More => {
                assert(run_spec(next_a, a, input, fuel) == run_spec(next_a, a1, input, rest));
                assert(run_spec(next_b, b, input, fuel) == run_spec(next_b, b1, input, rest));
                lemma_simulation_unless(next_a, next_b, related, escape, a1, b1, input, rest);
            },
            Step::Output(byte) => {
                assert(run_spec(next_a, a, input, fuel) == run_after(
                    seq![byte],
                    0,
                    run_spec(next_a, a1, input, rest),
                ));
                assert(run_spec(next_b, b, input, fuel) == run_after(
                    seq![byte],
                    0,
                    run_spec(next_b, b1, input, rest),
                ));
                lemma_simulation_unless(next_a, next_b, related, escape, a1, b1, input, rest);
            },
            Step::Input => {
                if input.len() > 0 {
                    let a2 = fed(next_a, a1, input[0]);
                    let b2 = fed(next_b, b1, input[0]);
                    assert(holds(related, a2, b2));
                    assert(run_spec(next_a, a, input, fuel) == run_after(
                        Seq::empty(),
                        1,
                        run_spec(next_a, a2, input.drop_first(), rest),
                    ));
                    assert(run_spec(next_b, b, input, fuel) == run_after(
                        Seq::empty(),
                        1,
                        run_spec(next_b, b2, input.drop_first(), rest),
                    ));
                    lemma_simulation_unless(
                        next_a,
                        next_b,
                        related,
                        escape,
                        a2,
                        b2,
                        input.drop_first(),
                        rest,
                    );
                }
            },
            _ => {},
        }
    }
}

/// The state after `count` steps that bring no byte.
pub open spec fn after_steps<S>(next: spec_fn(S, Option<u8>) -> (S, Step), state: S, count: nat) -> S
    decreases count,
{
    if count == 0 {
        state
    } else {
        after_steps(next, next(state, None).0, (count - 1) as nat)
    }
}

/// Whether the next `count` steps report nothing.
pub open spec fn all_silent<S>(next: spec_fn(S, Option<u8>) -> (S, Step), state: S, count: nat) -> bool
    decreases count,
{
    count == 0 || (next(state, None).1 == Step::More && all_silent(
        next,
        next(state, None).0,
        (count - 1) as nat,
    ))
}

/// A run goes over steps that report nothing as if it started behind them.
pub proof fn lemma_run_over_silent<S>(
    next: spec_fn(S, Option<u8>) -> (S, Step),
    state: S,
    count: nat,
    input: Seq<u8>,
    fuel: nat,
)
    requires
        all_silent(next, state, count),
    ensures
        run_spec(next, state, input, count + fuel) == run_spec(
            next,
            after_steps(next, state, count),
            input,
            fuel,
        ),
    decreases count,
{
    if count > 0 {
        lemma_run_over_silent(next, next(state, None).0, (count - 1) as nat, input, fuel);
    }
}

/// A run that ends among steps that report nothing shows nothing.
pub proof fn lemma_run_within_silent<S>(
    next: spec_fn(S, Option<u8>) -> (S, Step),
    state: S,
    count: nat,
    input: Seq<u8>,
    fuel: nat,
)
    requires
        all_silent(next, state, count),
        fuel <= count,
    ensures
        run_spec(next, state, input, fuel).output == Seq::<u8>::empty(),
        run_spec(next, state, input, fuel).consumed == 0,
        run_spec(next, state, input, fuel).end == Step::More,
    decreases fuel,
{
    if fuel > 0 {
        lemma_run_within_silent(
            next,
            next(state, None).0,
            (count - 1) as nat,
            input,
            (fuel - 1) as nat,
        );
    }
}

/// Steps that report nothing, one after the other.
pub proof fn lemma_silent_steps_add<S>(
    next: spec_fn(S, Option<u8>) -> (S, Step),
    state: S,
    first: nat,
    second: nat,
)
    requires
        all_silent(next, state, first),
        all_silent(next, after_steps(next, state, first), second),
    ensures
        all_silent(next, state, first + second),
        after_steps(next, state, first + second) == after_steps(
            next,
            after_steps(next, state, first),
            second,
        ),
    decreases first,
{
    if first > 0 {
        lemma_silent_steps_add(next, next(state, None).0, (first - 1) as nat, second);
    }
}

/// Whether one step of the first machine is matched by a stretch of steps of
/// the second, from states that `boundary` relates: the second does
/// `before(a)` steps that report nothing, then one that reports what the
/// step of the first reports, then `behind(a)` that report nothing, and
/// `boundary` relates the states again.
pub open spec fn stretch_matches<A, B>(
    next_a: spec_fn(A, Option<u8>) -> (A, Step),
    next_b: spec_fn(B, Option<u8>) -> (B, Step),
    boundary: spec_fn(A, B) -> bool,
    before: spec_fn(A) -> nat,
    behind: spec_fn(A) -> nat,
    a: A,
    b: B,
) -> bool {
    let (a1, x) = next_a(a, None);
    let at = after_steps(next_b, b, before(a));
    let (b1, y) = next_b(at, None);
    &&& all_silent(next_b, b, before(a))
    &&& x == y
    &&& match x {
        Step::More => all_silent(next_b, b1, behind(a)) && holds(
            boundary,
            a1,
            after_steps(next_b, b1, behind(a)),
        ),
        Step::Output(_) => all_silent(next_b, b1, behind(a)) && holds(
            boundary,
            a1,
            after_steps(next_b, b1, behind(a)),
        ),
        Step::Input => forall|byte: u8| #[trigger]
            all_silent(next_b, fed(next_b, b1, byte), behind(a)) && holds(
                boundary,
                fed(next_a, a1, byte),
                after_steps(next_b, fed(next_b, b1, byte), behind(a)),
            ),
        _ => true,
    }
}

/// Whether every step of the first machine is matched by a stretch of steps
/// of the second.
pub open spec fn is_stretched_simulation<A, B>(
    next_a: spec_fn(A, Option<u8>) -> (A, Step),
    next_b: spec_fn(B, Option<u8>) -> (B, Step),
    boundary: spec_fn(A, B) -> bool,
    before: spec_fn(A) -> nat,
    behind: spec_fn(A) -> nat,
) -> bool {
    forall|a: A, b: B| #[trigger]
        holds(boundary, a, b) ==> stretch_matches(next_a, next_b, boundary, before, behind, a, b)
}

/// Whether `ended` holds of the states that two related machines are in
/// when the first has done the step that ends the program and the second the
/// stretch of steps that matches it.
pub open spec fn ends_stretched<A, B>(
    next_a: spec_fn(A, Option<u8>) -> (A, Step),
    next_b: spec_fn(B, Option<u8>) -> (B, Step),
    boundary: spec_fn(A, B) -> bool,
    before: spec_fn(A) -> nat,
    ended: spec_fn(A, B) -> bool,
) -> bool {
    forall|a: A, b: B| #[trigger]
        holds(boundary, a, b) && next_a(a, None).1 == Step::Done ==> holds(
            ended,
            next_a(a, None).0,
            next_b(after_steps(next_b, b, before(a)), None).0,
        )
}

/// From related states, a run of the first machine is matched by a run of
/// the second that shows the same, and where the first run has come to the
/// end of the program, `ended` holds of the two states that the runs end in.
/// The result is the number of steps that the second takes.
pub proof fn lemma_stretched_simulation<A, B>(
    next_a: spec_fn(A, Option<u8>) -> (A, Step),
    next_b: spec_fn(B, Option<u8>) -> (B, Step),
    boundary: spec_fn(A, B) -> bool,
    before: spec_fn(A) -> nat,
    behind: spec_fn(A) -> nat,
    ended: spec_fn(A, B) -> bool,
    a: A,
    b: B,
    input: Seq<u8>,
    fuel: nat,
) -> (other: nat)
    requires
        is_stretched_simulation(next_a, next_b, boundary, before, behind),
        ends_stretched(next_a, next_b, boundary, before, ended),
        holds(boundary, a, b),
    ensures
        same_observation(run_spec(next_a, a, input, fuel), run_spec(next_b, b, input, other)),
        run_spec(next_a, a, input, fuel).end == Step::Done ==> holds(
            ended,
            run_spec(next_a, a, input, fuel).state,
            run_spec(next_b, b, input, other).state,
        ),
    decreases fuel,
{
    if fuel == 0 {
        0
    } else {
        assert(stretch_matches(next_a, next_b, boundary, before, behind, a, b));
        let (a1, x) = next_a(a, None);
        let pre = before(a);
        let post = behind(a);
        let at = after_steps(next_b, b, pre);
        let (b1, y) = next_b(at, None);
        let rest = (fuel - 1) as nat;
        match x {
            Step::More => {
                let b2 = after_steps(next_b, b1, post);
                let more = lemma_stretched_simulation(
                    next_a,
                    next_b,
                    boundary,
                    before,
                    behind,
                    ended,
                    a1,
                    b2,
                    input,
                    rest,
                );
                lemma_run_over_silent(next_b, b1, post, input, more);
                assert(run_spec(next_b, at, input, 1 + post + more) == run_spec(
                    next_b,
                    b1,
                    input,
                    post + more,
                ));
                lemma_run_over_silent(next_b, b, pre, input, 1 + post + more);
                pre + 1 + post + more
            },
            Step::Output(byte) => {
                let b2 = after_steps(next_b, b1, post);
                let more = lemma_stretched_simulation(
                    next_a,
                    next_b,
                    boundary,
                    before,
                    behind,
                    ended,
                    a1,
                    b2,
                    input,
                    rest,
                );
                lemma_run_over_silent(next_b, b1, post, input, more);
                assert(run_spec(next_b, at, input, 1 + post + more) == run_after(
                    seq![byte],
                    0,
                    run_spec(next_b, b1, input, post + more),
                ));
                lemma_run_over_silent(next_b, b, pre, input, 1 + post + more);
                pre + 1 + post + more
            },
            Step::Input => {
                if input.len() == 0 {
                    lemma_run_over_silent(next_b, b, pre, input, 1);
                    pre + 1
                } else {
                    let a2 = fed(next_a, a1, input[0]);
                    let b2 = fed(next_b, b1, input[0]);
                    assert(all_silent(next_b, b2, post) && holds(
                        boundary,
                        a2,
                        after_steps(next_b, b2, post),
                    ));
                    let b3 = after_steps(next_b, b2, post);
                    let more = lemma_stretched_simulation(
                        next_a,
                        next_b,
                        boundary,
                        before,
                        behind,
                        ended,
                        a2,
                        b3,
                        input.drop_first(),
                        rest,
                    );
                    lemma_run_over_silent(next_b, b2, post, input.drop_first(), more);
                    assert(run_spec(next_b, at, input, 1 + post + more) == run_after(
                        Seq::empty(),
                        1,
                        run_spec(next_b, b2, input.drop_first(), post + more),
                    ));
                    lemma_run_over_silent(next_b, b, pre, input, 1 + post + more);
                    pre + 1 + post + more
                }
            },
            _ => {
                lemma_run_over_silent(next_b, b, pre, input, 1);
                pre + 1
            },
        }
    }
}

/// From related states, a run of the second machine is matched by a run of
/// the first that shows the same, and where the second run has come to the
/// end of the program, `ended` holds of the two states that the runs end in.
/// The result is the number of steps that the first takes.
pub proof fn lemma_stretched_simulation_back<A, B>(
    next_a: spec_fn(A, Option<u8>) -> (A, Step),
    next_b: spec_fn(B, Option<u8>) -> (B, Step),
    boundary: spec_fn(A, B) -> bool,
    before: spec_fn(A) -> nat,
    behind: spec_fn(A) -> nat,
    ended: spec_fn(A, B) -> bool,
    a: A,
    b: B,
    input: Seq<u8>,
    fuel: nat,
) -> (other: nat)
    requires
        is_stretched_simulation(next_a, next_b, boundary, before, behind),
        ends_stretched(next_a, next_b, boundary, before, ended),
        holds(boundary, a, b),
    ensures
        same_observation(run_spec(next_a, a, input, other), run_spec(next_b, b, input, fuel)),
        run_spec(next_b, b, input, fuel).end == Step::Done ==> holds(
            ended,
            run_spec(next_a, a, input, other).state,
            run_spec(next_b, b, input, fuel).state,
        ),
    decreases fuel,
{
    assert(stretch_matches(next_a, next_b, boundary, before, behind, a, b));
    let (a1, x) = next_a(a, None);
    let pre = before(a);
    let post = behind(a);
    let at = after_steps(next_b, b, pre);
    let (b1, y) = next_b(at, None);
    if fuel <= pre {
        lemma_run_within_silent(next_b, b, pre, input, fuel);
        assert(run_spec(next_a, a, input, 0).output =~= run_spec(next_b, b, input, fuel).output);
        0
    } else {
        let left = (fuel - pre - 1) as nat;
        lemma_run_over_silent(next_b, b, pre, input, left + 1);
        assert(pre + (left + 1) == fuel);
        match x {
            Step::More => {
                assert(run_spec(next_b, at, input, left + 1) == run_spec(next_b, b1, input, left));
                if left <= post {
                    lemma_run_within_silent(next_b, b1, post, input, left);
                    assert(run_spec(next_a, a1, input, 0).end == Step::More);
                    assert(run_spec(next_a, a, input, 1).output =~= run_spec(
                        next_b,
                        b,
                        input,
                        fuel,
                    ).output);
                    1
                } else {
                    let b2 = after_steps(next_b, b1, post);
                    let rest = (left - post) as nat;
                    lemma_run_over_silent(next_b, b1, post, input, rest);
                    assert(post + rest == left);
                    let more = lemma_stretched_simulation_back(
                        next_a,
                        next_b,
                        boundary,
                        before,
                        behind,
                        ended,
                        a1,
                        b2,
                        input,
                        rest,
                    );
                    more + 1
                }
            },
            Step::Output(byte) => {
                assert(run_spec(next_b, at, input, left + 1) == run_after(
                    seq![byte],
                    0,
                    run_spec(next_b, b1, input, left),
                ));
                if left <= post {
                    lemma_run_within_silent(next_b, b1, post, input, left);
                    assert(run_spec(next_a, a1, input, 0).end == Step::More);
                    assert(run_spec(next_a, a, input, 1).output =~= run_spec(
                        next_b,
                        b,
                        input,
                        fuel,
                    ).output);
                    1
                } else {
                    let b2 = after_steps(next_b, b1, post);
                    let rest = (left - post) as nat;
                    lemma_run_over_silent(next_b, b1, post, input, rest);
                    assert(post + rest == left);
                    let more = lemma_stretched_simulation_back(
                        next_a,
                        next_b,
                        boundary,
                        before,
                        behind,
                        ended,
                        a1,
                        b2,
                        input,
                        rest,
                    );
                    more + 1
                }
            },
            Step::Input => {
                if input.len() == 0 {
                    1
                } else {
                    let a2 = fed(next_a, a1, input[0]);
                    let b2 = fed(next_b, b1, input[0]);
                    assert(all_silent(next_b, b2, post) && holds(
                        boundary,
                        a2,
                        after_steps(next_b, b2, post),
                    ));
                    assert(run_spec(next_b, at, input, left + 1) == run_after(
                        Seq::empty(),
                        1,
                        run_spec(next_b, b2, input.drop_first(), left),
                    ));
                    if left <= post {
                        lemma_run_within_silent(next_b, b2, post, input.drop_first(), left);
                        assert(run_spec(next_a, a2, input.drop_first(), 0).end == Step::More);
                        assert(run_spec(next_a, a, input, 1).output =~= run_spec(
                            next_b,
                            b,
                            input,
                            fuel,
                        ).output);
                        1
                    } else {
                        let b3 = after_steps(next_b, b2, post);
                        let rest = (left - post) as nat;
                        lemma_run_over_silent(next_b, b2, post, input.drop_first(), rest);
                        assert(post + rest == left);
                        let more = lemma_stretched_simulation_back(
                            next_a,
                            next_b,
                            boundary,
                            before,
                            behind,
                            ended,
                            a2,
                            b3,
                            input.drop_first(),
                            rest,
                        );
                        more + 1
                    }
                }
            },
            _ => 1,
        }
    }
}

} // verus!
