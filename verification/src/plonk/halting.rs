//! Two runs that are answered alike take the same steps, whether they fail or
//! not.

use super::channel;
use super::channel::Step;
use super::replay;
use super::replay::World;
use crate::field::Field;
use vstd::prelude::*;

verus! {

/// No step failed.
pub open spec fn none_failed<F, P>(steps: Seq<Step<F, P>>) -> bool {
    forall|k: int| 0 <= k < steps.len() ==> !((#[trigger] steps[k]) is Failed)
}

/// After the steps `before`, a run went through `steps`, or was stopped in the
/// course of them.
pub open spec fn reaches<F, P>(
    before: Seq<Step<F, P>>,
    steps: Seq<Step<F, P>>,
    run: Seq<Step<F, P>>,
) -> bool {
    ||| channel::stops_in(before, steps, run)
    ||| (before + steps).is_prefix_of(run)
}

/// A run that was stopped in the course of steps did not go through them.
pub proof fn lemma_stopped_short<F, P>(
    before: Seq<Step<F, P>>,
    steps: Seq<Step<F, P>>,
    run: Seq<Step<F, P>>,
)
    requires
        channel::stops_in(before, steps, run),
        none_failed(steps),
    ensures
        !(before + steps).is_prefix_of(run),
{
    if (before + steps).is_prefix_of(run) {
        let last = run.len() - 1;
        assert((before + steps)[last] == steps[steps.len() - 1]);
        assert(run.take((before + steps).len() as int)[last] == (before + steps)[last]);
    }
}

/// A run that reaches steps reaches the first of them, and the others once it
/// went through those.
pub proof fn lemma_reaches_parts<F, P>(
    before: Seq<Step<F, P>>,
    a: Seq<Step<F, P>>,
    b: Seq<Step<F, P>>,
    run: Seq<Step<F, P>>,
)
    requires
        reaches(before, a + b, run),
    ensures
        reaches(before, a, run),
        channel::stops_in(before, a, run) || reaches(before + a, b, run),
{
    if channel::stops_in(before, a + b, run) {
        let taken = run.len() - before.len() - 1;
        if taken < a.len() {
            assert((a + b).take(taken) =~= a.take(taken));
        } else {
            assert(before + (a + b).take(taken) =~= (before + a) + b.take(taken - a.len()));
            assert(run.take((before + a).len() as int) =~= before + a) by {
                assert(run.take((before + a).len() as int) =~= run.drop_last().take(
                    (before + a).len() as int,
                ));
            }
        }
    } else {
        assert(before + (a + b) =~= (before + a) + b);
        assert(run.take((before + a).len() as int) =~= run.take(
            (before + (a + b)).len() as int,
        ).take((before + a).len() as int));
    }
}

/// The values of steps that did not fail.
pub proof fn lemma_none_failed<F: Field, P>(steps: Seq<Step<F, P>>)
    requires
        none_failed(steps),
    ensures
        none_failed(replay::shapes(steps)),
{
    assert forall|k: int| 0 <= k < steps.len() implies !((#[trigger] replay::shapes(
        steps,
    )[k]) is Failed) by {
        assert(!(steps[k] is Failed));
    }
}

/// The values of a run that reaches steps.
pub proof fn lemma_reaches_values<F: Field, P>(
    before: Seq<Step<F, P>>,
    steps: Seq<Step<F, P>>,
    run: Seq<Step<F, P>>,
)
    requires
        reaches(before, steps, run),
    ensures
        reaches(replay::shapes(before), replay::shapes(steps), replay::shapes(run)),
        channel::stops_in(before, steps, run) ==> channel::stops_in(
            replay::shapes(before),
            replay::shapes(steps),
            replay::shapes(run),
        ),
        (before + steps).is_prefix_of(run) ==> (replay::shapes(before) + replay::shapes(
            steps,
        )).is_prefix_of(replay::shapes(run)),
{
    let (b, s, r) = (replay::shapes(before), replay::shapes(steps), replay::shapes(run));
    if channel::stops_in(before, steps, run) {
        let taken = run.len() - before.len() - 1;
        assert(r.drop_last() =~= replay::shapes(run.drop_last()));
        assert(b + s.take(taken) =~= replay::shapes(before + steps.take(taken)));
        assert(r.last() == replay::shape(run.last()));
        assert(s[taken] == replay::shape(steps[taken]));
    }
    if (before + steps).is_prefix_of(run) {
        assert(b + s =~= replay::shapes(before + steps));
        assert(r.take((b + s).len() as int) =~= replay::shapes(
            run.take((before + steps).len() as int),
        ));
    }
}

/// A world that answers as in one of two runs.
pub open spec fn either<P>(a: Seq<Step<int, P>>, b: Seq<Step<int, P>>) -> World<P> {
    |history: Seq<Step<int, P>>, asked: Step<int, P>|
        {
            let k = history.len() as int;
            if k < a.len() && history == a.take(k) && replay::request(a[k]) == asked {
                a[k]
            } else {
                b[k]
            }
        }
}

/// Both runs are answered, if they ask differently where they first differ.
proof fn lemma_either<P>(a: Seq<Step<int, P>>, b: Seq<Step<int, P>>, m: int)
    requires
        0 <= m <= a.len(),
        m <= b.len(),
        a.take(m) == b.take(m),
        m < a.len() && m < b.len() ==> replay::request(a[m]) != replay::request(b[m]),
    ensures
        replay::is_answered(either(a, b), a),
        replay::is_answered(either(a, b), b),
{
    reveal(replay::is_answered);
    let w = either(a, b);
    assert forall|k: int| 0 <= k < b.len() implies #[trigger] b[k] == w(
        b.take(k),
        replay::request(b[k]),
    ) by {
        assert(b.take(k).len() == k);
        if k < a.len() && b.take(k) == a.take(k) && replay::request(a[k]) == replay::request(
            b[k],
        ) {
            if k < m {
                assert(a[k] == a.take(m)[k] && b[k] == b.take(m)[k]);
            } else if k > m {
                assert(a[m] == a.take(k)[m] && b[m] == b.take(k)[m]);
            }
        }
    }
}

/// How far two sequences agree.
proof fn lemma_first_difference<A>(a: Seq<A>, b: Seq<A>) -> (m: int)
    ensures
        0 <= m <= a.len(),
        m <= b.len(),
        a.take(m) == b.take(m),
        m < a.len() && m < b.len() ==> a[m] != b[m],
    decreases a.len(),
{
    if a.len() == 0 || b.len() == 0 {
        assert(a.take(0) =~= b.take(0));
        0
    } else {
        let m = lemma_first_difference(a.drop_last(), b);
        assert(a.take(m) =~= a.drop_last().take(m));
        if m == a.len() - 1 && m < b.len() && a[m] == b[m] {
            assert(a.take(m + 1) =~= a.take(m).push(a[m]));
            assert(b.take(m + 1) =~= b.take(m).push(b[m]));
            m + 1
        } else {
            if m < a.len() - 1 && m < b.len() {
                assert(a.drop_last()[m] == a[m]);
            }
            m
        }
    }
}

/// How many steps a run went through, and what came next.
proof fn lemma_gone<P>(
    before: Seq<Step<int, P>>,
    steps: Seq<Step<int, P>>,
    run: Seq<Step<int, P>>,
) -> (t: int)
    requires
        reaches(before, steps, run),
    ensures
        before.len() <= t <= (before + steps).len(),
        t <= run.len(),
        run.take(t) == (before + steps).take(t),
        t < (before + steps).len() ==> {
            &&& channel::stops_in(before, steps, run)
            &&& run.len() == t + 1
            &&& run[t] is Failed
            &&& replay::request(run[t]) == replay::request((before + steps)[t])
        },
        t == (before + steps).len() ==> (before + steps).is_prefix_of(run),
{
    if channel::stops_in(before, steps, run) {
        let taken = run.len() - before.len() - 1;
        let t = run.len() - 1;
        assert(run.take(t) =~= run.drop_last());
        assert((before + steps).take(t) =~= before + steps.take(taken));
        t
    } else {
        let t = (before + steps).len() as int;
        assert((before + steps).take(t) =~= before + steps);
        t
    }
}

/// Two runs that are answered alike are the same and stopped, or both go through
/// their steps and these are the same, if no world answers both steps alike unless
/// they are the same.
proof fn lemma_values_alike<P>(
    world: World<P>,
    before: Seq<Step<int, P>>,
    a: Seq<Step<int, P>>,
    b: Seq<Step<int, P>>,
    run_a: Seq<Step<int, P>>,
    run_b: Seq<Step<int, P>>,
)
    requires
        replay::is_answered(world, run_a),
        replay::is_answered(world, run_b),
        reaches(before, a, run_a),
        reaches(before, b, run_b),
        none_failed(a),
        none_failed(b),
        replay::is_answered(either(before + a, before + b), before + a) && replay::is_answered(
            either(before + a, before + b),
            before + b,
        ) ==> a == b,
    ensures
        (run_a == run_b && channel::stops_in(before, a, run_a) && channel::stops_in(
            before,
            b,
            run_b,
        )) || {
            &&& a == b
            &&& (before + a).is_prefix_of(run_a)
            &&& (before + b).is_prefix_of(run_b)
        },
{
    let (all_a, all_b) = (before + a, before + b);
    let m = lemma_first_difference(all_a, all_b);
    if m == all_a.len() || m == all_b.len() || replay::request(all_a[m]) != replay::request(
        all_b[m],
    ) {
        lemma_either(all_a, all_b, m);
    }
    if m < before.len() {
        assert(all_a[m] == before[m] && all_b[m] == before[m]);
    }
    let ta = lemma_gone(before, a, run_a);
    let tb = lemma_gone(before, b, run_b);
    let t = if ta <= tb && ta <= m {
        ta
    } else if tb <= m {
        tb
    } else {
        m
    };
    assert(all_a.take(t) =~= all_a.take(m).take(t));
    assert(all_b.take(t) =~= all_b.take(m).take(t));
    assert(run_a.take(t) =~= run_a.take(ta).take(t));
    assert(run_b.take(t) =~= run_b.take(tb).take(t));
    assert(all_a.take(ta).take(t) =~= all_a.take(t));
    assert(all_b.take(tb).take(t) =~= all_b.take(t));
    assert(run_a.take(t) == run_b.take(t));
    if t < all_a.len() && t < all_b.len() {
        if t < m {
            assert(all_a.take(m)[t] == all_b.take(m)[t]);
        }
        assert(replay::request(all_a[t]) == replay::request(all_b[t]));
        if t < ta {
            assert(run_a.take(ta)[t] == all_a.take(ta)[t]);
            assert(all_a[t] == a[t - before.len()]);
        }
        if t < tb {
            assert(run_b.take(tb)[t] == all_b.take(tb)[t]);
            assert(all_b[t] == b[t - before.len()]);
        }
        reveal(replay::is_answered);
        assert(run_a[t] == run_b[t]);
        if t == ta && t == tb {
            assert(run_a =~= run_a.take(t).push(run_a[t]));
            assert(run_b =~= run_b.take(t).push(run_b[t]));
        }
    }
}

/// Two runs that are answered alike are the same and stopped, or both go through
/// their steps and these are the same, if no world answers both steps alike unless
/// they are the same.
pub proof fn lemma_runs_alike<F: Field, P>(
    world: World<P>,
    before_a: Seq<Step<F, P>>,
    before_b: Seq<Step<F, P>>,
    a: Seq<Step<F, P>>,
    b: Seq<Step<F, P>>,
    after_a: Seq<Step<F, P>>,
    after_b: Seq<Step<F, P>>,
)
    requires
        replay::shapes(before_a) == replay::shapes(before_b),
        replay::is_answered(world, replay::shapes(after_a)),
        replay::is_answered(world, replay::shapes(after_b)),
        reaches(before_a, a, after_a),
        reaches(before_b, b, after_b),
        none_failed(a),
        none_failed(b),
        replay::is_answered(
            either(
                replay::shapes(before_a) + replay::shapes(a),
                replay::shapes(before_a) + replay::shapes(b),
            ),
            replay::shapes(before_a) + replay::shapes(a),
        ) && replay::is_answered(
            either(
                replay::shapes(before_a) + replay::shapes(a),
                replay::shapes(before_a) + replay::shapes(b),
            ),
            replay::shapes(before_a) + replay::shapes(b),
        ) ==> replay::shapes(a) == replay::shapes(b),
    ensures
        (replay::shapes(after_a) == replay::shapes(after_b) && channel::stops_in(
            before_a,
            a,
            after_a,
        ) && channel::stops_in(before_b, b, after_b)) || {
            &&& replay::shapes(a) == replay::shapes(b)
            &&& replay::shapes(before_a + a) == replay::shapes(before_b + b)
            &&& (before_a + a).is_prefix_of(after_a)
            &&& (before_b + b).is_prefix_of(after_b)
        },
{
    lemma_none_failed(a);
    lemma_none_failed(b);
    lemma_reaches_values(before_a, a, after_a);
    lemma_reaches_values(before_b, b, after_b);
    let before = replay::shapes(before_a);
    let (sa, sb) = (replay::shapes(a), replay::shapes(b));
    lemma_values_alike(
        world,
        before,
        sa,
        sb,
        replay::shapes(after_a),
        replay::shapes(after_b),
    );
    replay::lemma_shapes_concat(before_a, a);
    replay::lemma_shapes_concat(before_b, b);
    if channel::stops_in(before, sa, replay::shapes(after_a)) {
        lemma_stopped_short(before, sa, replay::shapes(after_a));
    }
    if channel::stops_in(before, sb, replay::shapes(after_b)) {
        lemma_stopped_short(before, sb, replay::shapes(after_b));
    }
}

} // verus!
