//! What holds of every run of ticks, proved over the model that the
//! scheduler's operations are specified against.
use vstd::prelude::*;

use crate::scheduler::{next_task, pending, tick_next};
use crate::task::{keeps_going, Task, StopCondition};
use crate::work::after_run;

verus! {

broadcast use vstd::seq_lib::group_to_multiset_ensures, vstd::multiset::group_multiset_axioms;

/// Queue and bucket after one tick for each condition of `vs`, in order.
pub open spec fn run_ticks(
    queue: Seq<Task>,
    bucket: Seq<Task>,
    vs: Seq<StopCondition>,
) -> (Seq<Task>, Seq<Task>)
    decreases vs.len(),
{
    if vs.len() == 0 {
        (queue, bucket)
    } else {
        let st = run_ticks(queue, bucket, vs.drop_last());
        tick_next(st.0, st.1, vs.last())
    }
}

/// The pending entries after the ticks of `vs`.
pub open spec fn pending_after(
    queue: Seq<Task>,
    bucket: Seq<Task>,
    vs: Seq<StopCondition>,
) -> Seq<Task> {
    let st = run_ticks(queue, bucket, vs);
    pending(st.0, st.1)
}

/// The entry that the tick after those of `vs` runs, if any.
pub open spec fn next_after(
    queue: Seq<Task>,
    bucket: Seq<Task>,
    vs: Seq<StopCondition>,
) -> Option<Task> {
    let st = run_ticks(queue, bucket, vs);
    next_task(st.0, st.1)
}

/// How many times `c` is pending.
pub open spec fn copies(p: Seq<Task>, c: Task) -> nat {
    p.to_multiset().count(c)
}

/// One tick takes the front pending entry; if it keeps going it rejoins the
/// pending entries at their back, else it leaves. With nothing pending a tick
/// changes nothing.
pub proof fn lemma_tick_takes_front(queue: Seq<Task>, bucket: Seq<Task>, v: StopCondition)
    ensures
        pending(queue, bucket).len() == 0 ==> tick_next(queue, bucket, v) == (queue, bucket),
        pending(queue, bucket).len() > 0 ==> pending(
            tick_next(queue, bucket, v).0,
            tick_next(queue, bucket, v).1,
        ) == after_run(pending(queue, bucket), v),
{
    let p = pending(queue, bucket);
    let st = tick_next(queue, bucket, v);
    if p.len() > 0 {
        assert(pending(st.0, st.1) =~= after_run(p, v));
    }
}

/// A tick removes one copy of the entry it runs when that entry stops, and
/// leaves the copies of every other entry as they were.
pub proof fn lemma_tick_copies(queue: Seq<Task>, bucket: Seq<Task>, v: StopCondition, c: Task)
    requires
        pending(queue, bucket).len() > 0,
    ensures
        copies(pending(tick_next(queue, bucket, v).0, tick_next(queue, bucket, v).1), c)
            == if pending(
            queue,
            bucket,
        )[0] == c && !keeps_going(c, v) {
            copies(pending(queue, bucket), c) - 1
        } else {
            copies(pending(queue, bucket), c) as int
        },
{
    let p = pending(queue, bucket);
    lemma_tick_takes_front(queue, bucket, v);
    let rest = p.subrange(1, p.len() as int);
    assert(rest =~= p.remove(0));
    assert(p.to_multiset().count(p[0]) > 0);
}

/// A pending entry that no tick can run again stays gone: an entry with no
/// pending copy is never run by any later tick.
pub proof fn lemma_gone_stays_gone(
    queue: Seq<Task>,
    bucket: Seq<Task>,
    vs: Seq<StopCondition>,
    c: Task,
)
    requires
        !pending(queue, bucket).contains(c),
    ensures
        !pending_after(queue, bucket, vs).contains(c),
        next_after(queue, bucket, vs) != Some(c),
    decreases vs.len(),
{
    if vs.len() > 0 {
        lemma_gone_stays_gone(queue, bucket, vs.drop_last(), c);
        let st = run_ticks(queue, bucket, vs.drop_last());
        if pending(st.0, st.1).len() > 0 {
            lemma_tick_copies(st.0, st.1, vs.last(), c);
        }
    }
    let st = run_ticks(queue, bucket, vs);
    if pending(st.0, st.1).len() > 0 {
        assert(pending(st.0, st.1).contains(pending(st.0, st.1)[0]));
    }
}

/// While no entry that runs keeps going, ticks take the pending entries
/// strictly in order, each exactly once: after `i` ticks the `i`-th entry is
/// next, and once all have run there is nothing left to run.
pub proof fn lemma_in_order_while_none_keep_going(
    queue: Seq<Task>,
    bucket: Seq<Task>,
    vs: Seq<StopCondition>,
)
    requires
        vs.len() <= pending(queue, bucket).len(),
        forall|i: int|
            0 <= i < vs.len() ==> !keeps_going(pending(queue, bucket)[i], #[trigger] vs[i]),
    ensures
        pending_after(queue, bucket, vs) == pending(queue, bucket).skip(vs.len() as int),
        next_after(queue, bucket, vs) == if vs.len()
            < pending(queue, bucket).len() {
            Some(pending(queue, bucket)[vs.len() as int])
        } else {
            None
        },
    decreases vs.len(),
{
    let p = pending(queue, bucket);
    if vs.len() > 0 {
        let prev = vs.drop_last();
        assert forall|i: int|
            0 <= i < prev.len() implies !keeps_going(p[i], #[trigger] prev[i]) by {
            assert(prev[i] == vs[i]);
        }
        lemma_in_order_while_none_keep_going(queue, bucket, prev);
        let st = run_ticks(queue, bucket, prev);
        lemma_tick_takes_front(st.0, st.1, vs.last());
        assert(vs.last() == vs[vs.len() - 1]);
        assert(pending(st.0, st.1)[0] == p[vs.len() - 1]);
        assert(after_run(pending(st.0, st.1), vs.last()) =~= p.skip(vs.len() as int));
    } else {
        assert(p.skip(0) =~= p);
    }
}

/// Every entry runs exactly once when all of them are run-once entries:
/// `n` ticks run the `n` pending entries in order and leave nothing pending.
pub proof fn lemma_run_once_entries_drain(
    queue: Seq<Task>,
    bucket: Seq<Task>,
    vs: Seq<StopCondition>,
)
    requires
        vs.len() == pending(queue, bucket).len(),
        forall|i: int|
            0 <= i < pending(queue, bucket).len() ==> #[trigger] pending(queue, bucket)[i] is Once,
    ensures
        pending_after(queue, bucket, vs).len() == 0,
        next_after(queue, bucket, vs) is None,
{
    lemma_in_order_while_none_keep_going(queue, bucket, vs);
}

/// Whether `c` returned `KeepGoing` at every tick of `vs` that ran it.
pub open spec fn keeps_going_whenever_run(
    queue: Seq<Task>,
    bucket: Seq<Task>,
    vs: Seq<StopCondition>,
    c: Task,
) -> bool {
    forall|j: int|
        0 <= j < vs.len() && next_after(queue, bucket, vs.take(j))
            == Some(c) ==> #[trigger] vs[j] == StopCondition::KeepGoing
}

/// A repeatable entry that keeps going whenever it runs never leaves: its
/// pending copies stay as many as they were, so every tick finds work.
pub proof fn lemma_keep_going_never_leaves(
    queue: Seq<Task>,
    bucket: Seq<Task>,
    vs: Seq<StopCondition>,
    c: Task,
)
    requires
        c is Repeat,
        keeps_going_whenever_run(queue, bucket, vs, c),
    ensures
        copies(pending_after(queue, bucket, vs), c) == copies(pending(queue, bucket), c),
        pending(queue, bucket).contains(c) ==> next_after(queue, bucket, vs) is Some,
    decreases vs.len(),
{
    if vs.len() > 0 {
        let prev = vs.drop_last();
        assert forall|j: int|
            0 <= j < prev.len() && next_after(queue, bucket, prev.take(j)) == Some(c)
            implies #[trigger] prev[j] == StopCondition::KeepGoing by {
            assert(prev.take(j) =~= vs.take(j));
            assert(prev[j] == vs[j]);
        }
        lemma_keep_going_never_leaves(queue, bucket, prev, c);
        let st = run_ticks(queue, bucket, prev);
        assert(vs.take(prev.len() as int) =~= prev);
        assert(vs.last() == vs[prev.len() as int]);
        if pending(st.0, st.1).len() > 0 {
            lemma_tick_copies(st.0, st.1, vs.last(), c);
        }
    }
    let st = run_ticks(queue, bucket, vs);
    if pending(queue, bucket).contains(c) {
        assert(pending(st.0, st.1).to_multiset().count(c) > 0);
        assert(pending(st.0, st.1).contains(c));
    }
}

/// How many of the ticks of `vs` ran `c`.
pub open spec fn runs_of(
    queue: Seq<Task>,
    bucket: Seq<Task>,
    vs: Seq<StopCondition>,
    c: Task,
) -> nat
    decreases vs.len(),
{
    if vs.len() == 0 {
        0
    } else {
        let st = run_ticks(queue, bucket, vs.drop_last());
        runs_of(queue, bucket, vs.drop_last(), c) + if next_task(st.0, st.1) == Some(c) {
            1nat
        } else {
            0nat
        }
    }
}

/// Whether, in the ticks of `vs`, `c` kept going on each of its first `k`
/// runs and stopped on every run after those. A run-once entry stops at its
/// first run, so it meets this with `k == 0`.
pub open spec fn stops_after(
    queue: Seq<Task>,
    bucket: Seq<Task>,
    vs: Seq<StopCondition>,
    c: Task,
    k: nat,
) -> bool {
    forall|j: int|
        0 <= j < vs.len() && next_after(queue, bucket, vs.take(j)) == Some(c) ==> (keeps_going(
            c,
            #[trigger] vs[j],
        ) <==> runs_of(queue, bucket, vs.take(j), c) < k)
}

/// What holds of the ticks of `vs` holds of all of them but the last.
proof fn lemma_stops_after_prefix(
    queue: Seq<Task>,
    bucket: Seq<Task>,
    vs: Seq<StopCondition>,
    c: Task,
    k: nat,
)
    requires
        vs.len() > 0,
        stops_after(queue, bucket, vs, c, k),
    ensures
        stops_after(queue, bucket, vs.drop_last(), c, k),
        vs.take(vs.len() - 1) == vs.drop_last(),
        vs.last() == vs[vs.len() - 1],
{
    let prev = vs.drop_last();
    assert forall|j: int|
        0 <= j < prev.len() && next_after(queue, bucket, prev.take(j)) == Some(c)
        implies (keeps_going(c, #[trigger] prev[j]) <==> runs_of(queue, bucket, prev.take(j), c) < k) by {
        assert(prev.take(j) =~= vs.take(j));
        assert(prev[j] == vs[j]);
    }
    assert(vs.take(vs.len() - 1) =~= prev);
}

/// An entry, pending once, that keeps going `k` times and then
/// stops runs at most `k + 1` times: until its last run it stays pending
/// once, and after it, it is gone and no tick runs it again.
pub proof fn lemma_runs_k_plus_one_times(
    queue: Seq<Task>,
    bucket: Seq<Task>,
    vs: Seq<StopCondition>,
    c: Task,
    k: nat,
)
    requires
        copies(pending(queue, bucket), c) == 1,
        stops_after(queue, bucket, vs, c, k),
    ensures
        runs_of(queue, bucket, vs, c) <= k ==> copies(pending_after(queue, bucket, vs), c) == 1,
        runs_of(queue, bucket, vs, c) <= k + 1,
        runs_of(queue, bucket, vs, c) == k + 1 ==> !pending_after(queue, bucket, vs).contains(c),
    decreases vs.len(),
{
    if vs.len() > 0 {
        let prev = vs.drop_last();
        lemma_stops_after_prefix(queue, bucket, vs, c, k);
        lemma_runs_k_plus_one_times(queue, bucket, prev, c, k);
        let st = run_ticks(queue, bucket, prev);
        assert(vs.take(prev.len() as int) =~= prev);
        assert(vs.last() == vs[prev.len() as int]);
        let p = pending(st.0, st.1);
        if p.len() > 0 {
            lemma_tick_copies(st.0, st.1, vs.last(), c);
            assert(p.contains(p[0]));
        }
    }
}

/// A set queued between other run-once entries takes one slot among them:
/// the ticks after those queued before it run its members, each once, before
/// any entry queued after it.
pub proof fn lemma_set_takes_one_slot(
    before: Seq<Task>,
    set: Seq<Task>,
    after: Seq<Task>,
    vs: Seq<StopCondition>,
)
    requires
        forall|i: int|
            0 <= i < (before + set + after).len() ==> #[trigger] (before + set + after)[i] is Once,
        before.len() <= vs.len() < before.len() + set.len(),
    ensures
        next_task(
            run_ticks(before + set + after, Seq::empty(), vs).0,
            run_ticks(before + set + after, Seq::empty(), vs).1,
        ) == Some(set[vs.len() - before.len()]),
{
    let q = before + set + after;
    assert(pending(q, Seq::empty()) =~= q);
    lemma_in_order_while_none_keep_going(q, Seq::empty(), vs);
    assert(q[vs.len() as int] == set[vs.len() - before.len()]);
}

/// Every tick brings each pending entry behind the front one place closer,
/// whatever the entries ahead of it return: the entry `i` places from the
/// front is the one that runs after `i` ticks.
pub proof fn lemma_turn_comes(queue: Seq<Task>, bucket: Seq<Task>, vs: Seq<StopCondition>, i: int)
    requires
        vs.len() <= i < pending(queue, bucket).len(),
    ensures
        pending_after(queue, bucket, vs).len() > i - vs.len(),
        pending_after(queue, bucket, vs)[i - vs.len()] == pending(queue, bucket)[i],
        vs.len() == i ==> next_after(queue, bucket, vs) == Some(
            pending(queue, bucket)[i],
        ),
    decreases vs.len(),
{
    if vs.len() > 0 {
        let prev = vs.drop_last();
        lemma_turn_comes(queue, bucket, prev, i);
        let st = run_ticks(queue, bucket, prev);
        lemma_tick_takes_front(st.0, st.1, vs.last());
    }
}

/// Ticks never add pending entries.
proof fn lemma_pending_never_grows(queue: Seq<Task>, bucket: Seq<Task>, vs: Seq<StopCondition>)
    ensures
        pending_after(queue, bucket, vs).len() <= pending(queue, bucket).len(),
    decreases vs.len(),
{
    if vs.len() > 0 {
        lemma_pending_never_grows(queue, bucket, vs.drop_last());
        let st = run_ticks(queue, bucket, vs.drop_last());
        lemma_tick_takes_front(st.0, st.1, vs.last());
    }
}

/// Where `c` stands among the pending entries while it has runs left, and a
/// bound on that place that shrinks with every tick.
proof fn lemma_place_of(
    queue: Seq<Task>,
    bucket: Seq<Task>,
    vs: Seq<StopCondition>,
    c: Task,
    k: nat,
) -> (idx: int)
    requires
        copies(pending(queue, bucket), c) == 1,
        stops_after(queue, bucket, vs, c, k),
    ensures
        runs_of(queue, bucket, vs, c) <= k ==> {
            &&& 0 <= idx < pending_after(queue, bucket, vs).len()
            &&& pending_after(queue, bucket, vs)[idx] == c
            &&& vs.len() + idx <= runs_of(queue, bucket, vs, c) * pending(queue, bucket).len()
                + pending(queue, bucket).len() - 1
        },
    decreases vs.len(),
{
    let p = pending(queue, bucket);
    let len = p.len();
    lemma_runs_k_plus_one_times(queue, bucket, vs, c, k);
    if vs.len() == 0 {
        assert(p.contains(c));
        let i = choose|i: int| 0 <= i < p.len() && p[i] == c;
        i
    } else {
        let prev = vs.drop_last();
        lemma_stops_after_prefix(queue, bucket, vs, c, k);
        let i = lemma_place_of(queue, bucket, prev, c, k);
        lemma_runs_k_plus_one_times(queue, bucket, prev, c, k);
        lemma_pending_never_grows(queue, bucket, prev);
        let st = run_ticks(queue, bucket, prev);
        let q = pending(st.0, st.1);
        let r = runs_of(queue, bucket, prev, c);
        assert(vs.take(prev.len() as int) =~= prev);
        assert(vs.last() == vs[prev.len() as int]);
        if r <= k && runs_of(queue, bucket, vs, c) <= k {
            lemma_tick_takes_front(st.0, st.1, vs.last());
            if i == 0 {
                assert(q[0] == c);
                assert(keeps_going(c, vs.last()));
                assert((r + 1) * len == r * len + len) by (nonlinear_arith);
                (q.len() - 1) as int
            } else {
                i - 1
            }
        } else {
            0
        }
    }
}

/// An entry, pending once, that keeps going `k` times and then
/// stops runs exactly `k + 1` times over any `(k + 1) * n` ticks, where `n`
/// is the number of pending entries at the start.
pub proof fn lemma_runs_exactly_k_plus_one_times(
    queue: Seq<Task>,
    bucket: Seq<Task>,
    vs: Seq<StopCondition>,
    c: Task,
    k: nat,
)
    requires
        copies(pending(queue, bucket), c) == 1,
        stops_after(queue, bucket, vs, c, k),
        vs.len() >= (k + 1) * pending(queue, bucket).len(),
    ensures
        runs_of(queue, bucket, vs, c) == k + 1,
        !pending_after(queue, bucket, vs).contains(c),
{
    let len = pending(queue, bucket).len();
    lemma_runs_k_plus_one_times(queue, bucket, vs, c, k);
    let idx = lemma_place_of(queue, bucket, vs, c, k);
    let r = runs_of(queue, bucket, vs, c);
    if r <= k {
        assert(r * len <= k * len) by (nonlinear_arith)
            requires
                r <= k,
        ;
        assert((k + 1) * len == k * len + len) by (nonlinear_arith);
    }
}

/// The runs that the entries of `p` have left, entry `c` having `left(c)`.
pub open spec fn runs_left(p: Seq<Task>, left: spec_fn(Task) -> int) -> int
    decreases p.len(),
{
    if p.len() == 0 {
        0
    } else {
        left(p[0]) + runs_left(p.drop_first(), left)
    }
}

/// The runs that entry `c` has left after the ticks of `vs`, when it is to
/// run `k(c) + 1` times in all.
pub open spec fn left_after(
    queue: Seq<Task>,
    bucket: Seq<Task>,
    vs: Seq<StopCondition>,
    k: spec_fn(Task) -> nat,
) -> spec_fn(Task) -> int {
    |c: Task| k(c) + 1 - runs_of(queue, bucket, vs, c)
}

proof fn lemma_runs_left_push(p: Seq<Task>, x: Task, left: spec_fn(Task) -> int)
    ensures
        runs_left(p.push(x), left) == runs_left(p, left) + left(x),
    decreases p.len(),
{
    if p.len() > 0 {
        lemma_runs_left_push(p.drop_first(), x, left);
        assert(p.push(x).drop_first() =~= p.drop_first().push(x));
        assert(p.push(x)[0] == p[0]);
    } else {
        assert(p.push(x).drop_first() =~= Seq::<Task>::empty());
        assert(runs_left(Seq::<Task>::empty(), left) == 0);
        assert(p.push(x)[0] == x);
    }
}

proof fn lemma_runs_left_agree(p: Seq<Task>, f: spec_fn(Task) -> int, g: spec_fn(Task) -> int)
    requires
        forall|i: int| 0 <= i < p.len() ==> f(#[trigger] p[i]) == g(p[i]),
    ensures
        runs_left(p, f) == runs_left(p, g),
    decreases p.len(),
{
    if p.len() > 0 {
        let rest = p.drop_first();
        assert forall|i: int| 0 <= i < rest.len() implies f(#[trigger] rest[i]) == g(rest[i]) by {
            assert(rest[i] == p[i + 1]);
        }
        lemma_runs_left_agree(rest, f, g);
    }
}

proof fn lemma_runs_left_at_least_len(p: Seq<Task>, f: spec_fn(Task) -> int)
    requires
        forall|i: int| 0 <= i < p.len() ==> f(#[trigger] p[i]) >= 1,
    ensures
        runs_left(p, f) >= p.len(),
    decreases p.len(),
{
    if p.len() > 0 {
        let rest = p.drop_first();
        assert forall|i: int| 0 <= i < rest.len() implies f(#[trigger] rest[i]) >= 1 by {
            assert(rest[i] == p[i + 1]);
        }
        lemma_runs_left_at_least_len(rest, f);
    }
}

/// Each tick that finds work uses up one of the runs left.
proof fn lemma_drain_measure(
    queue: Seq<Task>,
    bucket: Seq<Task>,
    vs: Seq<StopCondition>,
    k: spec_fn(Task) -> nat,
)
    requires
        forall|c: Task| copies(pending(queue, bucket), c) <= 1,
        forall|c: Task|
            pending(queue, bucket).contains(c) ==> stops_after(queue, bucket, vs, c, k(c)),
    ensures
        pending_after(queue, bucket, vs).len() == 0 || runs_left(
            pending_after(queue, bucket, vs),
            left_after(queue, bucket, vs, k),
        ) + vs.len() <= runs_left(
            pending(queue, bucket),
            left_after(queue, bucket, Seq::empty(), k),
        ),
    decreases vs.len(),
{
    let p = pending(queue, bucket);
    if vs.len() > 0 {
        let prev = vs.drop_last();
        assert forall|c: Task| p.contains(c) implies stops_after(queue, bucket, prev, c, k(c)) by {
            lemma_stops_after_prefix(queue, bucket, vs, c, k(c));
        }
        lemma_drain_measure(queue, bucket, prev, k);
        let st = run_ticks(queue, bucket, prev);
        let pp = pending(st.0, st.1);
        lemma_tick_takes_front(st.0, st.1, vs.last());
        if pp.len() > 0 {
            let c = pp[0];
            assert(pp.contains(c));
            if !p.contains(c) {
                lemma_gone_stays_gone(queue, bucket, prev, c);
            }
            lemma_stops_after_prefix(queue, bucket, vs, c, k(c));
            lemma_runs_k_plus_one_times(queue, bucket, prev, c, k(c));
            let rest = pp.subrange(1, pp.len() as int);
            assert(rest =~= pp.remove(0));
            assert(rest =~= pp.drop_first());
            assert(copies(pp, c) == 1);
            assert(pp.remove(0).to_multiset() == pp.to_multiset().remove(c));
            assert(rest.to_multiset().count(c) == 0);
            assert(!rest.contains(c));
            let fp = left_after(queue, bucket, prev, k);
            let fv = left_after(queue, bucket, vs, k);
            assert(next_after(queue, bucket, prev) == Some(c));
            assert forall|i: int|
                0 <= i < rest.len() implies fv(#[trigger] rest[i]) == fp(rest[i]) by {
                assert(rest.contains(rest[i]));
            }
            lemma_runs_left_agree(rest, fv, fp);
            assert(runs_of(queue, bucket, vs, c) == runs_of(queue, bucket, prev, c) + 1);
            assert(fv(c) == fp(c) - 1);
            assert(runs_left(pp, fp) == fp(c) + runs_left(rest, fp));
            let v = vs.last();
            if keeps_going(c, v) {
                lemma_runs_left_push(rest, c, fv);
                assert(pending_after(queue, bucket, vs) == rest.push(c));
            } else {
                assert(vs[prev.len() as int] == v);
                assert(vs.take(prev.len() as int) == prev);
                assert(runs_of(queue, bucket, prev, c) >= k(c));
                assert(fp(c) == 1);
                assert(pending_after(queue, bucket, vs) == rest);
            }
        }
    } else {
        assert(vs =~= Seq::<StopCondition>::empty());
    }
}

/// Ticks drain a context whose entries each stop after a known number of
/// runs, and whose entries are pending once each: once there have been as
/// many ticks as those runs add up to, nothing is pending. A run-once entry
/// counts with `k(c) == 0`.
pub proof fn lemma_entries_that_stop_drain(
    queue: Seq<Task>,
    bucket: Seq<Task>,
    vs: Seq<StopCondition>,
    k: spec_fn(Task) -> nat,
)
    requires
        forall|c: Task| copies(pending(queue, bucket), c) <= 1,
        forall|c: Task|
            pending(queue, bucket).contains(c) ==> stops_after(queue, bucket, vs, c, k(c)),
        vs.len() >= runs_left(pending(queue, bucket), |c: Task| (k(c) + 1) as int),
    ensures
        pending_after(queue, bucket, vs).len() == 0,
        next_after(queue, bucket, vs) is None,
{
    let p = pending(queue, bucket);
    lemma_drain_measure(queue, bucket, vs, k);
    let start = left_after(queue, bucket, Seq::empty(), k);
    lemma_runs_left_agree(p, start, |c: Task| (k(c) + 1) as int);
    let pa = pending_after(queue, bucket, vs);
    let fv = left_after(queue, bucket, vs, k);
    if pa.len() > 0 {
        assert forall|i: int| 0 <= i < pa.len() implies fv(#[trigger] pa[i]) >= 1 by {
            let x = pa[i];
            assert(pa.contains(x));
            if !p.contains(x) {
                lemma_gone_stays_gone(queue, bucket, vs, x);
            }
            lemma_runs_k_plus_one_times(queue, bucket, vs, x, k(x));
        }
        lemma_runs_left_at_least_len(pa, fv);
    }
}

} // verus!
