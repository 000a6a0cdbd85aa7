//! The scheduler of one execution context: its queue, the producer-facing
//! `schedule*` operations and the tick driver.
//!
//! The scheduler is an explicit value owned by its context and lent to each
//! operation. While `tick` runs an entry it holds the scheduler, so the entry
//! cannot reach back into it and no work queued meanwhile can be lost.
use vstd::prelude::*;

use crate::task::{keeps_going, Task, StopCondition};
use crate::work::{after_run, Bucket, WorkQueue, WorkSet};

verus! {

/// The entries of a context in the order in which ticks take them: what the
/// bucket holds, then what the scheduler's queue holds.
pub open spec fn pending(queue: Seq<Task>, bucket: Seq<Task>) -> Seq<Task> {
    bucket + queue
}

/// The entry that the next tick runs, if any.
pub open spec fn next_task(queue: Seq<Task>, bucket: Seq<Task>) -> Option<Task> {
    let p = pending(queue, bucket);
    if p.len() == 0 {
        None
    } else {
        Some(p[0])
    }
}

/// Queue and bucket after one tick whose entry returned `v`. The queue is
/// merged into the bucket and the front entry runs. If it stops, the rest
/// stays in the bucket; if it keeps going, the whole bucket, with that entry
/// at its back, returns to the queue.
pub open spec fn tick_next(
    queue: Seq<Task>,
    bucket: Seq<Task>,
    v: StopCondition,
) -> (Seq<Task>, Seq<Task>) {
    let p = pending(queue, bucket);
    if p.len() == 0 {
        (queue, bucket)
    } else if keeps_going(p[0], v) {
        (after_run(p, v), Seq::empty())
    } else {
        (Seq::empty(), after_run(p, v))
    }
}

/// The scheduler of one context: the queue of entries waiting for a tick.
pub struct Scheduler {
    q: WorkQueue,
}

impl View for Scheduler {
    type V = Seq<Task>;

    closed spec fn view(&self) -> Seq<Task> {
        self.q@
    }
}

impl Scheduler {
    /// A scheduler with nothing queued.
    pub fn new() -> (r: Scheduler)
        ensures
            r@ == Seq::<Task>::empty(),
    {
        Scheduler { q: WorkQueue::new() }
    }

    /// The number of entries waiting in the queue.
    pub fn len(&self) -> (r: usize)
        ensures
            r == self@.len(),
    {
        self.q.len()
    }
}

/// Advances the scheduler by one entry. Merges the queue into `bucket`, then
/// runs the bucket's front entry with `run`. If that entry keeps going, the
/// whole bucket is queued again behind everything else. Returns `true` if an
/// entry ran, `false` if there was nothing to run.
pub fn tick<F: Fn(Task) -> StopCondition>(
    s: &mut Scheduler,
    bucket: &mut Bucket,
    run: F,
) -> (r: bool)
    requires
        forall|t: Task| call_requires(run, (t,)),
    ensures
        r == (next_task(old(s)@, old(bucket)@) is Some),
        !r ==> final(s)@ == old(s)@ && final(bucket)@ == old(bucket)@,
        r ==> exists|v: StopCondition|
            {
                &&& (next_task(old(s)@, old(bucket)@)->0 is Repeat ==> call_ensures(
                    run,
                    (next_task(old(s)@, old(bucket)@)->0,),
                    v,
                ))
                &&& (final(s)@, final(bucket)@) == tick_next(old(s)@, old(bucket)@, v)
            },
{
    bucket.fill_from(&mut s.q);
    let ghost p = bucket@;
    assert(p == pending(old(s)@, old(bucket)@));
    match bucket.try_pop_and_run(run) {
        None => {
            assert(old(s)@ =~= Seq::<Task>::empty());
            assert(old(bucket)@ =~= Seq::<Task>::empty());
            false
        },
        Some(StopCondition::Stop) => {
            assert(tick_next(old(s)@, old(bucket)@, StopCondition::Stop).1 == bucket@);
            assert(s@ =~= tick_next(old(s)@, old(bucket)@, StopCondition::Stop).0);
            true
        },
        Some(StopCondition::KeepGoing) => {
            let ghost b = bucket@;
            schedule_bucket(s, bucket);
            assert(s@ =~= b);
            assert(keeps_going(p[0], StopCondition::KeepGoing));
            assert(bucket@ =~= tick_next(old(s)@, old(bucket)@, StopCondition::KeepGoing).1);
            true
        },
    }
}

/// Queues a run-once entry.
pub fn schedule(s: &mut Scheduler, id: u64)
    ensures
        final(s)@ == old(s)@.push(Task::Once(id)),
{
    s.q.push_once(id);
}

/// Queues an entry that runs until it returns `StopCondition::Stop`. Each time it
/// returns `StopCondition::KeepGoing`, the other queued entries get their turn first.
pub fn schedule_fn(s: &mut Scheduler, id: u64)
    ensures
        final(s)@ == old(s)@.push(Task::Repeat(id)),
{
    s.q.push_repeat(id);
}

/// Queues a repeatable entry whose work may change its own state between runs.
pub fn schedule_fnmut(s: &mut Scheduler, id: u64)
    ensures
        final(s)@ == old(s)@.push(Task::Repeat(id)),
{
    s.q.push_repeat(id);
}

/// Queues the members of `set` together, in one slot.
pub fn schedule_set(s: &mut Scheduler, set: WorkSet)
    ensures
        final(s)@ == old(s)@ + set@,
{
    s.q.push_set(set);
}

/// Queues the entries of `q`, in their order.
pub fn schedule_queue(s: &mut Scheduler, q: WorkQueue)
    ensures
        final(s)@ == old(s)@ + q@,
{
    s.q.push_queue(q);
}

/// Queues the entries of `b`, in their order, and leaves `b` empty.
pub fn schedule_bucket(s: &mut Scheduler, b: &mut Bucket)
    ensures
        final(s)@ == old(s)@ + old(b)@,
        final(b)@ == Seq::<Task>::empty(),
{
    s.q.push_bucket(b);
}

} // verus!
