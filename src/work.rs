//! The containers that hold pending work: sets, queues and buckets.
use vstd::prelude::*;

use crate::task::{keeps_going, Task, StopCondition};

verus! {

/// What a bucket holds after its front entry ran and returned `v`: the front
/// entry leaves, and if it keeps going it goes to the back, behind the rest.
pub open spec fn after_run(b: Seq<Task>, v: StopCondition) -> Seq<Task>
    recommends
        b.len() > 0,
{
    let rest = b.subrange(1, b.len() as int);
    if keeps_going(b[0], v) {
        rest.push(b[0])
    } else {
        rest
    }
}

/// A batch of entries that is queued as one unit.
pub struct WorkSet {
    items: Vec<Task>,
}

impl View for WorkSet {
    type V = Seq<Task>;

    closed spec fn view(&self) -> Seq<Task> {
        self.items@
    }
}

impl WorkSet {
    /// An empty set.
    pub fn new() -> (r: WorkSet)
        ensures
            r@ == Seq::<Task>::empty(),
    {
        WorkSet { items: Vec::new() }
    }

    /// Adds `t` to the set.
    pub fn insert(&mut self, t: Task)
        ensures
            final(self)@ == old(self)@.push(t),
    {
        self.items.push(t);
    }

    /// The number of entries in the set.
    pub fn len(&self) -> (r: usize)
        ensures
            r == self@.len(),
    {
        self.items.len()
    }
}

/// An ordered sequence of entries; entries keep their order of insertion.
pub struct WorkQueue {
    items: Vec<Task>,
}

impl View for WorkQueue {
    type V = Seq<Task>;

    closed spec fn view(&self) -> Seq<Task> {
        self.items@
    }
}

impl WorkQueue {
    /// An empty queue.
    pub fn new() -> (r: WorkQueue)
        ensures
            r@ == Seq::<Task>::empty(),
    {
        WorkQueue { items: Vec::new() }
    }

    /// Appends a run-once entry.
    pub fn push_once(&mut self, id: u64)
        ensures
            final(self)@ == old(self)@.push(Task::Once(id)),
    {
        self.items.push(Task::Once(id));
    }

    /// Appends a repeatable entry.
    pub fn push_repeat(&mut self, id: u64)
        ensures
            final(self)@ == old(self)@.push(Task::Repeat(id)),
    {
        self.items.push(Task::Repeat(id));
    }

    /// Appends the members of `s`, side by side, in one slot.
    pub fn push_set(&mut self, s: WorkSet)
        ensures
            final(self)@ == old(self)@ + s@,
    {
        let mut s = s;
        self.items.append(&mut s.items);
    }

    /// Appends the entries of `q`, in their order.
    pub fn push_queue(&mut self, q: WorkQueue)
        ensures
            final(self)@ == old(self)@ + q@,
    {
        let mut q = q;
        self.items.append(&mut q.items);
    }

    /// Moves the entries of `b`, in their order, to the back; `b` is left empty.
    pub fn push_bucket(&mut self, b: &mut Bucket)
        ensures
            final(self)@ == old(self)@ + old(b)@,
            final(b)@ == Seq::<Task>::empty(),
    {
        self.items.append(&mut b.items);
    }

    /// The number of entries in the queue.
    pub fn len(&self) -> (r: usize)
        ensures
            r == self@.len(),
    {
        self.items.len()
    }
}

/// A caller-owned working set from which one tick takes its entry.
pub struct Bucket {
    items: Vec<Task>,
}

impl View for Bucket {
    type V = Seq<Task>;

    closed spec fn view(&self) -> Seq<Task> {
        self.items@
    }
}

impl Bucket {
    /// An empty bucket.
    pub fn new() -> (r: Bucket)
        ensures
            r@ == Seq::<Task>::empty(),
    {
        Bucket { items: Vec::new() }
    }

    /// Moves every entry of `q` to the back of the bucket; `q` is left empty.
    pub fn fill_from(&mut self, q: &mut WorkQueue)
        ensures
            final(self)@ == old(self)@ + old(q)@,
            final(q)@ == Seq::<Task>::empty(),
    {
        self.items.append(&mut q.items);
    }

    /// Takes the front entry and runs it with `run`. A run-once entry counts as
    /// having returned `Stop`. An entry that keeps going is put back at the
    /// back of the bucket. Returns `None`, and changes nothing, when the bucket
    /// is empty.
    pub fn try_pop_and_run<F: Fn(Task) -> StopCondition>(
        &mut self,
        run: F,
    ) -> (r: Option<StopCondition>)
        requires
            forall|t: Task| call_requires(run, (t,)),
        ensures
            match r {
                None => old(self)@.len() == 0 && final(self)@ == old(self)@,
                Some(v) => {
                    &&& old(self)@.len() > 0
                    &&& old(self)@[0] is Once ==> v == StopCondition::Stop
                    &&& old(self)@[0] is Repeat ==> call_ensures(run, (old(self)@[0],), v)
                    &&& final(self)@ == after_run(old(self)@, v)
                },
            },
    {
        if self.items.len() == 0 {
            return None;
        }
        let t = self.items.remove(0);
        let condition = run(t);
        let v = match t {
            Task::Once(_) => StopCondition::Stop,
            Task::Repeat(_) => condition,
        };
        if t.is_repeatable() && v == StopCondition::KeepGoing {
            self.items.push(t);
        }
        proof {
            assert(old(self)@.remove(0) =~= old(self)@.subrange(1, old(self)@.len() as int));
        }
        Some(v)
    }

    /// The number of entries in the bucket.
    pub fn len(&self) -> (r: usize)
        ensures
            r == self@.len(),
    {
        self.items.len()
    }
}

} // verus!
