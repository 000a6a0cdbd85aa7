use vstd::prelude::*;

verus! {

/// What a repeatable entry returns after it has run.
#[derive(Clone, Copy, Debug, PartialEq, Eq, Structural)]
pub enum StopCondition {
    /// The entry is done and leaves the scheduler.
    Stop,
    /// The entry, and whatever waited beside it, is kept for a later tick.
    KeepGoing,
}

/// A runnable unit, named by a handle that its owner maps to the work to do.
#[derive(Clone, Copy, Debug, PartialEq, Eq, Structural)]
pub enum Task {
    /// Runs once, then is discarded.
    Once(u64),
    /// Runs until it returns `StopCondition::Stop`.
    Repeat(u64),
}

/// Whether `t`, having returned `v`, stays in the scheduler.
pub open spec fn keeps_going(t: Task, v: StopCondition) -> bool {
    t is Repeat && v == StopCondition::KeepGoing
}

impl Task {
    /// The handle that names this unit's work.
    pub fn id(&self) -> (r: u64)
        ensures
            r == match *self {
                Task::Once(i) => i,
                Task::Repeat(i) => i,
            },
    {
        match *self {
            Task::Once(i) => i,
            Task::Repeat(i) => i,
        }
    }

    /// Whether this unit may be run more than once.
    pub fn is_repeatable(&self) -> (r: bool)
        ensures
            r == (*self is Repeat),
    {
        matches!(*self, Task::Repeat(_))
    }
}

} // verus!
