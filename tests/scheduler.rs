use std::cell::{Cell, RefCell};

use scheduler::scheduler::{
    schedule, schedule_bucket, schedule_fn, schedule_fnmut, schedule_queue, schedule_set, tick,
    Scheduler,
};
use scheduler::task::{Task, StopCondition};
use scheduler::work::{Bucket, WorkQueue, WorkSet};

/// A runner that logs each handle it runs and returns `Stop`.
fn logging<'a>(log: &'a RefCell<Vec<u64>>) -> impl Fn(Task) -> StopCondition + 'a {
    move |t: Task| {
        log.borrow_mut().push(t.id());
        StopCondition::Stop
    }
}

#[test]
fn run_once_entries_run_in_order_then_idle() {
    let log = RefCell::new(Vec::new());
    let run = logging(&log);
    let mut s = Scheduler::new();
    for id in 1..=5u64 {
        schedule(&mut s, id);
    }
    let mut b = Bucket::new();
    for _ in 0..5 {
        assert!(tick(&mut s, &mut b, &run));
    }
    assert!(!tick(&mut s, &mut b, &run));
    assert_eq!(*log.borrow(), vec![1, 2, 3, 4, 5]);
    assert_eq!(s.len(), 0);
    assert_eq!(b.len(), 0);
}

#[test]
fn two_run_once_entries_with_fresh_buckets() {
    let log = RefCell::new(Vec::new());
    let run = logging(&log);
    let mut s = Scheduler::new();
    schedule(&mut s, 10);
    schedule(&mut s, 20);
    let mut b1 = Bucket::new();
    assert!(tick(&mut s, &mut b1, &run));
    assert_eq!(*log.borrow(), vec![10]);
    // What the first bucket kept is handed back before a fresh one is used.
    schedule_bucket(&mut s, &mut b1);
    let mut b2 = Bucket::new();
    assert!(tick(&mut s, &mut b2, &run));
    assert_eq!(*log.borrow(), vec![10, 20]);
    let mut b3 = Bucket::new();
    assert!(!tick(&mut s, &mut b3, &run));
}

#[test]
fn two_run_once_entries_with_one_bucket() {
    let log = RefCell::new(Vec::new());
    let run = logging(&log);
    let mut s = Scheduler::new();
    schedule(&mut s, 10);
    schedule(&mut s, 20);
    let mut b = Bucket::new();
    assert!(tick(&mut s, &mut b, &run));
    assert_eq!(*log.borrow(), vec![10]);
    assert!(tick(&mut s, &mut b, &run));
    assert_eq!(*log.borrow(), vec![10, 20]);
    assert!(!tick(&mut s, &mut b, &run));
}

#[test]
fn repeatable_keep_keep_stop_runs_three_times() {
    let calls = Cell::new(0u32);
    let run = |_t: Task| {
        calls.set(calls.get() + 1);
        if calls.get() < 3 {
            StopCondition::KeepGoing
        } else {
            StopCondition::Stop
        }
    };
    let mut s = Scheduler::new();
    schedule_fn(&mut s, 7);
    let mut b = Bucket::new();
    assert!(tick(&mut s, &mut b, &run));
    assert_eq!(calls.get(), 1);
    assert!(tick(&mut s, &mut b, &run));
    assert_eq!(calls.get(), 2);
    assert!(tick(&mut s, &mut b, &run));
    assert_eq!(calls.get(), 3);
    assert!(!tick(&mut s, &mut b, &run));
    assert_eq!(calls.get(), 3);
}

#[test]
fn always_keep_going_never_leaves() {
    let calls = Cell::new(0u32);
    let run = |_t: Task| {
        calls.set(calls.get() + 1);
        StopCondition::KeepGoing
    };
    let mut s = Scheduler::new();
    schedule_fnmut(&mut s, 3);
    let mut b = Bucket::new();
    for _ in 0..100 {
        assert!(tick(&mut s, &mut b, &run));
        assert_eq!(s.len() + b.len(), 1);
    }
    assert_eq!(calls.get(), 100);
}

#[test]
fn keep_going_yields_to_later_entries() {
    let log = RefCell::new(Vec::new());
    let run = |t: Task| {
        log.borrow_mut().push(t.id());
        if t.is_repeatable() {
            StopCondition::KeepGoing
        } else {
            StopCondition::Stop
        }
    };
    let mut s = Scheduler::new();
    schedule_fn(&mut s, 1);
    schedule(&mut s, 2);
    schedule(&mut s, 3);
    let mut b = Bucket::new();
    for _ in 0..5 {
        assert!(tick(&mut s, &mut b, &run));
    }
    assert_eq!(*log.borrow(), vec![1, 2, 3, 1, 1]);
}

#[test]
fn set_members_run_once_in_one_slot() {
    let log = RefCell::new(Vec::new());
    let run = logging(&log);
    let mut s = Scheduler::new();
    schedule(&mut s, 1);
    let mut set = WorkSet::new();
    set.insert(Task::Once(20));
    set.insert(Task::Once(21));
    set.insert(Task::Once(22));
    assert_eq!(set.len(), 3);
    schedule_set(&mut s, set);
    schedule(&mut s, 3);
    assert_eq!(s.len(), 5);
    let mut b = Bucket::new();
    while tick(&mut s, &mut b, &run) {}
    let seen = log.borrow().clone();
    assert_eq!(seen.len(), 5);
    assert_eq!(seen[0], 1);
    assert_eq!(seen[4], 3);
    let mut members = seen[1..4].to_vec();
    members.sort();
    assert_eq!(members, vec![20, 21, 22]);
}

#[test]
fn queue_is_spliced_in_order() {
    let log = RefCell::new(Vec::new());
    let run = logging(&log);
    let mut s = Scheduler::new();
    schedule(&mut s, 1);
    let mut q = WorkQueue::new();
    q.push_once(5);
    q.push_repeat(6);
    q.push_once(7);
    assert_eq!(q.len(), 3);
    schedule_queue(&mut s, q);
    schedule(&mut s, 2);
    let mut b = Bucket::new();
    while tick(&mut s, &mut b, &run) {}
    assert_eq!(*log.borrow(), vec![1, 5, 6, 7, 2]);
}

#[test]
fn draining_leaves_nothing_pending() {
    let calls = Cell::new(0u32);
    let run = |t: Task| {
        calls.set(calls.get() + 1);
        if t.is_repeatable() && calls.get() < 4 {
            StopCondition::KeepGoing
        } else {
            StopCondition::Stop
        }
    };
    let mut s = Scheduler::new();
    schedule_fn(&mut s, 1);
    schedule(&mut s, 2);
    let mut b = Bucket::new();
    let mut ticks = 0u32;
    while tick(&mut s, &mut b, &run) {
        ticks += 1;
    }
    assert_eq!(s.len(), 0);
    assert_eq!(b.len(), 0);
    assert_eq!(ticks, calls.get());
}

#[test]
fn empty_scheduler_has_no_work() {
    let run = |_t: Task| StopCondition::Stop;
    let mut s = Scheduler::new();
    let mut b = Bucket::new();
    assert!(!tick(&mut s, &mut b, &run));
    assert_eq!(s.len(), 0);
}

#[test]
fn schedule_bucket_moves_entries_and_empties_bucket() {
    let mut q = WorkQueue::new();
    q.push_once(1);
    q.push_once(2);
    let mut b = Bucket::new();
    b.fill_from(&mut q);
    assert_eq!(q.len(), 0);
    assert_eq!(b.len(), 2);
    let mut s = Scheduler::new();
    schedule(&mut s, 9);
    schedule_bucket(&mut s, &mut b);
    assert_eq!(b.len(), 0);
    assert_eq!(s.len(), 3);
}

#[test]
fn bucket_pop_run_once_counts_as_stop() {
    let mut q = WorkQueue::new();
    q.push_once(4);
    let mut b = Bucket::new();
    b.fill_from(&mut q);
    assert_eq!(b.try_pop_and_run(|_t: Task| StopCondition::KeepGoing), Some(StopCondition::Stop));
    assert_eq!(b.len(), 0);
    assert_eq!(b.try_pop_and_run(|_t: Task| StopCondition::Stop), None);
}

#[test]
fn bucket_keep_going_goes_to_back() {
    let mut q = WorkQueue::new();
    q.push_repeat(1);
    q.push_once(2);
    let mut b = Bucket::new();
    b.fill_from(&mut q);
    assert_eq!(b.try_pop_and_run(|_t: Task| StopCondition::KeepGoing), Some(StopCondition::KeepGoing));
    assert_eq!(b.len(), 2);
    let log = RefCell::new(Vec::new());
    assert_eq!(b.try_pop_and_run(logging(&log)), Some(StopCondition::Stop));
    assert_eq!(*log.borrow(), vec![2]);
}

#[test]
fn task_handles_and_kinds() {
    assert_eq!(Task::Once(8).id(), 8);
    assert_eq!(Task::Repeat(9).id(), 9);
    assert!(!Task::Once(8).is_repeatable());
    assert!(Task::Repeat(9).is_repeatable());
}

#[test]
fn entries_that_stop_drain_in_as_many_ticks_as_runs() {
    // Handle 1 keeps going twice, handle 2 once, handle 3 runs once.
    let left = RefCell::new(vec![0u32, 2, 1, 0]);
    let run = |t: Task| {
        let mut left = left.borrow_mut();
        let i = t.id() as usize;
        if t.is_repeatable() && left[i] > 0 {
            left[i] -= 1;
            StopCondition::KeepGoing
        } else {
            StopCondition::Stop
        }
    };
    let mut s = Scheduler::new();
    schedule_fn(&mut s, 1);
    schedule_fnmut(&mut s, 2);
    schedule(&mut s, 3);
    let mut b = Bucket::new();
    let mut ticks = 0u32;
    while tick(&mut s, &mut b, &run) {
        ticks += 1;
    }
    assert_eq!(ticks, 3 + 2 + 1);
    assert_eq!(s.len() + b.len(), 0);
}
