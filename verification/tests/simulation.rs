//! Runs many tasks that share a primitive in an arbitrary order.

use std::collections::VecDeque;
use std::sync::atomic::Ordering::Relaxed;

use saa::entry::Signal;
use saa::sync_primitive::{Acquisition, SyncPrimitive};
use saa::{Lock, Semaphore};

/// Picks the tasks to run.
struct Scheduler {
    runnable: VecDeque<usize>,
    seed: u64,
}

impl Scheduler {
    fn new(num_tasks: usize) -> Self {
        Scheduler {
            runnable: (0..num_tasks).collect(),
            seed: 42,
        }
    }

    fn pick(&mut self) -> Option<usize> {
        if self.runnable.is_empty() {
            return None;
        }
        self.seed = self
            .seed
            .wrapping_mul(6_364_136_223_846_793_005)
            .wrapping_add(1_442_695_040_888_963_407);
        let index = (self.seed >> 33) as usize % self.runnable.len();
        self.runnable.swap_remove_back(index)
    }

    fn resume(&mut self, tasks: Vec<u64>) {
        for task in tasks {
            self.runnable.push_back(task as usize);
        }
    }
}

#[derive(Clone, Copy)]
enum Phase {
    Idle,
    Waiting(usize),
    Holding,
}

/// What a task does in a round.
#[derive(Clone, Copy, Eq, PartialEq)]
enum Action {
    Exclusive,
    Shared,
    Cancel,
}

/// The tasks that have learned that they own the lock.
#[derive(Default)]
struct Owners {
    num_exclusive: usize,
    num_shared: usize,
}

impl Owners {
    fn enter(&mut self, action: Action) {
        assert_eq!(self.num_exclusive, 0);
        if action == Action::Exclusive {
            assert_eq!(self.num_shared, 0);
            self.num_exclusive += 1;
        } else {
            self.num_shared += 1;
            assert!(self.num_shared <= Lock::MAX_SHARED_OWNERS);
        }
    }

    fn leave(&mut self, action: Action) {
        if action == Action::Exclusive {
            self.num_exclusive -= 1;
        } else {
            self.num_shared -= 1;
        }
    }
}

/// Runs the tasks.
///
/// If the main task owns the lock first, they run until all of them have to wait for it, and go on
/// after it has released the lock.
fn run_lock<F: Fn(usize, usize) -> Action>(
    main: Option<Action>,
    num_tasks: usize,
    num_iters: usize,
    action: F,
) {
    let mut lock = Lock::default();
    let mut scheduler = Scheduler::new(num_tasks);
    let mut rounds = vec![0; num_tasks];
    let mut phases = vec![Phase::Idle; num_tasks];
    let mut owners = Owners::default();
    let mut main = main;
    if let Some(main) = main {
        let acquisition = if main == Action::Exclusive {
            lock.lock_sync()
        } else {
            lock.share_sync()
        };
        assert_eq!(acquisition, Acquisition::Done(true));
        owners.enter(main);
    }

    loop {
        let Some(task) = scheduler.pick() else {
            let Some(main) = main.take() else {
                break;
            };
            owners.leave(main);
            if main == Action::Exclusive {
                // Nobody has got past the main task.
                assert!(phases.iter().all(|p| matches!(p, Phase::Waiting(_))));
                assert!(lock.release_lock());
            } else {
                assert!(lock.release_share());
            }
            scheduler.resume(lock.primitive.take_wakeups());
            continue;
        };
        if rounds[task] == num_iters {
            continue;
        }
        let round = action(task, rounds[task]);
        match phases[task] {
            Phase::Idle => {
                let acquisition = match round {
                    Action::Exclusive => lock.lock_sync(),
                    Action::Shared => lock.share_sync(),
                    Action::Cancel => lock.lock_async(),
                };
                match (round, acquisition) {
                    (Action::Cancel, Acquisition::Waiting(entry)) => {
                        lock.primitive.force_remove_wait_queue_entry(entry);
                        rounds[task] += 1;
                    }
                    (Action::Cancel, Acquisition::Done(acquired)) => {
                        assert!(acquired);
                        assert!(lock.release_lock());
                        rounds[task] += 1;
                    }
                    (_, Acquisition::Done(acquired)) => {
                        assert!(acquired);
                        owners.enter(round);
                        phases[task] = Phase::Holding;
                    }
                    (_, Acquisition::Waiting(entry)) => {
                        phases[task] = Phase::Waiting(entry);
                    }
                }
                scheduler.runnable.push_back(task);
            }
            Phase::Waiting(entry) => match lock.primitive.poll_result_sync(entry, task as u64) {
                Signal::Ready(result) => {
                    assert_eq!(result, Lock::ACQUIRED);
                    lock.primitive.discard(entry);
                    owners.enter(round);
                    phases[task] = Phase::Holding;
                    scheduler.runnable.push_back(task);
                }
                Signal::Registered => (),
                Signal::Retry => unreachable!(),
            },
            Phase::Holding => {
                owners.leave(round);
                if round == Action::Exclusive {
                    assert!(lock.is_locked(Relaxed));
                    assert!(lock.release_lock());
                } else {
                    assert!(lock.is_shared(Relaxed));
                    assert!(lock.release_share());
                }
                phases[task] = Phase::Idle;
                rounds[task] += 1;
                scheduler.runnable.push_back(task);
            }
        }
        scheduler.resume(lock.primitive.take_wakeups());
    }

    // Nobody sleeps forever.
    assert!(rounds.iter().all(|r| *r == num_iters));
    assert_eq!((owners.num_exclusive, owners.num_shared), (0, 0));
    assert!(lock.is_free(Relaxed));
    assert_eq!(lock.status().wait_queue_tail_addr, 0);
    assert_eq!(lock.share_sync(), Acquisition::Done(true));
    assert!(lock.release_share());
}

/// Runs the tasks.
///
/// If the main task holds all the permits first, they run until all of them have to wait, and go on
/// after it has released the permits.
fn run_semaphore<F: Fn(usize, usize) -> (usize, bool)>(
    main: bool,
    num_tasks: usize,
    num_iters: usize,
    action: F,
) {
    let mut semaphore = Semaphore::default();
    let mut scheduler = Scheduler::new(num_tasks);
    let mut rounds = vec![0; num_tasks];
    let mut phases = vec![Phase::Idle; num_tasks];
    let mut in_use = 0;
    let mut main_owns = main;
    if main {
        assert_eq!(
            semaphore.acquire_many_sync(Semaphore::MAX_PERMITS),
            Acquisition::Done(true)
        );
        in_use = Semaphore::MAX_PERMITS;
    }

    loop {
        let Some(task) = scheduler.pick() else {
            if !main_owns {
                break;
            }
            main_owns = false;
            // Nobody has got past the main task.
            assert!(phases.iter().all(|p| matches!(p, Phase::Waiting(_))));
            in_use -= Semaphore::MAX_PERMITS;
            assert!(semaphore.release_many(Semaphore::MAX_PERMITS));
            scheduler.resume(semaphore.primitive.take_wakeups());
            continue;
        };
        if rounds[task] == num_iters {
            continue;
        }
        let (count, cancel) = action(task, rounds[task]);
        match phases[task] {
            Phase::Idle => {
                match semaphore.acquire_many_sync(count) {
                    Acquisition::Waiting(entry) if cancel => {
                        semaphore.primitive.force_remove_wait_queue_entry(entry);
                        rounds[task] += 1;
                    }
                    Acquisition::Done(acquired) if cancel => {
                        assert!(acquired);
                        assert!(semaphore.release_many(count));
                        rounds[task] += 1;
                    }
                    Acquisition::Done(acquired) => {
                        assert!(acquired);
                        in_use += count;
                        phases[task] = Phase::Holding;
                    }
                    Acquisition::Waiting(entry) => phases[task] = Phase::Waiting(entry),
                }
                scheduler.runnable.push_back(task);
            }
            Phase::Waiting(entry) => {
                match semaphore.primitive.poll_result_sync(entry, task as u64) {
                    Signal::Ready(result) => {
                        assert_eq!(result, 0);
                        semaphore.primitive.discard(entry);
                        in_use += count;
                        phases[task] = Phase::Holding;
                        scheduler.runnable.push_back(task);
                    }
                    Signal::Registered => (),
                    Signal::Retry => unreachable!(),
                }
            }
            Phase::Holding => {
                assert!(in_use <= Semaphore::MAX_PERMITS);
                in_use -= count;
                assert!(semaphore.release_many(count));
                phases[task] = Phase::Idle;
                rounds[task] += 1;
                scheduler.runnable.push_back(task);
            }
        }
        scheduler.resume(semaphore.primitive.take_wakeups());
    }

    assert!(rounds.iter().all(|r| *r == num_iters));
    assert_eq!(in_use, 0);
    assert_eq!(
        semaphore.available_permits(Relaxed),
        Semaphore::MAX_PERMITS
    );
}

#[test]
fn lock_sync() {
    run_lock(Some(Action::Exclusive), Lock::MAX_SHARED_OWNERS, 256, |_, j| {
        if j % 11 == 0 {
            Action::Exclusive
        } else {
            Action::Shared
        }
    });
}

#[test]
fn lock_exclusive_wait() {
    run_lock(Some(Action::Shared), 4, 2, |i, _| {
        if i == 0 {
            Action::Exclusive
        } else {
            Action::Shared
        }
    });
}

#[test]
fn lock_chaos() {
    run_lock(None, Lock::MAX_SHARED_OWNERS, 256, |i, j| {
        if i % 2 == 0 {
            if j % 11 == 0 {
                Action::Exclusive
            } else {
                Action::Shared
            }
        } else if j % 11 == 1 {
            Action::Cancel
        } else if j % 7 == 0 {
            Action::Exclusive
        } else {
            Action::Shared
        }
    });
}

#[test]
fn semaphore_sync() {
    run_semaphore(true, Semaphore::MAX_PERMITS, 256, |i, _| (i + 1, false));
}

#[test]
fn semaphore_chaos() {
    run_semaphore(false, Semaphore::MAX_PERMITS, 256, |i, j| {
        if i % 2 == 1 && j % 11 == 1 {
            (19, true)
        } else {
            (i + 1, false)
        }
    });
}

fn drop_future() {
    let mut lock = Lock::default();
    assert_eq!(lock.lock_sync(), Acquisition::Done(true));

    let Acquisition::Waiting(first) = lock.lock_sync() else {
        unreachable!()
    };
    let Acquisition::Waiting(second) = lock.share_sync() else {
        unreachable!()
    };

    // The entries are dropped before they are completed.
    let Acquisition::Waiting(exclusive) = lock.lock_async() else {
        unreachable!()
    };
    lock.primitive.force_remove_wait_queue_entry(exclusive);
    let Acquisition::Waiting(shared) = lock.share_async() else {
        unreachable!()
    };
    lock.primitive.force_remove_wait_queue_entry(shared);
    assert!(lock.release_lock());

    assert_eq!(lock.primitive.try_acknowledge_result(first), Some(0));
    assert_eq!(lock.primitive.try_acknowledge_result(second), None);
    assert!(lock.release_lock());
    assert_eq!(lock.primitive.try_acknowledge_result(second), Some(0));
    assert!(lock.release_share());

    assert_eq!(lock.lock_sync(), Acquisition::Done(true));
    assert!(lock.release_lock());
}

fn lock_shared_wait() {
    let num_tasks = 64;
    let mut lock = Lock::default();
    assert_eq!(lock.lock_async(), Acquisition::Done(true));

    let mut entries = Vec::new();
    for i in 0..num_tasks {
        let acquisition = if i % 8 == 0 {
            lock.share_sync()
        } else {
            lock.share_async()
        };
        let Acquisition::Waiting(entry) = acquisition else {
            unreachable!()
        };
        entries.push(entry);
    }
    assert!(lock.release_lock());

    // The oldest tasks share the lock, and the others are served as soon as one of them leaves.
    for entry in entries.iter().take(Lock::MAX_SHARED_OWNERS) {
        assert_eq!(lock.primitive.try_acknowledge_result(*entry), Some(0));
    }
    for entry in entries.iter().skip(Lock::MAX_SHARED_OWNERS) {
        assert_eq!(lock.primitive.try_acknowledge_result(*entry), None);
        assert!(lock.release_share());
        assert_eq!(lock.primitive.try_acknowledge_result(*entry), Some(0));
    }
    for _ in 0..Lock::MAX_SHARED_OWNERS {
        assert!(lock.release_share());
    }
    assert!(!lock.release_share());

    // Each of the tasks comes back.
    for _ in 0..num_tasks {
        assert_eq!(lock.share_async(), Acquisition::Done(true));
        assert!(lock.release_share());
    }

    assert_eq!(lock.lock_async(), Acquisition::Done(true));
    assert!(lock.release_lock());
}

fn semaphore_acquire_wait() {
    let num_tasks = 64;
    let mut semaphore = Semaphore::default();
    assert_eq!(
        semaphore.acquire_many_sync(Semaphore::MAX_PERMITS),
        Acquisition::Done(true)
    );

    let mut entries = Vec::new();
    for i in 0..num_tasks {
        let acquisition = if i % 8 == 0 {
            semaphore.acquire_sync()
        } else {
            semaphore.acquire_async()
        };
        let Acquisition::Waiting(entry) = acquisition else {
            unreachable!()
        };
        entries.push(entry);
    }
    assert!(semaphore.release_many(Semaphore::MAX_PERMITS - 11));
    let num_served = |semaphore: &mut Semaphore| {
        entries
            .iter()
            .filter(|e| semaphore.primitive.try_acknowledge_result(**e).is_some())
            .count()
    };
    assert_eq!(num_served(&mut semaphore), Semaphore::MAX_PERMITS - 11);
    assert!(semaphore.release_many(11));
    assert_eq!(num_served(&mut semaphore), Semaphore::MAX_PERMITS);
    assert!(semaphore.release());
    assert_eq!(num_served(&mut semaphore), num_tasks);
    assert!(semaphore.release_many(Semaphore::MAX_PERMITS));

    assert_eq!(
        semaphore.acquire_many_async(Semaphore::MAX_PERMITS),
        Acquisition::Done(true)
    );
    assert!(semaphore.release_many(Semaphore::MAX_PERMITS));
}

#[test]
fn unit_tests_drop_future() {
    drop_future();
}

#[test]
fn correctness_drop_future() {
    drop_future();
}

#[test]
fn unit_tests_lock_shared_wait() {
    lock_shared_wait();
}

#[test]
fn correctness_lock_shared_wait() {
    lock_shared_wait();
}

#[test]
fn unit_tests_semaphore_acquire_wait() {
    semaphore_acquire_wait();
}

#[test]
fn correctness_semaphore_acquire_wait() {
    semaphore_acquire_wait();
}
