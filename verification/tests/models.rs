//! Explores the interleavings of threads that share a primitive.

use std::collections::HashMap;
use std::sync::atomic::Ordering;
use std::sync::atomic::Ordering::{AcqRel, Acquire, Relaxed, Release};
use std::sync::{Arc, Mutex};

use loom::sync::atomic::{AtomicU16, AtomicUsize};
use loom::thread::{current, park, spawn, yield_now, Thread};

use saa::entry::{Cell, Context, EntryCell, Signal, Wakers};
use saa::memory::{Entries, Memory, Room, Turns};
use saa::opcode::Opcode;
use saa::sync_primitive::{Acquisition, SyncPrimitive};
use saa::gate::State;
use saa::{Barrier, Gate, Lock, Pager, Semaphore};

/// A wait queue entry.
struct Slot {
    next: AtomicUsize,
    prev: AtomicUsize,
    opcode: Opcode,
    bits: AtomicU16,
    thread: Mutex<Option<Thread>>,
    context: Mutex<Context>,
}

/// The memory of a primitive.
struct Shared {
    state: AtomicUsize,
    limit: usize,
    slots: Mutex<(usize, HashMap<usize, Arc<Slot>>)>,
}

/// Gives a thread access to a primitive.
#[derive(Clone)]
struct Handle(Arc<Shared>);

/// Gives a thread access to an entry.
struct Access(Arc<Slot>);

impl Handle {
    fn new(state: usize, limit: usize) -> Self {
        Handle(Arc::new(Shared {
            state: AtomicUsize::new(state),
            limit,
            slots: Mutex::new((0, HashMap::new())),
        }))
    }

    fn slot(&self, entry: usize) -> Arc<Slot> {
        self.0.slots.lock().unwrap().1[&entry].clone()
    }

    /// Blocks the thread until the entry is handed a result.
    fn wait(&mut self, entry: usize) -> u8 {
        let mut access = Access(self.slot(entry));
        loop {
            match access.poll_result_sync(current()) {
                Signal::Ready(result) => {
                    self.discard(entry);
                    return result;
                }
                Signal::Registered => park(),
                Signal::Retry => yield_now(),
            }
        }
    }

    /// Blocks the thread until the resources are acquired.
    fn block_on(&mut self, acquisition: Acquisition) -> bool {
        match acquisition {
            Acquisition::Done(acquired) => acquired,
            Acquisition::Waiting(entry) => self.wait(entry) == 0,
        }
    }
}

impl EntryCell for Access {
    type Waker = Thread;

    fn cell(&self) -> Cell<Thread> {
        unreachable!()
    }

    fn pending(&self) -> Turns {
        unreachable!()
    }

    fn notified(&self) -> Wakers<Thread> {
        unreachable!()
    }

    fn context(&self) -> Context {
        unreachable!()
    }

    fn is_sync(&self) -> bool {
        self.0.context.lock().unwrap().is_sync
    }

    fn is_enqueued(&self) -> bool {
        self.0.context.lock().unwrap().enqueued
    }

    fn load(&mut self) -> u16 {
        self.0.bits.load(Acquire)
    }

    fn compare_exchange_weak(&mut self, current: u16, new: u16) -> Result<u16, u16> {
        self.0.bits.compare_exchange_weak(current, new, AcqRel, Acquire)
    }

    fn fetch_or(&mut self, flags: u16) -> u16 {
        self.0.bits.fetch_or(flags, AcqRel)
    }

    fn put_waker(&mut self, waker: Thread) {
        // Nobody else accesses the thread at the same time.
        self.0.thread.try_lock().unwrap().replace(waker);
    }

    fn take_waker(&mut self) -> Option<Thread> {
        self.0.thread.try_lock().unwrap().take()
    }

    fn wake(&mut self, waker: Thread) {
        waker.unpark();
    }

    fn yield_now(&mut self) {
        yield_now();
    }
}

impl SyncPrimitive for Handle {
    fn memory(&self) -> Memory {
        unreachable!()
    }

    fn pending(&self) -> Turns {
        unreachable!()
    }

    fn room(&self) -> Room {
        unreachable!()
    }

    fn marks(&self) -> Entries {
        unreachable!()
    }

    fn can_construct(&self) -> bool {
        true
    }

    fn max_shared_owners(&self) -> usize {
        self.0.limit
    }

    fn peek(&self, mo: Ordering) -> usize {
        self.0.state.load(mo)
    }

    fn load(&mut self) -> usize {
        self.0.state.load(Acquire)
    }

    fn compare_exchange(&mut self, current: usize, new: usize) -> Result<usize, usize> {
        self.0.state.compare_exchange(current, new, AcqRel, Acquire)
    }

    fn fetch_add(&mut self, value: usize) -> usize {
        self.0.state.fetch_add(value, AcqRel)
    }

    fn yield_now(&mut self) {
        yield_now();
    }

    fn construct(&mut self, opcode: Opcode, is_sync: bool) -> usize {
        let mut slots = self.0.slots.lock().unwrap();
        slots.0 += 128;
        let entry = slots.0;
        let slot = Slot {
            next: AtomicUsize::new(0),
            prev: AtomicUsize::new(0),
            opcode,
            bits: AtomicU16::new(0),
            thread: Mutex::new(None),
            context: Mutex::new(Context {
                is_sync,
                enqueued: false,
            }),
        };
        slots.1.insert(entry, Arc::new(slot));
        entry
    }

    fn discard(&mut self, entry: usize) {
        assert!(self.0.slots.lock().unwrap().1.remove(&entry).is_some());
    }

    fn next_entry(&self, entry: usize) -> usize {
        self.slot(entry).next.load(Acquire)
    }

    fn prev_entry(&self, entry: usize) -> usize {
        self.slot(entry).prev.load(Acquire)
    }

    fn opcode(&self, entry: usize) -> Opcode {
        self.slot(entry).opcode
    }

    fn try_acknowledge_result(&mut self, entry: usize) -> Option<u8> {
        Access(self.slot(entry)).try_acknowledge_result()
    }

    fn update_next_entry(&mut self, entry: usize, next: usize) {
        self.slot(entry).next.store(next, Release);
    }

    fn update_prev_entry(&mut self, entry: usize, prev: usize) {
        self.slot(entry).prev.store(prev, Release);
    }

    fn set_result(&mut self, entry: usize, result: u8) {
        Access(self.slot(entry)).set_result(result);
    }

    fn enqueued(&mut self, entry: usize) {
        if let Some(slot) = self.0.slots.lock().unwrap().1.get(&entry) {
            slot.context.lock().unwrap().enqueued = true;
        }
    }
}

fn new_lock() -> Lock<Handle> {
    Lock {
        primitive: Handle::new(0, Lock::MAX_SHARED_OWNERS),
    }
}

fn new_semaphore() -> Semaphore<Handle> {
    Semaphore {
        primitive: Handle::new(0, Semaphore::MAX_PERMITS),
    }
}

fn new_gate() -> Gate<Handle> {
    Gate {
        primitive: Handle::new(0, 0),
    }
}

fn new_barrier(count: usize) -> Barrier<Handle> {
    Barrier {
        primitive: Handle::new(count, 0),
    }
}

fn lock_sync(lock: &mut Lock<Handle>) -> bool {
    let acquisition = lock.lock_sync();
    lock.primitive.block_on(acquisition)
}

fn share_sync(lock: &mut Lock<Handle>) -> bool {
    let acquisition = lock.share_sync();
    lock.primitive.block_on(acquisition)
}

fn acquire_many_sync(semaphore: &mut Semaphore<Handle>, count: usize) -> bool {
    let acquisition = semaphore.acquire_many_sync(count);
    semaphore.primitive.block_on(acquisition)
}

/// Pushes a wait queue entry, and drops it without waiting for its completion.
fn test_drop_wait_queue_entry(semaphore: &mut Semaphore<Handle>, count: usize) {
    if let Acquisition::Waiting(entry) = semaphore.acquire_many_async(count) {
        semaphore.primitive.force_remove_wait_queue_entry(entry);
    }
}

fn check<F: Fn() + Sync + Send + 'static>(f: F) {
    loom::model(f);
}

fn lock_shared() {
    check(|| {
        let mut lock = new_lock();
        assert!(lock_sync(&mut lock));
        let mut lock_clone = Lock {
            primitive: lock.primitive.clone(),
        };
        let thread = spawn(move || {
            assert!(share_sync(&mut lock_clone));
            assert!(lock_clone.release_share());
        });
        assert!(lock.release_lock());
        assert!(thread.join().is_ok());
        assert!(lock.is_free(Relaxed));
    });
}

fn lock_exclusive() {
    check(|| {
        let mut lock = new_lock();
        assert!(share_sync(&mut lock));
        let mut lock_clone = Lock {
            primitive: lock.primitive.clone(),
        };
        let thread = spawn(move || {
            assert!(lock_sync(&mut lock_clone));
            assert!(lock_clone.release_lock());
        });
        assert!(lock.release_share());
        assert!(thread.join().is_ok());
        assert!(lock.is_free(Relaxed));
    });
}

fn semaphore_release_acquire() {
    check(|| {
        let mut semaphore = new_semaphore();
        assert!(acquire_many_sync(&mut semaphore, Semaphore::MAX_PERMITS));
        let mut semaphore_clone = Semaphore {
            primitive: semaphore.primitive.clone(),
        };
        let thread = spawn(move || {
            assert!(acquire_many_sync(&mut semaphore_clone, 9));
            assert!(acquire_many_sync(&mut semaphore_clone, 2));
        });
        assert!(semaphore.release_many(10));
        assert!(semaphore.release());
        assert!(thread.join().is_ok());
        assert_eq!(semaphore.available_permits(Relaxed), 0);
    });
}

#[test]
fn model_lock_shared() {
    lock_shared();
}

#[test]
fn model_lock_exclusive() {
    lock_exclusive();
}

#[test]
fn model_semaphore_release_acquire() {
    semaphore_release_acquire();
}

#[test]
fn models_lock_shared() {
    lock_shared();
}

#[test]
fn models_lock_exclusive() {
    lock_exclusive();
}

#[test]
fn models_semaphore_release_acquire() {
    semaphore_release_acquire();
}

#[test]
fn models_drop_future() {
    check(|| {
        let mut semaphore = new_semaphore();
        assert!(acquire_many_sync(&mut semaphore, Semaphore::MAX_PERMITS));
        let mut semaphore_clone = Semaphore {
            primitive: semaphore.primitive.clone(),
        };
        let thread = spawn(move || {
            assert!(acquire_many_sync(&mut semaphore_clone, 9));
        });
        test_drop_wait_queue_entry(&mut semaphore, 11);
        assert!(semaphore.release_many(Semaphore::MAX_PERMITS));
        assert!(thread.join().is_ok());
        assert_eq!(
            semaphore.available_permits(Relaxed),
            Semaphore::MAX_PERMITS - 9
        );
    });
}

#[test]
fn models_lock_poison() {
    check(|| {
        let mut lock = new_lock();
        assert!(lock_sync(&mut lock));
        let mut lock_clone = Lock {
            primitive: lock.primitive.clone(),
        };
        let thread = spawn(move || {
            assert!(!share_sync(&mut lock_clone));
        });
        assert!(lock.poison_lock());
        assert!(thread.join().is_ok());
        assert!(lock.is_poisoned(Relaxed));
        assert!(lock.clear_poison());
        assert!(lock.is_free(Relaxed));
    });
}

#[test]
fn models_gate_open() {
    check(|| {
        let mut gate = new_gate();
        let mut gate_clone = Gate {
            primitive: gate.primitive.clone(),
        };
        let thread = spawn(move || {
            let (result, mut pager) = gate_clone.enter_sync();
            if let Some(result) = result {
                assert_eq!(result, Ok(State::Open));
                return;
            }
            let mut access = Access(gate_clone.primitive.slot(pager.entry_addr().unwrap()));
            loop {
                match access.poll_result_sync(current()) {
                    Signal::Ready(_) => break,
                    Signal::Registered => park(),
                    Signal::Retry => yield_now(),
                }
            }
            assert_eq!(pager.poll_sync(&mut gate_clone), Some(Ok(State::Open)));
        });
        let (prev_state, number) = gate.open();
        assert_eq!(prev_state, State::Controlled);
        assert!(number <= 1);
        assert!(thread.join().is_ok());
        assert_eq!(gate.state(Relaxed), State::Open);
    });
}

#[test]
fn models_gate_cancel() {
    check(|| {
        let mut gate = new_gate();
        let mut gate_clone = Gate {
            primitive: gate.primitive.clone(),
        };
        let thread = spawn(move || {
            let mut pager = Pager::default();
            assert!(gate_clone.register_pager(&mut pager, true));
            pager.cancel(&mut gate_clone);
            assert!(!pager.is_registered());
        });
        gate.seal();
        assert!(thread.join().is_ok());
        assert_eq!(gate.state(Relaxed), State::Sealed);
    });
}

#[test]
fn models_barrier() {
    check(|| {
        let mut barrier = new_barrier(2);
        let mut barrier_clone = Barrier {
            primitive: barrier.primitive.clone(),
        };
        let thread = spawn(move || {
            let acquisition = barrier_clone.wait_sync();
            assert!(barrier_clone.primitive.block_on(acquisition));
        });
        let acquisition = barrier.wait_sync();
        assert!(barrier.primitive.block_on(acquisition));
        assert!(thread.join().is_ok());
        assert_eq!(barrier.count(Relaxed), 2);
    });
}

#[test]
fn models_barrier_cancel() {
    check(|| {
        let mut barrier = new_barrier(3);
        let mut barrier_clone = Barrier {
            primitive: barrier.primitive.clone(),
        };
        let thread = spawn(move || {
            let mut pager = Pager::default();
            assert!(barrier_clone.register_pager(&mut pager, 1, true));
            pager.cancel(&mut barrier_clone);
        });
        let mut pager = Pager::default();
        assert!(barrier.register_pager(&mut pager, 1, true));
        pager.cancel(&mut barrier);
        assert!(thread.join().is_ok());
        assert_eq!(barrier.status().missing, 3);
        assert_eq!(barrier.status().wait_queue_tail_addr, 0);
    });
}

#[test]
fn models_lock_cancel() {
    check(|| {
        let mut lock = new_lock();
        assert!(lock_sync(&mut lock));
        let mut lock_clone = Lock {
            primitive: lock.primitive.clone(),
        };
        let thread = spawn(move || {
            if let Acquisition::Waiting(entry) = lock_clone.lock_async() {
                lock_clone.primitive.force_remove_wait_queue_entry(entry);
            } else {
                assert!(lock_clone.release_lock());
            }
        });
        assert!(lock.release_lock());
        assert!(thread.join().is_ok());
        assert!(lock.is_free(Relaxed));
    });
}
