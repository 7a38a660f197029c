use std::sync::atomic::Ordering::Relaxed;

use saa::arena::{Arena, Policy};
use saa::config::{Config, DefaultConfig};
use saa::entry::{Entry, Signal};
use saa::gate::Pager;
use saa::opcode::Opcode;
use saa::sync_primitive::{Acquisition, SyncPrimitive};
use saa::wait_queue::{Location, WaitQueue};
use saa::{Barrier, Gate, Lock};

#[test]
fn wait_queue_state_word() {
    let state = 4096 + 64 + 17;
    assert_eq!(WaitQueue::data(state), 17);
    assert_eq!(WaitQueue::addr(state), 4096);
    assert!(WaitQueue::locked(state));
    assert_eq!(WaitQueue::to_anchor_ptr(state), 4096);
    assert_eq!(WaitQueue::to_anchor_ptr(64 + 63), 0);
    assert_eq!(WaitQueue::with_addr(state, 8192), 8192 + 64 + 17);
    assert_eq!(WaitQueue::with_locked(4096 + 17), state);
    assert!(!WaitQueue::locked(4096 + 17));
    assert_eq!(WaitQueue::ADDR_MASK, !127);
}

#[test]
fn wait_queue_location() {
    // `128: start/anchor | 192: entry`.
    assert_eq!(
        WaitQueue { start: 128 }.construct(),
        Location {
            anchor: 128,
            anchor_val: u64::MAX,
            entry: 192,
            offset: 64,
        }
    );
    // `32: start/entry | 128: anchor`.
    assert_eq!(
        WaitQueue { start: 32 }.construct(),
        Location {
            anchor: 128,
            anchor_val: u64::MAX - 96,
            entry: 32,
            offset: 0,
        }
    );
    // `64: start/entry | 128: anchor`.
    assert_eq!(WaitQueue { start: 64 }.construct().entry, 64);
    // `96: start | 128: anchor | 160: entry`.
    assert_eq!(
        WaitQueue { start: 96 }.construct(),
        Location {
            anchor: 128,
            anchor_val: u64::MAX - 32,
            entry: 160,
            offset: 64,
        }
    );
    assert_eq!(WaitQueue::to_entry_ptr(128, 0), 0);
}

#[test]
fn wait_queue_anchor_leads_to_entry() {
    for start in (8..1024).step_by(8) {
        let wait_queue = WaitQueue { start };
        let (anchor, offset) = wait_queue.anchor_ptr();
        let location = wait_queue.construct();
        assert_eq!(location.anchor, anchor);
        assert_eq!(anchor, start + offset);
        assert_eq!(anchor % WaitQueue::VIRTUAL_ALIGNMENT, 0);
        let found = WaitQueue::to_entry_ptr(
            WaitQueue::to_anchor_ptr(anchor + 64 + 63),
            location.anchor_val,
        );
        assert_eq!(found, location.entry);
        assert_eq!(WaitQueue::to_wait_queue_ptr(found, location.offset), start);
        assert!(anchor + 8 <= found || found + 64 <= anchor);
        assert!(start <= found && found + 64 <= start + 128);
        let neighbor = WaitQueue { start: start + 128 };
        assert!(neighbor.construct().anchor > anchor);
    }
}

#[test]
fn opcode_release() {
    assert!(Opcode::Exclusive.can_release(128 + 63));
    assert!(!Opcode::Exclusive.can_release(62));
    assert!(Opcode::Shared.can_release(1));
    assert!(Opcode::Shared.can_release(62));
    assert!(!Opcode::Shared.can_release(63));
    assert!(!Opcode::Shared.can_release(64));
    assert!(Opcode::Semaphore(9).can_release(9));
    assert!(!Opcode::Semaphore(9).can_release(128 + 8));
    assert!(Opcode::Wait(63).can_release(0));
    assert_eq!(Opcode::Exclusive.release_count(), 63);
    assert_eq!(Opcode::Shared.release_count(), 1);
    assert_eq!(Opcode::Semaphore(9).release_count(), 9);
    assert_eq!(Opcode::Wait(63).release_count(), 0);
    assert_eq!(Opcode::Wait(63).desired_count(), 63);
    assert_eq!(Opcode::Shared.desired_count(), 1);
}

#[test]
fn entry_result() {
    let mut entry = Entry::new(Opcode::Shared, false);
    assert_eq!(entry.opcode(), Opcode::Shared);
    assert!(!entry.is_sync());
    assert!(!entry.prepare_drop());
    entry.enqueued();
    assert!(entry.prepare_drop());

    assert_eq!(entry.try_acknowledge_result(), None);
    assert_eq!(
        entry.poll_result_sync(1),
        Signal::Ready(Entry::ERROR_WRONG_MODE)
    );
    assert_eq!(entry.poll_result_async(1), Signal::Registered);
    // The waker is replaced.
    assert_eq!(entry.poll_result_async(2), Signal::Registered);
    assert_eq!(entry.set_result(5), Some(2));
    assert!(entry.prepare_drop());
    assert_eq!(entry.poll_result_async(3), Signal::Ready(5));
    assert!(!entry.prepare_drop());
    assert_eq!(entry.try_acknowledge_result(), Some(5));
}

#[test]
fn entry_result_without_waker() {
    let mut entry = Entry::new(Opcode::Exclusive, true);
    assert!(entry.is_sync());
    assert_eq!(entry.set_result(0), None);
    assert!(entry.prepare_drop());
    assert_eq!(
        entry.poll_result_async(1),
        Signal::Ready(Entry::ERROR_WRONG_MODE)
    );
    assert_eq!(entry.poll_result_sync(1), Signal::Ready(0));
    assert!(!entry.prepare_drop());
}

#[test]
fn entry_links() {
    let mut entry = Entry::new(Opcode::Exclusive, true);
    assert_eq!(entry.next_entry(), 0);
    assert_eq!(entry.prev_entry(), 0);
    entry.update_next_entry(128);
    entry.update_prev_entry(256);
    assert_eq!(entry.next_entry(), 128);
    assert_eq!(entry.prev_entry(), 256);
}

#[test]
fn arena_wakeups() {
    let mut lock = Lock::default();
    assert!(lock.try_lock());
    let Acquisition::Waiting(first) = lock.share_async() else {
        unreachable!()
    };
    let Acquisition::Waiting(second) = lock.share_sync() else {
        unreachable!()
    };
    let Acquisition::Waiting(third) = lock.share_sync() else {
        unreachable!()
    };
    assert_eq!(
        lock.primitive.poll_result_async(first, 10),
        Signal::Registered
    );
    assert_eq!(
        lock.primitive.poll_result_sync(first, 10),
        Signal::Ready(Entry::ERROR_WRONG_MODE)
    );
    assert_eq!(
        lock.primitive.poll_result_sync(second, 20),
        Signal::Registered
    );
    assert!(lock.primitive.take_wakeups().is_empty());
    assert!(lock.release_lock());
    let mut wakeups = lock.primitive.take_wakeups();
    wakeups.sort_unstable();
    assert_eq!(wakeups, vec![10, 20]);
    assert!(lock.primitive.take_wakeups().is_empty());

    // The task that has not been polled finds its result.
    assert!(lock.primitive.prepare_drop(third));
    assert_eq!(lock.primitive.poll_result_sync(third, 30), Signal::Ready(0));
    assert!(!lock.primitive.prepare_drop(third));
}

#[test]
fn arena_wakeups_of_poisoned_lock() {
    let mut lock = Lock::default();
    assert!(lock.try_lock());
    let Acquisition::Waiting(first) = lock.lock_async() else {
        unreachable!()
    };
    let Acquisition::Waiting(second) = lock.share_async() else {
        unreachable!()
    };
    assert_eq!(
        lock.primitive.poll_result_async(first, 1),
        Signal::Registered
    );
    assert_eq!(
        lock.primitive.poll_result_async(second, 2),
        Signal::Registered
    );
    assert!(lock.poison_lock());
    let mut wakeups = lock.primitive.take_wakeups();
    wakeups.sort_unstable();
    assert_eq!(wakeups, vec![1, 2]);
    assert_eq!(
        lock.primitive.poll_result_async(first, 1),
        Signal::Ready(Lock::POISONED)
    );
}

#[test]
fn arena_wakeups_of_cancelled_tasks() {
    let mut lock = Lock::default();
    assert!(lock.try_share());
    let Acquisition::Waiting(exclusive) = lock.lock_async() else {
        unreachable!()
    };
    let Acquisition::Waiting(shared) = lock.share_async() else {
        unreachable!()
    };
    assert_eq!(
        lock.primitive.poll_result_async(exclusive, 1),
        Signal::Registered
    );
    assert_eq!(
        lock.primitive.poll_result_async(shared, 2),
        Signal::Registered
    );
    // The task behind the one that gives up is served, and nobody else is resumed.
    lock.primitive.force_remove_wait_queue_entry(exclusive);
    assert_eq!(lock.primitive.take_wakeups(), vec![2]);

    // The storage of an entry does not remember who waited in it before.
    let Acquisition::Waiting(again) = lock.lock_async() else {
        unreachable!()
    };
    assert_eq!(again, exclusive);
    assert!(lock.release_share());
    assert!(lock.release_share());
    assert!(lock.is_locked(Relaxed));
    assert!(lock.primitive.take_wakeups().is_empty());
}

#[test]
fn arena_wakeups_of_gate_and_barrier() {
    let mut gate = Gate::default();
    let mut pager = Pager::default();
    assert!(gate.register_async(&mut pager));
    let entry = pager.entry_addr().unwrap();
    assert_eq!(
        gate.primitive.poll_result_async(entry, 3),
        Signal::Registered
    );
    assert_eq!(gate.permit(), Ok(1));
    assert_eq!(gate.primitive.take_wakeups(), vec![3]);

    let mut barrier = Barrier::with_count(2);
    let Acquisition::Waiting(entry) = barrier.wait_async() else {
        unreachable!()
    };
    assert_eq!(
        barrier.primitive.poll_result_async(entry, 4),
        Signal::Registered
    );
    assert!(barrier.primitive.take_wakeups().is_empty());
    assert_eq!(barrier.wait_sync(), Acquisition::Done(true));
    assert_eq!(barrier.primitive.take_wakeups(), vec![4]);
}

#[test]
fn arena_prepare_drop() {
    let mut lock = Lock::default();
    assert!(lock.try_lock());
    let Acquisition::Waiting(entry) = lock.lock_async() else {
        unreachable!()
    };
    // A task that waits has to be cleaned up even though there is no result yet.
    assert!(lock.primitive.prepare_drop(entry));

    let created = lock.primitive.construct(Opcode::Shared, true);
    assert!(!lock.primitive.prepare_drop(created));
    lock.primitive.enqueued(created);
    assert!(lock.primitive.prepare_drop(created));
    lock.primitive.discard(created);
    assert!(lock.primitive.prepare_drop(entry));
}

#[test]
fn arena_entries() {
    let mut arena = Arena::new(Policy::Gate, 0);
    assert!(arena.can_construct());
    let first = arena.construct(Opcode::Wait(0), true);
    let second = arena.construct(Opcode::Wait(0), true);
    assert_ne!(first, second);
    assert_eq!(first % WaitQueue::VIRTUAL_ALIGNMENT, 0);
    arena.discard(first);
    // The storage is used again.
    assert_eq!(arena.construct(Opcode::Wait(0), false), first);
    assert_eq!(arena.opcode(first), Opcode::Wait(0));
}

#[test]
fn config_default() {
    assert_eq!(DefaultConfig::spin_count(), 16384);
    DefaultConfig::backoff(1);
    assert_eq!(format!("{:?}", DefaultConfig), "DefaultConfig");
}
