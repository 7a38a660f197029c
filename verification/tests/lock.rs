use std::sync::atomic::Ordering::Relaxed;

use saa::lock::{Mode, Status};
use saa::pager::Error;
use saa::sync_primitive::{Acquisition, SyncPrimitive};
use saa::{Lock, Pager};

fn waiting(acquisition: Acquisition) -> usize {
    match acquisition {
        Acquisition::Waiting(entry) => entry,
        Acquisition::Done(_) => unreachable!(),
    }
}

#[test]
fn lock() {
    let mut lock = Lock::default();

    assert_eq!(lock.lock_sync(), Acquisition::Done(true));

    assert!(!lock.try_lock());
    assert!(!lock.try_share());

    assert!(!lock.release_share());
    assert!(lock.release_lock());

    assert_eq!(lock.share_async(), Acquisition::Done(true));
    assert!(lock.release_share());
}

#[test]
fn lock_state_queries() {
    let mut lock = Lock::default();
    assert!(lock.is_free(Relaxed));
    assert!(!lock.is_locked(Relaxed));
    assert!(!lock.is_shared(Relaxed));
    assert!(!lock.is_poisoned(Relaxed));

    assert_eq!(lock.lock_sync(), Acquisition::Done(true));
    assert!(!lock.is_free(Relaxed));
    assert!(lock.is_locked(Relaxed));
    assert!(!lock.is_shared(Relaxed));
    assert!(lock.release_lock());

    assert_eq!(lock.share_sync(), Acquisition::Done(true));
    assert!(!lock.is_free(Relaxed));
    assert!(!lock.is_locked(Relaxed));
    assert!(lock.is_shared(Relaxed));
    assert!(lock.release_share());

    assert_eq!(lock.lock_sync(), Acquisition::Done(true));
    assert!(lock.poison_lock());
    assert!(lock.is_poisoned(Relaxed));
    assert!(!lock.is_free(Relaxed));
    assert!(!lock.is_locked(Relaxed));
    assert!(!lock.is_shared(Relaxed));
}

#[test]
fn lock_try_lock_and_share() {
    let mut lock = Lock::default();
    assert!(lock.try_lock());
    assert!(!lock.try_share());
    assert!(!lock.try_lock());
    assert!(lock.release_lock());

    assert!(lock.try_share());
    assert!(lock.try_share());
    assert!(!lock.try_lock());
}

#[test]
fn lock_shared_owners_are_limited() {
    let mut lock = Lock::default();
    assert_eq!(Lock::MAX_SHARED_OWNERS, 62);
    for _ in 0..Lock::MAX_SHARED_OWNERS {
        assert!(lock.try_share());
    }
    assert!(!lock.try_share());
    assert_eq!(lock.status().share_count, 62);
    let entry = waiting(lock.share_sync());
    assert!(lock.release_share());
    assert_eq!(lock.primitive.try_acknowledge_result(entry), Some(0));
    assert_eq!(lock.status().share_count, 62);
}

#[test]
fn lock_release() {
    let mut lock = Lock::default();
    assert_eq!(lock.lock_sync(), Acquisition::Done(true));

    assert!(lock.release_lock());
    assert!(!lock.release_lock());

    assert!(lock.try_share());
    assert!(!lock.release_lock());
    assert!(lock.release_share());

    assert_eq!(lock.lock_sync(), Acquisition::Done(true));
    assert!(lock.poison_lock());

    assert!(!lock.release_lock());
}

#[test]
fn lock_release_share() {
    let mut lock = Lock::default();
    assert_eq!(lock.share_sync(), Acquisition::Done(true));
    assert_eq!(lock.share_sync(), Acquisition::Done(true));

    assert!(lock.release_share());

    assert!(!lock.try_lock());
    assert!(lock.release_share());

    assert!(!lock.release_share());
    assert!(lock.try_lock());

    assert!(lock.poison_lock());

    assert!(!lock.release_share());
}

#[test]
fn lock_poison() {
    let mut lock = Lock::default();
    assert!(!lock.poison_lock());

    assert_eq!(lock.lock_sync(), Acquisition::Done(true));

    assert!(lock.poison_lock());
    assert!(lock.is_poisoned(Relaxed));

    assert!(!lock.poison_lock());

    assert_eq!(lock.lock_sync(), Acquisition::Done(false));
    assert_eq!(lock.share_sync(), Acquisition::Done(false));
    assert_eq!(lock.lock_async(), Acquisition::Done(false));
    assert_eq!(lock.share_async(), Acquisition::Done(false));
    assert!(!lock.try_lock());
    assert!(!lock.try_share());
    assert!(!lock.release_lock());
    assert!(!lock.release_share());
}

#[test]
fn lock_poison_is_cleared() {
    let mut lock = Lock::default();
    assert!(!lock.poison_lock());
    assert!(!lock.clear_poison());

    assert_eq!(lock.lock_sync(), Acquisition::Done(true));

    assert!(lock.poison_lock());
    assert!(lock.clear_poison());
    assert!(!lock.is_poisoned(Relaxed));
    assert!(lock.is_free(Relaxed));
    assert!(lock.try_lock());
}

#[test]
fn lock_poison_reaches_waiting_tasks() {
    let mut lock = Lock::default();
    assert!(lock.try_lock());
    let first = waiting(lock.lock_sync());
    let second = waiting(lock.share_async());
    assert!(lock.poison_lock());
    assert_eq!(
        lock.primitive.try_acknowledge_result(first),
        Some(Lock::POISONED)
    );
    assert_eq!(
        lock.primitive.try_acknowledge_result(second),
        Some(Lock::POISONED)
    );
    assert!(lock.clear_poison());
    assert!(lock.is_free(Relaxed));
}

#[test]
fn lock_first_come_first_served() {
    let mut lock = Lock::default();
    assert!(lock.try_share());
    let first = waiting(lock.lock_sync());
    // Nobody jumps the queue.
    assert!(!lock.try_share());
    let second = waiting(lock.share_sync());
    let third = waiting(lock.share_async());
    let fourth = waiting(lock.lock_async());

    assert!(lock.release_share());
    assert_eq!(lock.primitive.try_acknowledge_result(first), Some(0));
    assert_eq!(lock.primitive.try_acknowledge_result(second), None);
    assert!(lock.is_locked(Relaxed));

    assert!(lock.release_lock());
    assert_eq!(lock.primitive.try_acknowledge_result(second), Some(0));
    assert_eq!(lock.primitive.try_acknowledge_result(third), Some(0));
    assert_eq!(lock.primitive.try_acknowledge_result(fourth), None);
    assert_eq!(lock.status().share_count, 2);

    assert!(lock.release_share());
    assert_eq!(lock.primitive.try_acknowledge_result(fourth), None);
    assert!(lock.release_share());
    assert_eq!(lock.primitive.try_acknowledge_result(fourth), Some(0));
    assert!(lock.release_lock());
    assert!(lock.is_free(Relaxed));
}

#[test]
fn lock_wait_callback() {
    let mut lock = Lock::default();
    let mut wait = false;
    assert_eq!(
        lock.lock_sync_with(|| {
            wait = true;
        }),
        Acquisition::Done(true)
    );
    assert!(!wait);
    let entry = waiting(lock.share_sync_with(|| {
        wait = true;
    }));
    assert!(wait);
    lock.primitive.force_remove_wait_queue_entry(entry);

    wait = false;
    let entry = waiting(lock.lock_async_with(|| {
        wait = true;
    }));
    assert!(wait);
    lock.primitive.force_remove_wait_queue_entry(entry);

    assert!(lock.poison_lock());
    wait = false;
    assert_eq!(
        lock.share_async_with(|| {
            wait = true;
        }),
        Acquisition::Done(false)
    );
    assert!(!wait);
}

#[test]
fn lock_cancel_undoes_waiting() {
    let mut lock = Lock::default();
    assert!(lock.try_share());
    let first = waiting(lock.lock_sync());
    let before = lock.status();
    let second = waiting(lock.share_sync());
    assert_ne!(lock.status(), before);
    lock.primitive.force_remove_wait_queue_entry(second);
    assert_eq!(lock.status(), before);

    // Those behind a task that gives up are served.
    let third = waiting(lock.share_sync());
    lock.primitive.force_remove_wait_queue_entry(first);
    assert_eq!(lock.primitive.try_acknowledge_result(third), Some(0));
    assert_eq!(lock.status().share_count, 2);
}

#[test]
fn lock_cancel_in_the_middle() {
    let mut lock = Lock::default();
    assert!(lock.try_lock());
    let entries = [
        waiting(lock.lock_sync()),
        waiting(lock.lock_sync()),
        waiting(lock.lock_sync()),
    ];
    lock.primitive.force_remove_wait_queue_entry(entries[1]);
    assert!(lock.release_lock());
    assert_eq!(lock.primitive.try_acknowledge_result(entries[0]), Some(0));
    assert_eq!(lock.primitive.try_acknowledge_result(entries[2]), None);
    assert!(lock.release_lock());
    assert_eq!(lock.primitive.try_acknowledge_result(entries[2]), Some(0));
    assert!(lock.release_lock());
    assert!(lock.is_free(Relaxed));
}

#[test]
fn lock_cancel_releases_what_was_handed() {
    let mut lock = Lock::default();
    assert!(lock.try_lock());
    let entry = waiting(lock.lock_sync());
    assert!(lock.release_lock());
    // The lock belongs to a task that does not know it.
    assert!(lock.is_locked(Relaxed));
    lock.primitive.force_remove_wait_queue_entry(entry);
    assert!(lock.is_free(Relaxed));

    // There is nothing to release if the lock was poisoned.
    assert!(lock.try_lock());
    let entry = waiting(lock.lock_sync());
    assert!(lock.poison_lock());
    assert!(lock.clear_poison());
    assert!(lock.try_lock());
    lock.primitive.force_remove_wait_queue_entry(entry);
    assert!(lock.is_locked(Relaxed));
}

#[test]
fn lock_release_undoes_acquisition() {
    let mut lock = Lock::default();
    assert!(lock.try_share());
    let before = lock.status();
    assert!(lock.try_share());
    assert!(lock.release_share());
    assert_eq!(lock.status(), before);
}

#[test]
fn lock_status() {
    let mut lock = Lock::default();
    assert!(lock.try_share());
    assert!(lock.try_share());
    assert_eq!(
        lock.status(),
        Status {
            state: 2,
            locked: false,
            share_count: 2,
            poisoned: false,
            wait_queue_being_processed: false,
            wait_queue_tail_addr: 0,
        }
    );
    let entry = waiting(lock.lock_sync());
    assert_eq!(
        lock.status(),
        Status {
            state: entry + 2,
            locked: false,
            share_count: 2,
            poisoned: false,
            wait_queue_being_processed: false,
            wait_queue_tail_addr: entry,
        }
    );
    lock.primitive.force_remove_wait_queue_entry(entry);
    assert!(lock.release_share());
    assert!(lock.release_share());
    assert!(lock.try_lock());
    assert_eq!(lock.status().state, 63);
    assert!(lock.status().locked);
    assert_eq!(lock.status().share_count, 0);
    assert!(lock.poison_lock());
    assert_eq!(
        lock.status(),
        Status {
            state: 64,
            locked: false,
            share_count: 0,
            poisoned: true,
            wait_queue_being_processed: true,
            wait_queue_tail_addr: 0,
        }
    );
}

#[test]
fn lock_register_pager() {
    let mut lock = Lock::default();
    let mut pager = Pager::default();

    assert!(lock.register_pager(&mut pager, Mode::Exclusive, true));
    assert!(!lock.register_pager(&mut pager, Mode::Exclusive, true));

    assert_eq!(pager.poll_sync(&mut lock), Some(Ok(true)));
    assert!(lock.is_locked(Relaxed));
    assert!(lock.release_lock());
}

#[test]
fn pager() {
    let mut lock = Lock::default();

    let mut pager = Pager::default();
    assert!(!pager.is_registered());

    assert_eq!(lock.lock_sync(), Acquisition::Done(true));
    assert!(lock.register_pager(&mut pager, Mode::Shared, true));

    assert!(pager.try_poll(&mut lock).is_err());

    assert!(lock.release_lock());
    assert!(pager.poll_sync(&mut lock).unwrap().is_ok());
    assert!(lock.release_share());
}

#[test]
fn lock_pager_waits_without_acquiring() {
    let mut lock = Lock::default();
    let mut pager = Pager::default();

    // A free lock is reported immediately.
    assert!(lock.register_pager(&mut pager, Mode::WaitExclusive, true));
    assert_eq!(pager.poll_sync(&mut lock), Some(Ok(true)));
    assert!(lock.is_free(Relaxed));

    assert!(lock.try_share());
    assert!(lock.register_pager(&mut pager, Mode::WaitShared, true));
    assert_eq!(pager.poll_sync(&mut lock), Some(Ok(true)));
    assert_eq!(lock.status().share_count, 1);

    assert!(lock.register_pager(&mut pager, Mode::WaitExclusive, true));
    assert_eq!(pager.poll_sync(&mut lock), None);
    let mut other = Pager::default();
    assert!(lock.register_pager(&mut other, Mode::WaitShared, false));
    assert_eq!(other.poll_async(&mut lock), Some(Ok(true)));
    assert!(lock.release_share());
    assert_eq!(pager.poll_sync(&mut lock), Some(Ok(true)));
    assert!(lock.is_free(Relaxed));
}

#[test]
fn lock_pager_waiting_tasks_keep_their_order() {
    let mut lock = Lock::default();
    let mut exclusive = Pager::default();
    let mut shared = Pager::default();
    for _ in 0..Lock::MAX_SHARED_OWNERS {
        assert!(lock.try_share());
    }
    assert!(lock.register_pager(&mut exclusive, Mode::WaitExclusive, true));
    assert!(lock.register_pager(&mut shared, Mode::WaitShared, true));
    assert!(lock.release_share());
    // The shared entry has to wait until the exclusive entry is processed.
    assert_eq!(shared.poll_sync(&mut lock), None);
    for _ in 1..Lock::MAX_SHARED_OWNERS {
        assert!(lock.release_share());
    }
    assert_eq!(exclusive.poll_sync(&mut lock), Some(Ok(true)));
    assert_eq!(shared.poll_sync(&mut lock), Some(Ok(true)));
    assert!(lock.is_free(Relaxed));
}

#[test]
fn lock_pager_learns_of_poison() {
    let mut lock = Lock::default();
    let mut waiting = Pager::default();
    assert!(lock.try_lock());
    assert!(lock.register_pager(&mut waiting, Mode::Exclusive, true));
    assert!(lock.poison_lock());
    assert_eq!(waiting.poll_sync(&mut lock), Some(Ok(false)));

    for mode in [
        Mode::Exclusive,
        Mode::Shared,
        Mode::WaitExclusive,
        Mode::WaitShared,
    ] {
        let mut pager = Pager::default();
        assert!(lock.register_pager(&mut pager, mode, true));
        assert_eq!(pager.poll_sync(&mut lock), Some(Ok(false)));
        assert!(lock.is_poisoned(Relaxed));
    }
}

#[test]
fn lock_pager_errors() {
    let mut lock = Lock::default();
    let mut pager = Pager::default();
    assert_eq!(pager.poll_sync(&mut lock), Some(Err(Error::NotRegistered)));
    assert_eq!(pager.poll_async(&mut lock), Some(Err(Error::NotRegistered)));
    assert_eq!(pager.try_poll(&mut lock), Err(Error::NotRegistered));

    assert!(lock.try_lock());
    assert!(lock.register_pager(&mut pager, Mode::Exclusive, false));
    assert!(!pager.is_sync());
    assert_eq!(pager.poll_sync(&mut lock), Some(Err(Error::WrongMode)));
    assert_eq!(pager.try_poll(&mut lock), Err(Error::NotReady));
    assert!(pager.is_registered());
    pager.cancel(&mut lock);
    assert!(!pager.is_registered());

    assert!(lock.register_pager(&mut pager, Mode::Exclusive, true));
    assert!(pager.is_sync());
    assert_eq!(pager.poll_async(&mut lock), Some(Err(Error::WrongMode)));
    assert_eq!(pager.poll_sync(&mut lock), None);
    assert!(lock.release_lock());
    assert_eq!(pager.poll_sync(&mut lock), Some(Ok(true)));
    assert!(!pager.is_sync());
}

#[test]
fn lock_pager_cancel() {
    let mut lock = Lock::default();
    let mut pager = Pager::default();

    // A result that was not acknowledged is given back.
    assert!(lock.register_pager(&mut pager, Mode::Exclusive, true));
    assert!(lock.is_locked(Relaxed));
    pager.cancel(&mut lock);
    assert!(lock.is_free(Relaxed));

    // A result that was acknowledged is not.
    assert!(lock.register_pager(&mut pager, Mode::Exclusive, true));
    assert_eq!(pager.try_poll(&mut lock), Ok(true));
    pager.cancel(&mut lock);
    assert!(lock.is_locked(Relaxed));
    assert!(lock.release_lock());

    // Nothing happens to a pager that is not registered.
    pager.cancel(&mut lock);
    assert!(lock.is_free(Relaxed));
}
