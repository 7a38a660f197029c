use std::sync::atomic::Ordering::Relaxed;

use saa::pager::Error;
use saa::semaphore::Status;
use saa::sync_primitive::{Acquisition, SyncPrimitive};
use saa::{Pager, Semaphore};

fn waiting(acquisition: Acquisition) -> usize {
    match acquisition {
        Acquisition::Waiting(entry) => entry,
        Acquisition::Done(_) => unreachable!(),
    }
}

#[test]
fn semaphore() {
    let mut semaphore = Semaphore::default();

    assert_eq!(
        semaphore.acquire_many_sync(Semaphore::MAX_PERMITS - 1),
        Acquisition::Done(true)
    );

    assert!(semaphore.try_acquire());
    assert!(!semaphore.try_acquire());

    assert!(semaphore.release());
    assert!(!semaphore.release_many(Semaphore::MAX_PERMITS));
    assert!(semaphore.release_many(Semaphore::MAX_PERMITS - 1));

    assert_eq!(semaphore.acquire_async(), Acquisition::Done(true));
    assert!(semaphore.release());
}

#[test]
fn semaphore_with_permits() {
    let mut semaphore = Semaphore::with_permits(11);

    assert_eq!(semaphore.available_permits(Relaxed), 11);

    assert!(semaphore.try_acquire_many(11));
    assert!(!semaphore.is_open(Relaxed));

    assert_eq!(
        Semaphore::with_permits(0).available_permits(Relaxed),
        0
    );
    assert_eq!(
        Semaphore::with_permits(63).available_permits(Relaxed),
        63
    );
    assert_eq!(
        Semaphore::with_permits(usize::MAX).available_permits(Relaxed),
        63
    );
}

#[test]
fn semaphore_is_open_or_closed() {
    let mut semaphore = Semaphore::default();
    assert!(!semaphore.is_closed(Relaxed));
    assert!(semaphore.is_open(Relaxed));

    assert!(semaphore.try_acquire());
    assert!(!semaphore.is_closed(Relaxed));
    assert!(semaphore.is_open(Relaxed));

    assert!(semaphore.try_acquire_many(Semaphore::MAX_PERMITS - 1));
    assert!(semaphore.is_closed(Relaxed));
    assert!(!semaphore.is_open(Relaxed));
}

#[test]
fn semaphore_available_permits() {
    let mut semaphore = Semaphore::default();
    assert_eq!(
        semaphore.available_permits(Relaxed),
        Semaphore::MAX_PERMITS
    );

    assert!(semaphore.try_acquire());
    assert_eq!(
        semaphore.available_permits(Relaxed),
        Semaphore::MAX_PERMITS - 1
    );
}

#[test]
fn semaphore_wait_callback() {
    let mut semaphore = Semaphore::default();
    let mut wait = false;
    assert_eq!(
        semaphore.acquire_sync_with(|| {
            wait = true;
        }),
        Acquisition::Done(true)
    );
    assert_eq!(
        semaphore.available_permits(Relaxed),
        Semaphore::MAX_PERMITS - 1
    );
    assert_eq!(
        semaphore.acquire_many_async_with(2, || {
            wait = true;
        }),
        Acquisition::Done(true)
    );
    assert_eq!(
        semaphore.available_permits(Relaxed),
        Semaphore::MAX_PERMITS - 3
    );
    assert!(!wait);
    waiting(semaphore.acquire_many_sync_with(61, || {
        wait = true;
    }));
    assert!(wait);
    wait = false;
    waiting(semaphore.acquire_async_with(|| {
        wait = true;
    }));
    assert!(wait);
}

#[test]
fn semaphore_try_acquire() {
    let mut semaphore = Semaphore::default();
    assert!(semaphore.try_acquire());
    assert!(!semaphore.try_acquire_many(Semaphore::MAX_PERMITS));

    let mut semaphore = Semaphore::default();
    assert!(semaphore.try_acquire_many(Semaphore::MAX_PERMITS));
    assert!(!semaphore.try_acquire());
    assert!(semaphore.try_acquire_many(0));
}

#[test]
fn semaphore_too_many_permits() {
    let mut semaphore = Semaphore::default();
    assert!(!semaphore.try_acquire_many(Semaphore::MAX_PERMITS + 1));
    assert!(!semaphore.try_acquire_many(usize::MAX));
    for count in [Semaphore::MAX_PERMITS + 1, 255, 256, 257, usize::MAX] {
        // The task waits for permits that it will never get, and blocks those behind it.
        let mut wait = 0;
        let first = waiting(semaphore.acquire_many_sync_with(count, || {
            wait += 1;
        }));
        let second = waiting(semaphore.acquire_async_with(|| {
            wait += 1;
        }));
        assert_eq!(wait, 2);
        assert!(semaphore.release_many(0));
        assert_eq!(semaphore.primitive.try_acknowledge_result(first), None);
        assert_eq!(semaphore.primitive.try_acknowledge_result(second), None);
        assert_eq!(
            semaphore.available_permits(Relaxed),
            Semaphore::MAX_PERMITS
        );

        // The others are served once it gives up.
        semaphore.primitive.force_remove_wait_queue_entry(first);
        assert_eq!(semaphore.primitive.try_acknowledge_result(second), Some(0));
        semaphore.primitive.discard(second);
        assert!(semaphore.release());
    }

    // Permits that are released are of no use to such a task.
    assert!(semaphore.try_acquire_many(2));
    let entry = waiting(semaphore.acquire_many_async(Semaphore::MAX_PERMITS + 1));
    assert!(semaphore.release_many(2));
    assert_eq!(semaphore.primitive.try_acknowledge_result(entry), None);
    semaphore.primitive.force_remove_wait_queue_entry(entry);
    assert!(!semaphore.release_many(64));
    assert!(!semaphore.release_many(256));
    assert_eq!(
        semaphore.available_permits(Relaxed),
        Semaphore::MAX_PERMITS
    );
}

#[test]
fn semaphore_release() {
    let mut semaphore = Semaphore::default();
    assert!(!semaphore.release());
    assert!(semaphore.try_acquire_many(11));
    assert_eq!(
        semaphore.available_permits(Relaxed),
        Semaphore::MAX_PERMITS - 11
    );

    assert!(semaphore.release());
    assert_eq!(
        semaphore.available_permits(Relaxed),
        Semaphore::MAX_PERMITS - 10
    );

    assert!(semaphore.release_many(9));
    assert_eq!(
        semaphore.available_permits(Relaxed),
        Semaphore::MAX_PERMITS - 1
    );
    assert!(!semaphore.release_many(2));
    assert!(semaphore.release_many(0));
    assert!(semaphore.release());
}

#[test]
fn semaphore_first_come_first_served() {
    let mut semaphore = Semaphore::default();
    assert!(semaphore.try_acquire_many(60));
    let first = waiting(semaphore.acquire_many_sync(10));
    // A smaller request does not overtake the waiting one.
    assert!(!semaphore.try_acquire());
    let second = waiting(semaphore.acquire_many_sync(2));

    assert!(semaphore.release_many(6));
    assert_eq!(semaphore.primitive.try_acknowledge_result(first), None);
    assert_eq!(semaphore.primitive.try_acknowledge_result(second), None);
    assert_eq!(semaphore.available_permits(Relaxed), 9);

    assert!(semaphore.release());
    assert_eq!(semaphore.primitive.try_acknowledge_result(first), Some(0));
    assert_eq!(semaphore.primitive.try_acknowledge_result(second), None);
    assert_eq!(semaphore.available_permits(Relaxed), 0);

    assert!(semaphore.release_many(53));
    assert_eq!(semaphore.primitive.try_acknowledge_result(second), Some(0));
    assert_eq!(semaphore.available_permits(Relaxed), 51);
}

#[test]
fn semaphore_status() {
    let mut semaphore = Semaphore::with_permits(2);
    let entry = waiting(semaphore.acquire_many_sync(3));
    assert_eq!(
        semaphore.status(),
        Status {
            state: entry + 61,
            available_permits: 2,
            wait_queue_being_processed: false,
            wait_queue_tail_addr: entry,
        }
    );
}

#[test]
fn semaphore_register_pager() {
    let mut semaphore = Semaphore::default();
    let mut pager = Pager::default();

    assert!(!semaphore.register_pager(&mut pager, Semaphore::MAX_PERMITS + 1, true));
    assert!(semaphore.register_pager(&mut pager, 1, true));
    assert!(!semaphore.register_pager(&mut pager, 1, true));

    assert!(pager.poll_sync(&mut semaphore).unwrap().is_ok());
    assert_eq!(semaphore.available_permits(Relaxed), 62);

    let mut other = Pager::default();
    assert!(semaphore.register_pager(&mut other, 63, false));
    assert_eq!(other.poll_async(&mut semaphore), None);
    assert_eq!(other.try_poll(&mut semaphore), Err(Error::NotReady));
    assert!(semaphore.release());
    assert_eq!(other.poll_async(&mut semaphore), Some(Ok(())));
    assert_eq!(semaphore.available_permits(Relaxed), 0);
}

#[test]
fn semaphore_pager_cancel() {
    let mut semaphore = Semaphore::with_permits(5);
    let mut first = Pager::default();
    let mut second = Pager::default();
    assert!(semaphore.register_pager(&mut first, 6, true));
    assert!(semaphore.register_pager(&mut second, 4, true));
    assert_eq!(second.poll_sync(&mut semaphore), None);
    first.cancel(&mut semaphore);
    // The permits are available to the one behind it.
    assert_eq!(semaphore.available_permits(Relaxed), 1);
    second.cancel(&mut semaphore);
    assert_eq!(semaphore.available_permits(Relaxed), 5);
}
