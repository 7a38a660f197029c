use std::sync::atomic::Ordering::Relaxed;

use saa::barrier::Status;
use saa::pager::Error;
use saa::sync_primitive::{Acquisition, SyncPrimitive};
use saa::{Barrier, Pager};

#[test]
fn barrier() {
    let mut barrier = Barrier::with_count(8);

    for _ in 0..4 {
        let mut entries = Vec::new();
        for i in 0..7 {
            let Acquisition::Waiting(entry) = barrier.wait_sync() else {
                unreachable!()
            };
            entries.push(entry);
            assert_eq!(barrier.count(Relaxed), 7 - i);
        }
        for entry in &entries {
            assert_eq!(barrier.primitive.try_acknowledge_result(*entry), None);
        }
        assert_eq!(barrier.wait_sync(), Acquisition::Done(true));
        for entry in entries {
            assert_eq!(barrier.primitive.try_acknowledge_result(entry), Some(0));
            barrier.primitive.discard(entry);
        }
        assert_eq!(barrier.count(Relaxed), 8);
    }

    assert_eq!(barrier.count(Relaxed), 8);
}

#[test]
fn barrier_with_count() {
    assert_eq!(Barrier::MAX_TASKS, 63);
    assert_eq!(Barrier::default().count(Relaxed), 63);
    assert_eq!(Barrier::with_count(11).count(Relaxed), 11);
    assert_eq!(Barrier::with_count(usize::MAX).count(Relaxed), 63);
}

#[test]
fn barrier_of_one_task() {
    for count in 0..2 {
        let mut barrier = Barrier::with_count(count);
        assert_eq!(barrier.wait_sync(), Acquisition::Done(true));
        assert_eq!(barrier.wait_async(), Acquisition::Done(true));
        assert_eq!(barrier.count(Relaxed), count);
    }
}

#[test]
fn barrier_wait_callback() {
    let mut barrier = Barrier::with_count(3);
    let mut wait = 0;
    assert!(matches!(
        barrier.wait_sync_with(|| {
            wait += 1;
        }),
        Acquisition::Waiting(_)
    ));
    assert_eq!(wait, 1);
    assert!(matches!(
        barrier.wait_async_with(|| {
            wait += 1;
        }),
        Acquisition::Waiting(_)
    ));
    assert_eq!(wait, 2);
    assert_eq!(
        barrier.wait_sync_with(|| {
            wait += 1;
        }),
        Acquisition::Done(true)
    );
    assert_eq!(wait, 2);
}

#[test]
fn barrier_register_pager() {
    let mut barrier = Barrier::with_count(4);
    let mut first = Pager::default();
    let mut second = Pager::default();

    for count in [Barrier::MAX_TASKS + 1, 256, 257] {
        assert!(!barrier.register_pager(&mut first, count, true));
        assert!(!first.is_registered());
        assert_eq!(barrier.count(Relaxed), 4);
    }
    assert!(barrier.register_pager(&mut first, 3, true));
    assert!(!barrier.register_pager(&mut first, 1, true));
    assert_eq!(barrier.count(Relaxed), 1);
    assert_eq!(first.poll_sync(&mut barrier), None);
    assert_eq!(first.try_poll(&mut barrier), Err(Error::NotReady));

    assert!(barrier.register_pager(&mut second, 2, false));
    assert_eq!(first.poll_sync(&mut barrier), Some(Ok(())));
    assert_eq!(second.poll_async(&mut barrier), Some(Ok(())));
    assert_eq!(barrier.count(Relaxed), 4);
}

#[test]
fn barrier_cancel_undoes_arrival() {
    let mut barrier = Barrier::with_count(5);
    let mut first = Pager::default();
    let mut second = Pager::default();
    let mut third = Pager::default();
    assert!(barrier.register_pager(&mut first, 1, true));
    let before = barrier.status();
    assert!(barrier.register_pager(&mut second, 2, true));
    second.cancel(&mut barrier);
    assert_eq!(barrier.status(), before);

    // The entry in front of another one, and the only one.
    assert!(barrier.register_pager(&mut third, 1, true));
    first.cancel(&mut barrier);
    assert_eq!(barrier.count(Relaxed), 4);
    third.cancel(&mut barrier);
    assert_eq!(barrier.count(Relaxed), 5);
    assert_eq!(barrier.status().wait_queue_tail_addr, 0);

    // Those who have been released are gone.
    assert!(barrier.register_pager(&mut first, 4, true));
    assert_eq!(barrier.wait_sync(), Acquisition::Done(true));
    first.cancel(&mut barrier);
    assert_eq!(barrier.count(Relaxed), 5);
}

#[test]
fn barrier_status() {
    let mut barrier = Barrier::with_count(3);
    let Acquisition::Waiting(entry) = barrier.wait_sync() else {
        unreachable!()
    };
    assert_eq!(
        barrier.status(),
        Status {
            state: entry + 2,
            missing: 2,
            wait_queue_being_processed: false,
            wait_queue_tail_addr: entry,
        }
    );
}
