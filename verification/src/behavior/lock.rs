//! What the operations of a [`Lock`] do.
use std::sync::atomic::Ordering;

use vstd::prelude::*;

use crate::behavior::service;
use crate::lock::Lock;
use crate::lock::Mode;
use crate::lock::Status;
use crate::memory::Memory;
use crate::memory::Tally;
use crate::opcode::Opcode;
use crate::pager::Pager;
use crate::pager::PagerHost;
use crate::sync_primitive::Acquisition;
use crate::sync_primitive::SyncPrimitive;
use crate::wait_queue::WaitQueue;

verus! {

/// A new [`Lock`] is free, and nobody waits.
pub proof fn law_default(r: Lock)
    requires
        call_ensures(Lock::default, (), r),
    ensures
        r.wf(),
        r.pending() == 0,
        r.memory().word == 0,
        r.memory().queue().len() == 0,
        r.memory().delivered.len() == 0,
        r.primitive.room() > 0,
{
}

/// A [`Lock`] is free if it is not poisoned and nobody owns it.
#[verifier::spinoff_prover]
#[verifier::rlimit(60)]
pub proof fn law_is_free<S: SyncPrimitive>(lock: Lock<S>, mo: Ordering, r: bool) -> (mid: Memory)
    requires
        lock.wf(),
        call_ensures(Lock::<S>::is_free, (&lock, mo), r),
    ensures
        lock.memory().rely(mid),
        lock.pending() == 0 ==> mid == lock.memory(),
        r <==> mid.word != 64 && mid.word % 64 == 0,
{
    choose|mid: Memory| #[trigger]
        lock.memory().rely(mid) && (lock.pending() == 0 ==> mid == lock.memory())
            && r == (mid.word != 64 && mid.data() == 0)
}

/// A [`Lock`] is locked if all the 63 resources are in use.
#[verifier::spinoff_prover]
#[verifier::rlimit(60)]
pub proof fn law_is_locked<S: SyncPrimitive>(lock: Lock<S>, mo: Ordering, r: bool) -> (mid: Memory)
    requires
        lock.wf(),
        call_ensures(Lock::<S>::is_locked, (&lock, mo), r),
    ensures
        lock.memory().rely(mid),
        lock.pending() == 0 ==> mid == lock.memory(),
        r <==> mid.word % 64 == 63,
{
    choose|mid: Memory| #[trigger]
        lock.memory().rely(mid) && (lock.pending() == 0 ==> mid == lock.memory())
            && r == (mid.data() == 63)
}

/// A [`Lock`] is shared if it has between 1 and 62 owners.
#[verifier::spinoff_prover]
#[verifier::rlimit(60)]
pub proof fn law_is_shared<S: SyncPrimitive>(lock: Lock<S>, mo: Ordering, r: bool) -> (mid: Memory)
    requires
        lock.wf(),
        call_ensures(Lock::<S>::is_shared, (&lock, mo), r),
    ensures
        lock.memory().rely(mid),
        lock.pending() == 0 ==> mid == lock.memory(),
        r <==> 1 <= mid.word % 64 <= 62,
{
    choose|mid: Memory| #[trigger]
        lock.memory().rely(mid) && (lock.pending() == 0 ==> mid == lock.memory())
            && r == (0 < mid.data() < 63)
}

/// A [`Lock`] is poisoned if its state word says nothing else.
#[verifier::spinoff_prover]
#[verifier::rlimit(60)]
pub proof fn law_is_poisoned<S: SyncPrimitive>(lock: Lock<S>, mo: Ordering, r: bool) -> (mid: Memory)
    requires
        lock.wf(),
        call_ensures(Lock::<S>::is_poisoned, (&lock, mo), r),
    ensures
        lock.memory().rely(mid),
        lock.pending() == 0 ==> mid == lock.memory(),
        r <==> mid.word == 64,
{
    choose|mid: Memory| #[trigger]
        lock.memory().rely(mid) && (lock.pending() == 0 ==> mid == lock.memory())
            && r == (mid.word == 64)
}

/// A [`Lock`] describes itself by the parts of its state word.
#[verifier::spinoff_prover]
#[verifier::rlimit(60)]
pub proof fn law_status<S: SyncPrimitive>(lock: Lock<S>, r: Status) -> (mid: Memory)
    requires
        lock.wf(),
        call_ensures(Lock::<S>::status, (&lock,), r),
    ensures
        lock.memory().rely(mid),
        lock.pending() == 0 ==> mid == lock.memory(),
        r.state == mid.word,
        r.locked <==> r.state % 64 == 63,
        r.locked ==> r.share_count == 0,
        !r.locked ==> r.share_count == r.state % 64,
        r.poisoned <==> r.state == 64,
        r.wait_queue_being_processed <==> r.state % 128 >= 64,
        r.wait_queue_tail_addr == r.state - r.state % 128,
{
    WaitQueue::lemma_split(r.state);
    choose|mid: Memory| #[trigger]
        lock.memory().rely(mid) && (lock.pending() == 0 ==> mid == lock.memory()) && r.state
            == mid.word
}

/// Nobody waits for a [`Lock`] that could be served: an exclusive owner only waits while somebody
/// owns it, and shared owners only while an exclusive lock is held or there are 62 of them.
#[verifier::spinoff_prover]
#[verifier::rlimit(60)]
pub proof fn law_nobody_waits_in_vain<S: SyncPrimitive>(lock: Lock<S>)
    requires
        lock.wf(),
        lock.pending() == 0,
        lock.memory().queue().len() > 0,
    ensures
        !service::lock_allows(
            (lock.memory().word % 64) as nat,
            lock.memory().nodes[lock.memory().queue()[0]].opcode,
        ),
        lock.memory().word >= 128,
        lock.memory().word % 128 < 64,
{
    WaitQueue::lemma_split(lock.memory().word);
    service::lemma_allows(
        true,
        lock.memory().data(),
        lock.memory().nodes[lock.memory().queue()[0]].opcode,
    );
}

/// An exclusive lock is acquired right away if the [`Lock`] is free, not poisoned, and nobody
/// waits.
///
/// Nobody else is affected, and nothing happens to the [`Lock`] if it fails.
#[verifier::spinoff_prover]
#[verifier::rlimit(60)]
pub proof fn law_try_lock<S: SyncPrimitive>(
    lock: &mut Lock<S>,
    before: Lock<S>,
    after: Lock<S>,
    r: bool,
) -> (mid: Memory)
    requires
        *old(lock) == before,
        *final(lock) == after,
        before.wf(),
        call_ensures(Lock::<S>::try_lock, (lock,), r),
    ensures
        before.memory().rely(mid),
        before.pending() == 0 ==> mid == before.memory(),
        r <==> mid.word == 0,
        after.memory().word == mid.word + (if r {
            63int
        } else {
            0
        }),
        after.memory().nodes == mid.nodes,
        after.memory().delivered == mid.delivered,
        r ==> after.memory().earned() == (Tally {
            whole: before.memory().earned().whole + 1,
            ..before.memory().earned()
        }),
        !r ==> after.memory() == mid,
{
    let old = before.memory();
    let new = after.memory();
    WaitQueue::lemma_split(new.word);
    if r {
        let mid = choose|mid: Memory| #[trigger]
            old.rely(mid) && mid.takes(new, Opcode::Exclusive)
                && (before.pending() == 0 ==> mid == old);
        old.law_acquired_is_held(mid, new, Opcode::Exclusive);
        WaitQueue::lemma_split(mid.word);
        mid
    } else {
        new
    }
}

/// An exclusive lock is acquired right away if the [`Lock`] is free, not poisoned, and nobody
/// waits.
///
/// The result is zero if it succeeds, two if the [`Lock`] is poisoned, and one otherwise; the state
/// word that was found comes with it.
#[verifier::spinoff_prover]
#[verifier::rlimit(60)]
pub proof fn law_try_lock_internal<S: SyncPrimitive>(
    lock: &mut Lock<S>,
    before: Lock<S>,
    after: Lock<S>,
    r: (u8, usize),
) -> (mid: Memory)
    requires
        *old(lock) == before,
        *final(lock) == after,
        before.wf(),
        call_ensures(Lock::<S>::try_lock_internal, (lock,), r),
    ensures
        before.memory().rely(mid),
        after.pending() == before.pending() ==> mid == before.memory(),
        r.0 <= 2,
        r.0 == 0 <==> mid.word == 0,
        r.0 == 2 <==> mid.word == 64,
        r.0 > 0 ==> r.1 == mid.word && after.memory() == mid,
        r.0 == 0 ==> {
            &&& after.memory().word == mid.word + 63
            &&& after.memory().nodes == mid.nodes
            &&& after.memory().delivered == mid.delivered
        },
{
    let old = before.memory();
    let new = after.memory();
    WaitQueue::lemma_split(new.word);
    if r.0 == 0 {
        let mid = choose|mid: Memory| #[trigger]
            old.rely(mid) && mid.takes(new, Opcode::Exclusive)
                && (after.pending() == before.pending() ==> mid == old);
        WaitQueue::lemma_split(mid.word);
        mid
    } else {
        new
    }
}

/// A shared lock is acquired right away if there are less than 62 owners, none of them exclusive,
/// the [`Lock`] is not poisoned, and nobody waits.
///
/// Nobody else is affected, and nothing happens to the [`Lock`] if it fails.
#[verifier::spinoff_prover]
#[verifier::rlimit(60)]
pub proof fn law_try_share<S: SyncPrimitive>(
    lock: &mut Lock<S>,
    before: Lock<S>,
    after: Lock<S>,
    r: bool,
) -> (mid: Memory)
    requires
        *old(lock) == before,
        *final(lock) == after,
        before.wf(),
        call_ensures(Lock::<S>::try_share, (lock,), r),
    ensures
        before.memory().rely(mid),
        before.pending() == 0 ==> mid == before.memory(),
        r <==> mid.word < 62,
        after.memory().word == mid.word + (if r {
            1int
        } else {
            0
        }),
        after.memory().nodes == mid.nodes,
        after.memory().delivered == mid.delivered,
        r ==> after.memory().earned() == (Tally {
            parts: before.memory().earned().parts + 1,
            ..before.memory().earned()
        }),
        !r ==> after.memory() == mid,
{
    let old = before.memory();
    let new = after.memory();
    WaitQueue::lemma_split(new.word);
    if r {
        let mid = choose|mid: Memory| #[trigger]
            old.rely(mid) && mid.takes(new, Opcode::Shared)
                && (before.pending() == 0 ==> mid == old);
        old.law_acquired_is_held(mid, new, Opcode::Shared);
        WaitQueue::lemma_split(mid.word);
        mid
    } else {
        new
    }
}

/// A shared lock is acquired right away if there are less than 62 owners, none of them exclusive,
/// the [`Lock`] is not poisoned, and nobody waits.
///
/// The result is zero if it succeeds, two if the [`Lock`] is poisoned, and one otherwise; the state
/// word that was found comes with it.
#[verifier::spinoff_prover]
#[verifier::rlimit(60)]
pub proof fn law_try_share_internal<S: SyncPrimitive>(
    lock: &mut Lock<S>,
    before: Lock<S>,
    after: Lock<S>,
    r: (u8, usize),
) -> (mid: Memory)
    requires
        *old(lock) == before,
        *final(lock) == after,
        before.wf(),
        call_ensures(Lock::<S>::try_share_internal, (lock,), r),
    ensures
        before.memory().rely(mid),
        after.pending() == before.pending() ==> mid == before.memory(),
        r.0 <= 2,
        r.0 == 0 <==> mid.word < 62,
        r.0 == 2 <==> mid.word == 64,
        r.0 > 0 ==> r.1 == mid.word && after.memory() == mid,
        r.0 == 0 ==> {
            &&& after.memory().word == mid.word + 1
            &&& after.memory().nodes == mid.nodes
            &&& after.memory().delivered == mid.delivered
        },
{
    let old = before.memory();
    let new = after.memory();
    WaitQueue::lemma_split(new.word);
    if r.0 == 0 {
        let mid = choose|mid: Memory| #[trigger]
            old.rely(mid) && mid.takes(new, Opcode::Shared)
                && (after.pending() == before.pending() ==> mid == old);
        WaitQueue::lemma_split(mid.word);
        mid
    } else {
        new
    }
}

/// A task has acquired a lock, or has started to wait for it, at the moment `mid`, when it found
/// the state word `seen`.
///
/// The lock is acquired right away if it is available, and refused if the [`Lock`] is poisoned.
/// Otherwise the task waits behind the others. Nobody else is affected.
pub open spec fn acquired(
    old: Memory,
    mid: Memory,
    seen: usize,
    new: Memory,
    r: Acquisition,
    exclusive: bool,
    is_sync: bool,
    alone: bool,
) -> bool {
    &&& old.rely(mid)
    &&& alone ==> mid == old && seen == old.word
    &&& r == Acquisition::Done(false) <==> seen == 64
    &&& r == Acquisition::Done(true) <==> if exclusive {
        seen == 0
    } else {
        seen < 62
    }
    &&& r == Acquisition::Done(false) ==> new == mid && seen == mid.word
    &&& r == Acquisition::Done(true) ==> {
        &&& seen == mid.word
        &&& new.word == mid.word + (if exclusive {
            63int
        } else {
            1
        })
        &&& new.nodes == mid.nodes
        &&& new.delivered == mid.delivered
        &&& exclusive ==> new.earned() == (Tally {
            whole: old.earned().whole + 1,
            ..old.earned()
        })
        &&& !exclusive ==> new.earned() == (Tally {
            parts: old.earned().parts + 1,
            ..old.earned()
        })
    }
    &&& r matches Acquisition::Waiting(entry) ==> {
        &&& new.earned() == old.earned()
        &&& !old.own.contains(entry)
        &&& new.own == old.own.insert(entry)
        &&& new.word == entry + seen % 128
        &&& new.nodes[entry].result is None
        &&& new.nodes[entry].is_sync == is_sync
        &&& new.nodes[entry].opcode == (if exclusive {
            Opcode::Exclusive
        } else {
            Opcode::Shared
        })
        &&& new.delivered == old.delivered
        &&& new.queue().len() > 0
        &&& new.queue().last() == entry
        &&& alone ==> {
            &&& new.queue() == old.queue().push(entry)
            &&& forall|e: usize|
                #![trigger new.nodes[e]]
                old.nodes.dom().contains(e) && e != entry ==> new.nodes[e] == old.nodes[e]
        }
    }
}

/// What acquiring a lock amounts to.
#[verifier::spinoff_prover]
#[verifier::rlimit(60)]
proof fn lemma_acquired(
    old: Memory,
    new: Memory,
    r: Acquisition,
    exclusive: bool,
    is_sync: bool,
    alone: bool,
) -> (moment: (Memory, usize))
    requires
        old.wf(),
        old.discipline == service::limited(true),
        new.wf(),
        r matches Acquisition::Waiting(entry) ==> new.nodes[entry].is_sync == is_sync,
        old.acquires(
            new,
            if exclusive {
                Opcode::Exclusive
            } else {
                Opcode::Shared
            },
            r,
            alone,
        ),
    ensures
        acquired(old, moment.0, moment.1, new, r, exclusive, is_sync, alone),
{
    let opcode = if exclusive {
        Opcode::Exclusive
    } else {
        Opcode::Shared
    };
    match r {
        Acquisition::Done(done) => if done {
            let mid = choose|mid: Memory| #[trigger]
                old.rely(mid) && mid.takes(new, opcode) && (alone ==> mid == old);
            old.law_acquired_is_held(mid, new, opcode);
            WaitQueue::lemma_split(mid.word);
            (mid, mid.word)
        } else {
            (new, new.word)
        },
        Acquisition::Waiting(entry) => {
            let (mid, seen) = choose|mid: Memory, seen: usize|
                old.rely(mid) && #[trigger] mid.may_wait(opcode, seen) && mid.enqueues(
                    new,
                    entry,
                    opcode,
                    seen,
                    alone,
                ) && (alone ==> mid == old);
            WaitQueue::lemma_split(seen);
            (mid, seen)
        },
    }
}

/// An exclusive lock is acquired right away if the [`Lock`] is free and nobody waits.
#[verifier::spinoff_prover]
#[verifier::rlimit(60)]
pub proof fn law_lock_async<S: SyncPrimitive>(
    lock: &mut Lock<S>,
    before: Lock<S>,
    after: Lock<S>,
    r: Acquisition,
) -> (moment: (Memory, usize))
    requires
        *old(lock) == before,
        *final(lock) == after,
        before.wf(),
        call_ensures(Lock::<S>::lock_async, (lock,), r),
    ensures
        acquired(
            before.memory(),
            moment.0,
            moment.1,
            after.memory(),
            r,
            true,
            false,
            after.pending() == before.pending(),
        ),
        r is Done ==> {
            &&& after.primitive.room() == before.primitive.room()
            &&& after.primitive.marks() == before.primitive.marks()
        },
        r matches Acquisition::Waiting(entry) ==> {
            &&& after.primitive.room() == before.primitive.room() - 1
            &&& after.primitive.marks() == before.primitive.marks().insert(entry)
        },
{
    lemma_acquired(
        before.memory(),
        after.memory(),
        r,
        true,
        false,
        after.pending() == before.pending(),
    )
}

/// An exclusive lock is acquired right away if the [`Lock`] is free and nobody waits.
#[verifier::spinoff_prover]
#[verifier::rlimit(60)]
pub proof fn law_lock_async_with<S: SyncPrimitive, F: FnOnce()>(
    lock: &mut Lock<S>,
    begin_wait: F,
    before: Lock<S>,
    after: Lock<S>,
    r: Acquisition,
) -> (moment: (Memory, usize))
    requires
        *old(lock) == before,
        *final(lock) == after,
        before.wf(),
        call_ensures(Lock::<S>::lock_async_with::<F>, (lock, begin_wait), r),
    ensures
        acquired(
            before.memory(),
            moment.0,
            moment.1,
            after.memory(),
            r,
            true,
            false,
            after.pending() == before.pending(),
        ),
        r is Done ==> {
            &&& after.primitive.room() == before.primitive.room()
            &&& after.primitive.marks() == before.primitive.marks()
        },
        r matches Acquisition::Waiting(entry) ==> {
            &&& after.primitive.room() == before.primitive.room() - 1
            &&& after.primitive.marks() == before.primitive.marks().insert(entry)
        },
        r is Waiting ==> begin_wait.ensures((), ()),
{
    lemma_acquired(
        before.memory(),
        after.memory(),
        r,
        true,
        false,
        after.pending() == before.pending(),
    )
}

/// An exclusive lock is acquired right away if the [`Lock`] is free and nobody waits.
#[verifier::spinoff_prover]
#[verifier::rlimit(60)]
pub proof fn law_lock_sync<S: SyncPrimitive>(
    lock: &mut Lock<S>,
    before: Lock<S>,
    after: Lock<S>,
    r: Acquisition,
) -> (moment: (Memory, usize))
    requires
        *old(lock) == before,
        *final(lock) == after,
        before.wf(),
        call_ensures(Lock::<S>::lock_sync, (lock,), r),
    ensures
        acquired(
            before.memory(),
            moment.0,
            moment.1,
            after.memory(),
            r,
            true,
            true,
            after.pending() == before.pending(),
        ),
        r is Done ==> {
            &&& after.primitive.room() == before.primitive.room()
            &&& after.primitive.marks() == before.primitive.marks()
        },
        r matches Acquisition::Waiting(entry) ==> {
            &&& after.primitive.room() == before.primitive.room() - 1
            &&& after.primitive.marks() == before.primitive.marks().insert(entry)
        },
{
    lemma_acquired(
        before.memory(),
        after.memory(),
        r,
        true,
        true,
        after.pending() == before.pending(),
    )
}

/// An exclusive lock is acquired right away if the [`Lock`] is free and nobody waits.
#[verifier::spinoff_prover]
#[verifier::rlimit(60)]
pub proof fn law_lock_sync_with<S: SyncPrimitive, F: FnOnce()>(
    lock: &mut Lock<S>,
    begin_wait: F,
    before: Lock<S>,
    after: Lock<S>,
    r: Acquisition,
) -> (moment: (Memory, usize))
    requires
        *old(lock) == before,
        *final(lock) == after,
        before.wf(),
        call_ensures(Lock::<S>::lock_sync_with::<F>, (lock, begin_wait), r),
    ensures
        acquired(
            before.memory(),
            moment.0,
            moment.1,
            after.memory(),
            r,
            true,
            true,
            after.pending() == before.pending(),
        ),
        r is Done ==> {
            &&& after.primitive.room() == before.primitive.room()
            &&& after.primitive.marks() == before.primitive.marks()
        },
        r matches Acquisition::Waiting(entry) ==> {
            &&& after.primitive.room() == before.primitive.room() - 1
            &&& after.primitive.marks() == before.primitive.marks().insert(entry)
        },
        r is Waiting ==> begin_wait.ensures((), ()),
{
    lemma_acquired(
        before.memory(),
        after.memory(),
        r,
        true,
        true,
        after.pending() == before.pending(),
    )
}

/// A shared lock is acquired right away if there are less than 62 shared owners and nobody waits.
#[verifier::spinoff_prover]
#[verifier::rlimit(60)]
pub proof fn law_share_async<S: SyncPrimitive>(
    lock: &mut Lock<S>,
    before: Lock<S>,
    after: Lock<S>,
    r: Acquisition,
) -> (moment: (Memory, usize))
    requires
        *old(lock) == before,
        *final(lock) == after,
        before.wf(),
        call_ensures(Lock::<S>::share_async, (lock,), r),
    ensures
        acquired(
            before.memory(),
            moment.0,
            moment.1,
            after.memory(),
            r,
            false,
            false,
            after.pending() == before.pending(),
        ),
        r is Done ==> {
            &&& after.primitive.room() == before.primitive.room()
            &&& after.primitive.marks() == before.primitive.marks()
        },
        r matches Acquisition::Waiting(entry) ==> {
            &&& after.primitive.room() == before.primitive.room() - 1
            &&& after.primitive.marks() == before.primitive.marks().insert(entry)
        },
{
    lemma_acquired(
        before.memory(),
        after.memory(),
        r,
        false,
        false,
        after.pending() == before.pending(),
    )
}

/// A shared lock is acquired right away if there are less than 62 shared owners and nobody waits.
#[verifier::spinoff_prover]
#[verifier::rlimit(60)]
pub proof fn law_share_async_with<S: SyncPrimitive, F: FnOnce()>(
    lock: &mut Lock<S>,
    begin_wait: F,
    before: Lock<S>,
    after: Lock<S>,
    r: Acquisition,
) -> (moment: (Memory, usize))
    requires
        *old(lock) == before,
        *final(lock) == after,
        before.wf(),
        call_ensures(Lock::<S>::share_async_with::<F>, (lock, begin_wait), r),
    ensures
        acquired(
            before.memory(),
            moment.0,
            moment.1,
            after.memory(),
            r,
            false,
            false,
            after.pending() == before.pending(),
        ),
        r is Done ==> {
            &&& after.primitive.room() == before.primitive.room()
            &&& after.primitive.marks() == before.primitive.marks()
        },
        r matches Acquisition::Waiting(entry) ==> {
            &&& after.primitive.room() == before.primitive.room() - 1
            &&& after.primitive.marks() == before.primitive.marks().insert(entry)
        },
        r is Waiting ==> begin_wait.ensures((), ()),
{
    lemma_acquired(
        before.memory(),
        after.memory(),
        r,
        false,
        false,
        after.pending() == before.pending(),
    )
}

/// A shared lock is acquired right away if there are less than 62 shared owners and nobody waits.
#[verifier::spinoff_prover]
#[verifier::rlimit(60)]
pub proof fn law_share_sync<S: SyncPrimitive>(
    lock: &mut Lock<S>,
    before: Lock<S>,
    after: Lock<S>,
    r: Acquisition,
) -> (moment: (Memory, usize))
    requires
        *old(lock) == before,
        *final(lock) == after,
        before.wf(),
        call_ensures(Lock::<S>::share_sync, (lock,), r),
    ensures
        acquired(
            before.memory(),
            moment.0,
            moment.1,
            after.memory(),
            r,
            false,
            true,
            after.pending() == before.pending(),
        ),
        r is Done ==> {
            &&& after.primitive.room() == before.primitive.room()
            &&& after.primitive.marks() == before.primitive.marks()
        },
        r matches Acquisition::Waiting(entry) ==> {
            &&& after.primitive.room() == before.primitive.room() - 1
            &&& after.primitive.marks() == before.primitive.marks().insert(entry)
        },
{
    lemma_acquired(
        before.memory(),
        after.memory(),
        r,
        false,
        true,
        after.pending() == before.pending(),
    )
}

/// A shared lock is acquired right away if there are less than 62 shared owners and nobody waits.
#[verifier::spinoff_prover]
#[verifier::rlimit(60)]
pub proof fn law_share_sync_with<S: SyncPrimitive, F: FnOnce()>(
    lock: &mut Lock<S>,
    begin_wait: F,
    before: Lock<S>,
    after: Lock<S>,
    r: Acquisition,
) -> (moment: (Memory, usize))
    requires
        *old(lock) == before,
        *final(lock) == after,
        before.wf(),
        call_ensures(Lock::<S>::share_sync_with::<F>, (lock, begin_wait), r),
    ensures
        acquired(
            before.memory(),
            moment.0,
            moment.1,
            after.memory(),
            r,
            false,
            true,
            after.pending() == before.pending(),
        ),
        r is Done ==> {
            &&& after.primitive.room() == before.primitive.room()
            &&& after.primitive.marks() == before.primitive.marks()
        },
        r matches Acquisition::Waiting(entry) ==> {
            &&& after.primitive.room() == before.primitive.room() - 1
            &&& after.primitive.marks() == before.primitive.marks().insert(entry)
        },
        r is Waiting ==> begin_wait.ensures((), ()),
{
    lemma_acquired(
        before.memory(),
        after.memory(),
        r,
        false,
        true,
        after.pending() == before.pending(),
    )
}

/// An exclusive lock is released if it is held, and the tasks that have been waiting for it are
/// served; nothing happens otherwise.
#[verifier::spinoff_prover]
#[verifier::rlimit(60)]
pub proof fn law_release_lock<S: SyncPrimitive>(
    lock: &mut Lock<S>,
    before: Lock<S>,
    after: Lock<S>,
    r: bool,
) -> (mid: Memory)
    requires
        *old(lock) == before,
        *final(lock) == after,
        before.wf(),
        call_ensures(Lock::<S>::release_lock, (lock,), r),
    ensures
        before.memory().rely(mid),
        before.pending() == 0 ==> mid == before.memory(),
        r <==> mid.word % 64 == 63,
        r ==> service::released(mid, after.memory(), 63, true, before.pending() == 0),
        r ==> after.memory().earned() == (Tally {
            whole: before.memory().earned().whole - 1,
            ..before.memory().earned()
        }),
        !r ==> after.memory() == mid,
{
    if r {
        let mid = choose|mid: Memory| #[trigger]
            before.memory().rely(mid) && mid.releases(
                after.memory(),
                Opcode::Exclusive,
                before.pending() == 0,
            ) && (before.pending() == 0 ==> mid == before.memory());
        before.memory().law_released_is_not_held(
            mid,
            after.memory(),
            Opcode::Exclusive,
            before.pending() == 0,
        );
        service::lemma_released(
            mid,
            after.memory(),
            Opcode::Exclusive,
            true,
            before.pending() == 0,
        );
        mid
    } else {
        after.memory()
    }
}

/// A shared lock is released if there are shared owners, and the tasks that have been waiting for
/// it are served; nothing happens otherwise.
#[verifier::spinoff_prover]
#[verifier::rlimit(60)]
pub proof fn law_release_share<S: SyncPrimitive>(
    lock: &mut Lock<S>,
    before: Lock<S>,
    after: Lock<S>,
    r: bool,
) -> (mid: Memory)
    requires
        *old(lock) == before,
        *final(lock) == after,
        before.wf(),
        call_ensures(Lock::<S>::release_share, (lock,), r),
    ensures
        before.memory().rely(mid),
        before.pending() == 0 ==> mid == before.memory(),
        r <==> 1 <= mid.word % 64 <= 62,
        r ==> service::released(mid, after.memory(), 1, true, before.pending() == 0),
        r ==> after.memory().earned() == (Tally {
            parts: before.memory().earned().parts - 1,
            ..before.memory().earned()
        }),
        !r ==> after.memory() == mid,
{
    if r {
        let mid = choose|mid: Memory| #[trigger]
            before.memory().rely(mid) && mid.releases(
                after.memory(),
                Opcode::Shared,
                before.pending() == 0,
            ) && (before.pending() == 0 ==> mid == before.memory());
        before.memory().law_released_is_not_held(
            mid,
            after.memory(),
            Opcode::Shared,
            before.pending() == 0,
        );
        service::lemma_released(
            mid,
            after.memory(),
            Opcode::Shared,
            true,
            before.pending() == 0,
        );
        mid
    } else {
        after.memory()
    }
}

/// A [`Lock`] is poisoned if an exclusive lock is held: each task that waits is told so, and
/// nothing is in use any more. Nothing happens otherwise.
#[verifier::spinoff_prover]
#[verifier::rlimit(60)]
pub proof fn law_poison_lock<S: SyncPrimitive>(
    lock: &mut Lock<S>,
    before: Lock<S>,
    after: Lock<S>,
    r: bool,
) -> (mid: Memory)
    requires
        *old(lock) == before,
        *final(lock) == after,
        before.wf(),
        call_ensures(Lock::<S>::poison_lock, (lock,), r),
    ensures
        before.memory().rely(mid),
        before.pending() == 0 ==> mid == before.memory(),
        r <==> mid.word % 64 == 63,
        !r ==> after.memory() == mid,
        r ==> {
            &&& after.memory().word == 64
            &&& service::resumes(mid, after.memory())
            &&& after.memory().queue().len() == 0
            &&& after.memory().delivered.len() == before.memory().delivered.len()
                + mid.queue().len()
            &&& forall|e: usize| #[trigger]
                mid.queue().contains(e) ==> after.memory().nodes[e].result == Some(2u8)
            &&& forall|e: usize|
                #![trigger after.memory().nodes[e]]
                mid.nodes.dom().contains(e) && !mid.queue().contains(e) ==> after.memory().nodes[e]
                    == mid.nodes[e]
        },
{
    if r {
        let mid = choose|mid: Memory| #[trigger]
            before.memory().rely(mid) && mid.poisons(after.memory()) && (before.pending() == 0
                ==> mid == before.memory());
        service::lemma_resumes(mid, after.memory());
        mid
    } else {
        after.memory()
    }
}

/// The poison of a [`Lock`] is cleared if it is poisoned, and the [`Lock`] is free. Nothing happens
/// otherwise.
#[verifier::spinoff_prover]
#[verifier::rlimit(60)]
pub proof fn law_clear_poison<S: SyncPrimitive>(
    lock: &mut Lock<S>,
    before: Lock<S>,
    after: Lock<S>,
    r: bool,
) -> (mid: Memory)
    requires
        *old(lock) == before,
        *final(lock) == after,
        before.wf(),
        call_ensures(Lock::<S>::clear_poison, (lock,), r),
    ensures
        before.memory().rely(mid),
        before.pending() == 0 ==> mid == before.memory(),
        r <==> mid.word == 64,
        !r ==> after.memory() == mid,
        r ==> {
            &&& after.memory().word == 0
            &&& after.memory().nodes == mid.nodes
            &&& after.memory().delivered == mid.delivered
        },
{
    if r {
        choose|mid: Memory| #[trigger]
            before.memory().rely(mid) && mid.word == 64 && after.memory() == mid.counted(0) && (
            before.pending() == 0 ==> mid == before.memory())
    } else {
        after.memory()
    }
}

/// A task has been registered in a [`Lock`]: it is handed a result, or waits behind the others.
pub open spec fn answered(old: Memory, new: Memory, entry: usize, mode: Mode) -> bool {
    match new.nodes[entry].result {
        None => new.queue().len() > 0 && new.queue().last() == entry && new.delivered
            == old.delivered,
        Some(result) => {
            &&& result == 2 <==> new.word == 64
            &&& result == 0 || result == 2
            &&& result == 0 && mode is Exclusive ==> new.word == 63
            &&& result == 0 && mode is Shared ==> 1 <= new.word <= 62
            &&& result == 0 && mode is WaitExclusive ==> new.word % 64 == 0
            &&& result == 0 && mode is WaitShared ==> new.word % 64 < 62
            &&& new.delivered.len() == old.delivered.len() + 1
        },
    }
}

/// The mode allows a task to be handed the result zero right away.
///
/// A task that wants to acquire the lock needs nobody to wait.
pub open spec fn at_once(word: usize, mode: Mode) -> bool {
    match mode {
        Mode::Exclusive => word == 0,
        Mode::Shared => word < 62,
        Mode::WaitExclusive => word != 64 && word % 64 == 0,
        Mode::WaitShared => word != 64 && word % 64 < 62,
    }
}

/// A task has been registered in a [`Lock`], and nobody has intervened.
pub open spec fn settled(old: Memory, new: Memory, entry: usize, mode: Mode) -> bool {
    &&& new.nodes[entry].result == Some(2u8) <==> old.word == 64
    &&& new.nodes[entry].result == Some(0u8) <==> at_once(old.word, mode)
    &&& new.nodes[entry].result is None <==> old.word != 64 && !at_once(old.word, mode)
    &&& at_once(old.word, mode) ==> new.word == old.word + (match mode {
        Mode::Exclusive => 63int,
        Mode::Shared => 1,
        _ => 0,
    })
    &&& old.word == 64 ==> new.word == 64
    &&& new.queue() == (if new.nodes[entry].result is None {
        old.queue().push(entry)
    } else {
        old.queue()
    })
    &&& new.nodes[entry].result is None ==> new.word == entry + old.word % 128
    &&& forall|e: usize|
        #![trigger new.nodes[e]]
        old.nodes.dom().contains(e) && e != entry ==> new.nodes[e] == old.nodes[e]
}

/// What being registered amounts to.
#[verifier::spinoff_prover]
#[verifier::rlimit(60)]
proof fn lemma_answered(old: Memory, new: Memory, entry: usize, mode: Mode, alone: bool)
    requires
        new.wf(),
        old.discipline == service::limited(true),
        old.registers(new, entry, mode.opcode(), alone),
    ensures
        answered(old, new, entry, mode),
{
    WaitQueue::lemma_split(new.word);
    if new.nodes[entry].result == Some(0u8) {
        WaitQueue::lemma_split((new.word - mode.opcode().held()) as usize);
    }
}

/// What being registered amounts to if nobody intervenes.
#[verifier::spinoff_prover]
#[verifier::rlimit(60)]
proof fn lemma_settled(old: Memory, new: Memory, entry: usize, mode: Mode)
    requires
        old.wf(),
        new.wf(),
        old.discipline == service::limited(true),
        old.registers(new, entry, mode.opcode(), true),
    ensures
        settled(old, new, entry, mode),
{
    WaitQueue::lemma_split(old.word);
    assert(old.available(old.word, mode.opcode()) == at_once(old.word, mode));
}

/// A [`Pager`] that is registered in a [`Lock`] is handed a result right away, or waits behind the
/// others.
///
/// A poisoned [`Lock`] refuses everybody. Otherwise, an exclusive lock and a shared lock are
/// acquired right away only if they are available and nobody waits. A task that does not want to
/// acquire the lock does not have to queue up: it is told right away if nobody owns the lock, or,
/// if it asks for a shared lock, if there are less than 62 owners.
#[verifier::spinoff_prover]
#[verifier::rlimit(60)]
pub proof fn law_register_pager<S: SyncPrimitive>(
    lock: &mut Lock<S>,
    pager: &mut Pager,
    before: Lock<S>,
    after: Lock<S>,
    was: Pager,
    now: Pager,
    mode: Mode,
    is_sync: bool,
    r: bool,
)
    requires
        *old(lock) == before,
        *final(lock) == after,
        *old(pager) == was,
        *final(pager) == now,
        before.wf(),
        call_ensures(Lock::<S>::register_pager, (lock, pager, mode, is_sync), r),
    ensures
        r <==> was.entry() is None,
        !r ==> now == was && after == before,
        r ==> {
            let old = before.memory();
            let new = after.memory();
            let entry = now.entry()->0;
            &&& now.entry() is Some
            &&& now.synchronous() == is_sync
            &&& !now.acked()
            &&& after.primitive.room() == before.primitive.room() - 1
            &&& after.primitive.marks() == (if after.memory().nodes[now.entry()->0].result is None {
                before.primitive.marks().insert(now.entry()->0)
            } else {
                before.primitive.marks()
            })
            &&& !old.own.contains(entry)
            &&& new.own == old.own.insert(entry)
            &&& new.nodes[entry].is_sync == is_sync
            &&& mode is Exclusive ==> new.nodes[entry].opcode == Opcode::Exclusive
            &&& mode is Shared ==> new.nodes[entry].opcode == Opcode::Shared
            &&& mode is WaitExclusive ==> new.nodes[entry].opcode == Opcode::Wait(63)
            &&& mode is WaitShared ==> new.nodes[entry].opcode == Opcode::Wait(1)
            &&& answered(old, new, entry, mode)
            &&& after.pending() == before.pending() ==> settled(old, new, entry, mode)
        },
{
    let alone = after.pending() == before.pending();
    if r {
        let entry = now.entry()->0;
        lemma_answered(before.memory(), after.memory(), entry, mode, alone);
        if alone {
            lemma_settled(before.memory(), after.memory(), entry, mode);
        }
    }
}

/// A task that gives up waiting leaves the [`Lock`], and what it had been handed is given back
/// unless it has acknowledged the result.
#[verifier::spinoff_prover]
#[verifier::rlimit(60)]
pub proof fn law_cancel<S: SyncPrimitive>(
    pager: &mut Pager,
    lock: &mut Lock<S>,
    was: Pager,
    now: Pager,
    before: Lock<S>,
    after: Lock<S>,
)
    requires
        *old(pager) == was,
        *final(pager) == now,
        *old(lock) == before,
        *final(lock) == after,
        before.wf(),
        was.wf(before.memory()),
        call_ensures(Pager::cancel::<Lock<S>>, (pager, lock), ()),
    ensures
        now.entry() is None,
        was.entry() matches Some(entry) ==> {
            &&& after.primitive.room() == before.primitive.room() + 1
            &&& after.primitive.marks() == before.primitive.marks().remove(entry)
        },
        was.entry() matches Some(entry) ==> {
            &&& after.memory().own == before.memory().own.remove(entry)
            &&& !after.memory().nodes.dom().contains(entry)
        },
        was.entry() is Some && !was.acked() && before.memory().offers(
            before.memory().nodes[was.entry()->0].opcode,
        ) ==> after.memory().earned() == before.memory().earned() || !service::usable(
            after.memory(),
            before.memory().nodes[was.entry()->0].opcode,
        ),
        was.entry() is None ==> after.memory() == before.memory(),
        was.acked() ==> {
            &&& after.memory().word == before.memory().word
            &&& after.memory().nodes == before.memory().nodes.remove(was.entry()->0)
            &&& after.memory().delivered == before.memory().delivered
        },
        before.pending() == 0 ==> service::left(before.memory(), after.memory(), was, true),
{
    let old = before.memory();
    let new = after.memory();
    if let Some(entry) = was.entry() {
        if was.acked() {
            assert(old.nodes.dom().contains(entry));
            assert(!old.queue().contains(entry));
            old.lemma_no_entry(entry);
            service::lemma_spared(old, old, new, entry);
        } else {
            assert(Lock::<S>::drops(old, new, entry, before.pending() == 0));
            if old.offers(old.nodes[entry].opcode) {
                old.law_giving_up_gives_back(new, entry, before.pending() == 0);
            }
            if before.pending() == 0 {
                service::lemma_left(old, new, was, true);
            }
        }
    }
}

/// A [`Lock`] can be released, poisoned and cleared in any state. It can be acquired as long as an
/// entry can be created; neither an entry nor the callback is needed if the task does not have to
/// wait.
#[verifier::spinoff_prover]
#[verifier::rlimit(60)]
pub proof fn law_callable<S: SyncPrimitive, F: FnOnce()>(
    lock: &mut Lock<S>,
    pager: &mut Pager,
    before: Lock<S>,
    was: Pager,
    mode: Mode,
    is_sync: bool,
    begin_wait: F,
    mo: Ordering,
)
    requires
        *old(lock) == before,
        *old(pager) == was,
        before.wf(),
    ensures
        call_requires(Lock::<S>::is_free, (&before, mo)),
        call_requires(Lock::<S>::is_locked, (&before, mo)),
        call_requires(Lock::<S>::is_shared, (&before, mo)),
        call_requires(Lock::<S>::is_poisoned, (&before, mo)),
        call_requires(Lock::<S>::status, (&before,)),
        call_requires(Lock::<S>::try_lock, (lock,)),
        call_requires(Lock::<S>::try_share, (lock,)),
        call_requires(Lock::<S>::release_lock, (lock,)),
        call_requires(Lock::<S>::release_share, (lock,)),
        call_requires(Lock::<S>::poison_lock, (lock,)),
        call_requires(Lock::<S>::clear_poison, (lock,)),
        before.primitive.room() > 0 || before.pending() == 0 && (before.memory().word == 0
            || before.memory().word == 64) ==> {
            &&& call_requires(Lock::<S>::lock_sync, (lock,))
            &&& call_requires(Lock::<S>::lock_async, (lock,))
        },
        before.primitive.room() > 0 || before.pending() == 0 && (before.memory().word < 62
            || before.memory().word == 64) ==> {
            &&& call_requires(Lock::<S>::share_sync, (lock,))
            &&& call_requires(Lock::<S>::share_async, (lock,))
        },
        before.primitive.room() > 0 && begin_wait.requires(()) || before.pending() == 0 && (
        before.memory().word == 0 || before.memory().word == 64) ==> {
            &&& call_requires(Lock::<S>::lock_sync_with::<F>, (lock, begin_wait))
            &&& call_requires(Lock::<S>::lock_async_with::<F>, (lock, begin_wait))
        },
        before.primitive.room() > 0 && begin_wait.requires(()) || before.pending() == 0 && (
        before.memory().word < 62 || before.memory().word == 64) ==> {
            &&& call_requires(Lock::<S>::share_sync_with::<F>, (lock, begin_wait))
            &&& call_requires(Lock::<S>::share_async_with::<F>, (lock, begin_wait))
        },
        before.primitive.room() > 0 || was.entry() is Some ==> call_requires(
            Lock::<S>::register_pager,
            (lock, pager, mode, is_sync),
        ),
        was.wf(before.memory()) ==> {
            &&& call_requires(Pager::poll_sync::<Lock<S>>, (pager, lock))
            &&& call_requires(Pager::poll_async::<Lock<S>>, (pager, lock))
            &&& call_requires(Pager::try_poll::<Lock<S>>, (pager, lock))
            &&& call_requires(Pager::cancel::<Lock<S>>, (pager, lock))
        },
{
    WaitQueue::lemma_split(before.memory().word);
}

/// A [`Lock`] that was acquired is seen to be owned, exclusively or not, unless other tasks
/// intervene.
#[verifier::spinoff_prover]
#[verifier::rlimit(60)]
pub proof fn law_ownership_is_seen<S: SyncPrimitive>(
    lock: &mut Lock<S>,
    before: Lock<S>,
    after: Lock<S>,
    mo: Ordering,
    exclusive: bool,
    r: bool,
    free: bool,
    locked: bool,
    shared: bool,
)
    requires
        *old(lock) == before,
        *final(lock) == after,
        before.wf(),
        before.pending() == 0,
        after.pending() == 0,
        exclusive ==> call_ensures(Lock::<S>::try_lock, (lock,), r),
        !exclusive ==> call_ensures(Lock::<S>::try_share, (lock,), r),
        call_ensures(Lock::<S>::is_free, (&after, mo), free),
        call_ensures(Lock::<S>::is_locked, (&after, mo), locked),
        call_ensures(Lock::<S>::is_shared, (&after, mo), shared),
    ensures
        r ==> !free && locked == exclusive && shared == !exclusive,
        !(locked && shared),
        free ==> !locked && !shared,
{
    if exclusive {
        law_try_lock(lock, before, after, r);
    } else {
        law_try_share(lock, before, after, r);
    }
    law_is_free(after, mo, free);
    law_is_locked(after, mo, locked);
    law_is_shared(after, mo, shared);
}

/// The numbers by which the limit on shared owners, the poisoned state and the results are known.
pub proof fn law_constants()
    ensures
        Lock::MAX_SHARED_OWNERS == 62,
        Lock::POISONED_STATE == 64,
        Lock::ACQUIRED == 0,
        Lock::NOT_ACQUIRED == 1,
        Lock::POISONED == 2,
{
}

} // verus!
