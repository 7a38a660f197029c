//! What the operations of a [`Semaphore`] do.
use std::sync::atomic::Ordering;

use vstd::prelude::*;

use crate::behavior::service;
use crate::memory::Memory;
use crate::memory::Tally;
use crate::opcode::Opcode;
use crate::pager::Pager;
use crate::pager::PagerHost;
use crate::semaphore::Semaphore;
use crate::semaphore::Status;
use crate::sync_primitive::Acquisition;
use crate::sync_primitive::SyncPrimitive;
use crate::wait_queue::WaitQueue;

verus! {

/// A new [`Semaphore`] has as many permits as it is told to, up to 63 of them, and nobody waits.
pub proof fn law_with_permits(permits: usize, r: Semaphore, other: Semaphore)
    requires
        call_ensures(Semaphore::with_permits, (permits,), r),
        call_ensures(Semaphore::default, (), other),
    ensures
        r.wf(),
        r.pending() == 0,
        63 - r.memory().word == (if permits < 63 {
            permits as int
        } else {
            63
        }),
        r.memory().queue().len() == 0,
        r.memory().delivered.len() == 0,
        r.primitive.room() > 0,
        other.wf(),
        other.pending() == 0,
        other.memory().word == 0,
        other.memory().queue().len() == 0,
        other.memory().delivered.len() == 0,
        other.primitive.room() > 0,
{
}

/// A [`Semaphore`] is open if a permit is available.
#[verifier::spinoff_prover]
#[verifier::rlimit(60)]
pub proof fn law_is_open<S: SyncPrimitive>(
    semaphore: Semaphore<S>,
    mo: Ordering,
    r: bool,
) -> (mid: Memory)
    requires
        semaphore.wf(),
        call_ensures(Semaphore::<S>::is_open, (&semaphore, mo), r),
    ensures
        semaphore.memory().rely(mid),
        semaphore.pending() == 0 ==> mid == semaphore.memory(),
        r <==> mid.word % 64 < 63,
{
    choose|mid: Memory| #[trigger]
        semaphore.memory().rely(mid) && (semaphore.pending() == 0 ==> mid == semaphore.memory())
            && r == (mid.data() < 63)
}

/// A [`Semaphore`] is closed if no permits are available.
#[verifier::spinoff_prover]
#[verifier::rlimit(60)]
pub proof fn law_is_closed<S: SyncPrimitive>(
    semaphore: Semaphore<S>,
    mo: Ordering,
    r: bool,
) -> (mid: Memory)
    requires
        semaphore.wf(),
        call_ensures(Semaphore::<S>::is_closed, (&semaphore, mo), r),
    ensures
        semaphore.memory().rely(mid),
        semaphore.pending() == 0 ==> mid == semaphore.memory(),
        r <==> mid.word % 64 == 63,
{
    choose|mid: Memory| #[trigger]
        semaphore.memory().rely(mid) && (semaphore.pending() == 0 ==> mid == semaphore.memory())
            && r == (mid.data() == 63)
}

/// The permits that are not in use are available; there are 63 of them.
#[verifier::spinoff_prover]
#[verifier::rlimit(60)]
pub proof fn law_available_permits<S: SyncPrimitive>(
    semaphore: Semaphore<S>,
    mo: Ordering,
    r: usize,
) -> (mid: Memory)
    requires
        semaphore.wf(),
        call_ensures(Semaphore::<S>::available_permits, (&semaphore, mo), r),
    ensures
        semaphore.memory().rely(mid),
        semaphore.pending() == 0 ==> mid == semaphore.memory(),
        r == 63 - mid.word % 64,
{
    choose|mid: Memory| #[trigger]
        semaphore.memory().rely(mid) && (semaphore.pending() == 0 ==> mid == semaphore.memory())
            && r == (63 - mid.data())
}

/// A [`Semaphore`] describes itself by the parts of its state word.
#[verifier::spinoff_prover]
#[verifier::rlimit(60)]
pub proof fn law_status<S: SyncPrimitive>(semaphore: Semaphore<S>, r: Status) -> (mid: Memory)
    requires
        semaphore.wf(),
        call_ensures(Semaphore::<S>::status, (&semaphore,), r),
    ensures
        semaphore.memory().rely(mid),
        semaphore.pending() == 0 ==> mid == semaphore.memory(),
        r.state == mid.word,
        r.available_permits == 63 - r.state % 64,
        r.wait_queue_being_processed <==> r.state % 128 >= 64,
        r.wait_queue_tail_addr == r.state - r.state % 128,
{
    WaitQueue::lemma_split(r.state);
    choose|mid: Memory| #[trigger]
        semaphore.memory().rely(mid) && (semaphore.pending() == 0 ==> mid == semaphore.memory())
            && r.state == mid.word
}

/// Nobody waits for permits that are available: the task that has been waiting for the longest time
/// asks for more than there are.
#[verifier::spinoff_prover]
#[verifier::rlimit(60)]
pub proof fn law_nobody_waits_in_vain<S: SyncPrimitive>(semaphore: Semaphore<S>)
    requires
        semaphore.wf(),
        semaphore.pending() == 0,
        semaphore.memory().queue().len() > 0,
    ensures
        !service::semaphore_allows(
            (semaphore.memory().word % 64) as nat,
            semaphore.memory().nodes[semaphore.memory().queue()[0]].opcode,
        ),
        semaphore.memory().word >= 128,
        semaphore.memory().word % 128 < 64,
{
    WaitQueue::lemma_split(semaphore.memory().word);
    service::lemma_allows(
        false,
        semaphore.memory().data(),
        semaphore.memory().nodes[semaphore.memory().queue()[0]].opcode,
    );
}

/// A permit is acquired right away if it is available and nobody waits. Nobody else is affected,
/// and nothing happens to the [`Semaphore`] otherwise.
#[verifier::spinoff_prover]
#[verifier::rlimit(60)]
pub proof fn law_try_acquire<S: SyncPrimitive>(
    semaphore: &mut Semaphore<S>,
    before: Semaphore<S>,
    after: Semaphore<S>,
    r: bool,
) -> (mid: Memory)
    requires
        *old(semaphore) == before,
        *final(semaphore) == after,
        before.wf(),
        call_ensures(Semaphore::<S>::try_acquire, (semaphore,), r),
    ensures
        before.memory().rely(mid),
        before.pending() == 0 ==> mid == before.memory(),
        r <==> mid.word + 1 <= 63,
        r ==> after.memory().word == mid.word + 1,
        after.memory().nodes == mid.nodes,
        after.memory().delivered == mid.delivered,
        r ==> after.memory().earned() == (Tally {
            parts: before.memory().earned().parts + 1,
            ..before.memory().earned()
        }),
        !r ==> after.memory() == mid,
{
    let old = before.memory();
    let new = after.memory();
    WaitQueue::lemma_split(new.word);
    if r {
        let mid = choose|mid: Memory| #[trigger]
            old.rely(mid) && mid.takes(new, Opcode::Semaphore(1))
                && (before.pending() == 0 ==> mid == old);
        old.law_acquired_is_held(mid, new, Opcode::Semaphore(1));
        WaitQueue::lemma_split(mid.word);
        mid
    } else {
        old.lemma_rely_reflexive();
        new
    }
}

/// Permits are acquired right away if they are available and nobody waits. Nobody else is affected,
/// and nothing happens to the [`Semaphore`] otherwise.
#[verifier::spinoff_prover]
#[verifier::rlimit(60)]
pub proof fn law_try_acquire_many<S: SyncPrimitive>(
    semaphore: &mut Semaphore<S>,
    before: Semaphore<S>,
    after: Semaphore<S>,
    number: usize,
    r: bool,
) -> (mid: Memory)
    requires
        *old(semaphore) == before,
        *final(semaphore) == after,
        before.wf(),
        call_ensures(Semaphore::<S>::try_acquire_many, (semaphore, number), r),
    ensures
        before.memory().rely(mid),
        before.pending() == 0 ==> mid == before.memory(),
        r <==> mid.word + number <= 63,
        r ==> after.memory().word == mid.word + number,
        after.memory().nodes == mid.nodes,
        after.memory().delivered == mid.delivered,
        r ==> after.memory().earned() == (Tally {
            parts: before.memory().earned().parts + number,
            ..before.memory().earned()
        }),
        !r ==> after.memory() == mid,
{
    let old = before.memory();
    let new = after.memory();
    WaitQueue::lemma_split(new.word);
    if r {
        let mid = choose|mid: Memory| #[trigger]
            old.rely(mid) && mid.takes(new, Opcode::Semaphore(number as u8))
                && (before.pending() == 0 ==> mid == old);
        old.law_acquired_is_held(mid, new, Opcode::Semaphore(number as u8));
        WaitQueue::lemma_split(mid.word);
        mid
    } else {
        old.lemma_rely_reflexive();
        new
    }
}

/// A task has acquired permits, or has started to wait for them, at the moment `mid`, when it found
/// the state word `seen`.
///
/// They are acquired right away if they are available and nobody waits. Otherwise the task waits
/// behind the others. Nobody else is affected.
pub open spec fn acquired(
    old: Memory,
    mid: Memory,
    seen: usize,
    new: Memory,
    r: Acquisition,
    number: nat,
    is_sync: bool,
    alone: bool,
) -> bool {
    &&& old.rely(mid)
    &&& alone ==> mid == old && seen == old.word
    &&& r != Acquisition::Done(false)
    &&& r == Acquisition::Done(true) <==> seen + number <= 63
    &&& r == Acquisition::Done(true) ==> {
        &&& seen == mid.word
        &&& new.word == mid.word + number
        &&& new.nodes == mid.nodes
        &&& new.delivered == mid.delivered
        &&& new.earned() == (Tally { parts: old.earned().parts + number, ..old.earned() })
    }
    &&& r matches Acquisition::Waiting(entry) ==> {
        &&& new.earned() == old.earned()
        &&& !old.own.contains(entry)
        &&& new.own == old.own.insert(entry)
        &&& new.word == entry + seen % 128
        &&& new.nodes[entry].result is None
        &&& new.nodes[entry].is_sync == is_sync
        &&& number <= 63 ==> new.nodes[entry].opcode == Opcode::Semaphore(number as u8)
        &&& number > 63 ==> new.nodes[entry].opcode == Opcode::Semaphore(64)
        &&& new.delivered == old.delivered
        &&& new.queue().len() > 0
        &&& new.queue().last() == entry
        &&& alone ==> {
            &&& new.queue() == old.queue().push(entry)
            &&& forall|e: usize|
                #![trigger new.nodes[e]]
                old.nodes.dom().contains(e) && e != entry ==> new.nodes[e] == old.nodes[e]
        }
    }
}

/// What acquiring permits amounts to.
#[verifier::spinoff_prover]
#[verifier::rlimit(60)]
proof fn lemma_acquired(
    old: Memory,
    new: Memory,
    r: Acquisition,
    number: usize,
    is_sync: bool,
    alone: bool,
) -> (moment: (Memory, usize))
    requires
        old.wf(),
        old.discipline == service::limited(false),
        new.wf(),
        r != Acquisition::Done(false),
        r matches Acquisition::Waiting(entry) ==> new.nodes[entry].is_sync == is_sync,
        old.acquires(
            new,
            Opcode::Semaphore(
                if number <= 63 {
                    number as u8
                } else {
                    64
                },
            ),
            r,
            alone,
        ),
    ensures
        acquired(old, moment.0, moment.1, new, r, number as nat, is_sync, alone),
{
    let opcode = Opcode::Semaphore(
        if number <= 63 {
            number as u8
        } else {
            64
        },
    );
    match r {
        Acquisition::Done(_) => {
            let mid = choose|mid: Memory| #[trigger]
                old.rely(mid) && mid.takes(new, opcode) && (alone ==> mid == old);
            old.law_acquired_is_held(mid, new, opcode);
            WaitQueue::lemma_split(mid.word);
            (mid, mid.word)
        },
        Acquisition::Waiting(entry) => {
            let (mid, seen) = choose|mid: Memory, seen: usize|
                old.rely(mid) && #[trigger] mid.may_wait(opcode, seen) && mid.enqueues(
                    new,
                    entry,
                    opcode,
                    seen,
                    alone,
                ) && (alone ==> mid == old);
            WaitQueue::lemma_split(seen);
            (mid, seen)
        },
    }
}

/// A permit is acquired right away if one is available and nobody waits.
#[verifier::spinoff_prover]
#[verifier::rlimit(60)]
pub proof fn law_acquire_async<S: SyncPrimitive>(
    semaphore: &mut Semaphore<S>,
    before: Semaphore<S>,
    after: Semaphore<S>,
    r: Acquisition,
) -> (moment: (Memory, usize))
    requires
        *old(semaphore) == before,
        *final(semaphore) == after,
        before.wf(),
        call_ensures(Semaphore::<S>::acquire_async, (semaphore,), r),
    ensures
        acquired(
            before.memory(),
            moment.0,
            moment.1,
            after.memory(),
            r,
            1,
            false,
            after.pending() == before.pending(),
        ),
        r is Done ==> {
            &&& after.primitive.room() == before.primitive.room()
            &&& after.primitive.marks() == before.primitive.marks()
        },
        r matches Acquisition::Waiting(entry) ==> {
            &&& after.primitive.room() == before.primitive.room() - 1
            &&& after.primitive.marks() == before.primitive.marks().insert(entry)
        },
{
    lemma_acquired(
        before.memory(),
        after.memory(),
        r,
        1,
        false,
        after.pending() == before.pending(),
    )
}

/// A permit is acquired right away if one is available and nobody waits.
#[verifier::spinoff_prover]
#[verifier::rlimit(60)]
pub proof fn law_acquire_async_with<S: SyncPrimitive, F: FnOnce()>(
    semaphore: &mut Semaphore<S>,
    begin_wait: F,
    before: Semaphore<S>,
    after: Semaphore<S>,
    r: Acquisition,
) -> (moment: (Memory, usize))
    requires
        *old(semaphore) == before,
        *final(semaphore) == after,
        before.wf(),
        call_ensures(Semaphore::<S>::acquire_async_with::<F>, (semaphore, begin_wait), r),
    ensures
        acquired(
            before.memory(),
            moment.0,
            moment.1,
            after.memory(),
            r,
            1,
            false,
            after.pending() == before.pending(),
        ),
        r is Done ==> {
            &&& after.primitive.room() == before.primitive.room()
            &&& after.primitive.marks() == before.primitive.marks()
        },
        r matches Acquisition::Waiting(entry) ==> {
            &&& after.primitive.room() == before.primitive.room() - 1
            &&& after.primitive.marks() == before.primitive.marks().insert(entry)
        },
        r is Waiting ==> begin_wait.ensures((), ()),
{
    lemma_acquired(
        before.memory(),
        after.memory(),
        r,
        1,
        false,
        after.pending() == before.pending(),
    )
}

/// A permit is acquired right away if one is available and nobody waits.
#[verifier::spinoff_prover]
#[verifier::rlimit(60)]
pub proof fn law_acquire_sync<S: SyncPrimitive>(
    semaphore: &mut Semaphore<S>,
    before: Semaphore<S>,
    after: Semaphore<S>,
    r: Acquisition,
) -> (moment: (Memory, usize))
    requires
        *old(semaphore) == before,
        *final(semaphore) == after,
        before.wf(),
        call_ensures(Semaphore::<S>::acquire_sync, (semaphore,), r),
    ensures
        acquired(
            before.memory(),
            moment.0,
            moment.1,
            after.memory(),
            r,
            1,
            true,
            after.pending() == before.pending(),
        ),
        r is Done ==> {
            &&& after.primitive.room() == before.primitive.room()
            &&& after.primitive.marks() == before.primitive.marks()
        },
        r matches Acquisition::Waiting(entry) ==> {
            &&& after.primitive.room() == before.primitive.room() - 1
            &&& after.primitive.marks() == before.primitive.marks().insert(entry)
        },
{
    lemma_acquired(
        before.memory(),
        after.memory(),
        r,
        1,
        true,
        after.pending() == before.pending(),
    )
}

/// A permit is acquired right away if one is available and nobody waits.
#[verifier::spinoff_prover]
#[verifier::rlimit(60)]
pub proof fn law_acquire_sync_with<S: SyncPrimitive, F: FnOnce()>(
    semaphore: &mut Semaphore<S>,
    begin_wait: F,
    before: Semaphore<S>,
    after: Semaphore<S>,
    r: Acquisition,
) -> (moment: (Memory, usize))
    requires
        *old(semaphore) == before,
        *final(semaphore) == after,
        before.wf(),
        call_ensures(Semaphore::<S>::acquire_sync_with::<F>, (semaphore, begin_wait), r),
    ensures
        acquired(
            before.memory(),
            moment.0,
            moment.1,
            after.memory(),
            r,
            1,
            true,
            after.pending() == before.pending(),
        ),
        r is Done ==> {
            &&& after.primitive.room() == before.primitive.room()
            &&& after.primitive.marks() == before.primitive.marks()
        },
        r matches Acquisition::Waiting(entry) ==> {
            &&& after.primitive.room() == before.primitive.room() - 1
            &&& after.primitive.marks() == before.primitive.marks().insert(entry)
        },
        r is Waiting ==> begin_wait.ensures((), ()),
{
    lemma_acquired(
        before.memory(),
        after.memory(),
        r,
        1,
        true,
        after.pending() == before.pending(),
    )
}

/// Permits are acquired right away if they are available and nobody waits. Nobody ever gets more
/// than there are.
#[verifier::spinoff_prover]
#[verifier::rlimit(60)]
pub proof fn law_acquire_many_async<S: SyncPrimitive>(
    semaphore: &mut Semaphore<S>,
    number: usize,
    before: Semaphore<S>,
    after: Semaphore<S>,
    r: Acquisition,
) -> (moment: (Memory, usize))
    requires
        *old(semaphore) == before,
        *final(semaphore) == after,
        before.wf(),
        call_ensures(Semaphore::<S>::acquire_many_async, (semaphore, number), r),
    ensures
        acquired(
            before.memory(),
            moment.0,
            moment.1,
            after.memory(),
            r,
            number as nat,
            false,
            after.pending() == before.pending(),
        ),
        r is Done ==> {
            &&& after.primitive.room() == before.primitive.room()
            &&& after.primitive.marks() == before.primitive.marks()
        },
        r matches Acquisition::Waiting(entry) ==> {
            &&& after.primitive.room() == before.primitive.room() - 1
            &&& after.primitive.marks() == before.primitive.marks().insert(entry)
        },
{
    lemma_acquired(
        before.memory(),
        after.memory(),
        r,
        number,
        false,
        after.pending() == before.pending(),
    )
}

/// Permits are acquired right away if they are available and nobody waits. Nobody ever gets more
/// than there are.
#[verifier::spinoff_prover]
#[verifier::rlimit(60)]
pub proof fn law_acquire_many_async_with<S: SyncPrimitive, F: FnOnce()>(
    semaphore: &mut Semaphore<S>,
    number: usize,
    begin_wait: F,
    before: Semaphore<S>,
    after: Semaphore<S>,
    r: Acquisition,
) -> (moment: (Memory, usize))
    requires
        *old(semaphore) == before,
        *final(semaphore) == after,
        before.wf(),
        call_ensures(
            Semaphore::<S>::acquire_many_async_with::<F>,
            (semaphore, number, begin_wait),
            r,
        ),
    ensures
        acquired(
            before.memory(),
            moment.0,
            moment.1,
            after.memory(),
            r,
            number as nat,
            false,
            after.pending() == before.pending(),
        ),
        r is Done ==> {
            &&& after.primitive.room() == before.primitive.room()
            &&& after.primitive.marks() == before.primitive.marks()
        },
        r matches Acquisition::Waiting(entry) ==> {
            &&& after.primitive.room() == before.primitive.room() - 1
            &&& after.primitive.marks() == before.primitive.marks().insert(entry)
        },
        r is Waiting ==> begin_wait.ensures((), ()),
{
    lemma_acquired(
        before.memory(),
        after.memory(),
        r,
        number,
        false,
        after.pending() == before.pending(),
    )
}

/// Permits are acquired right away if they are available and nobody waits. Nobody ever gets more
/// than there are.
#[verifier::spinoff_prover]
#[verifier::rlimit(60)]
pub proof fn law_acquire_many_sync<S: SyncPrimitive>(
    semaphore: &mut Semaphore<S>,
    number: usize,
    before: Semaphore<S>,
    after: Semaphore<S>,
    r: Acquisition,
) -> (moment: (Memory, usize))
    requires
        *old(semaphore) == before,
        *final(semaphore) == after,
        before.wf(),
        call_ensures(Semaphore::<S>::acquire_many_sync, (semaphore, number), r),
    ensures
        acquired(
            before.memory(),
            moment.0,
            moment.1,
            after.memory(),
            r,
            number as nat,
            true,
            after.pending() == before.pending(),
        ),
        r is Done ==> {
            &&& after.primitive.room() == before.primitive.room()
            &&& after.primitive.marks() == before.primitive.marks()
        },
        r matches Acquisition::Waiting(entry) ==> {
            &&& after.primitive.room() == before.primitive.room() - 1
            &&& after.primitive.marks() == before.primitive.marks().insert(entry)
        },
{
    lemma_acquired(
        before.memory(),
        after.memory(),
        r,
        number,
        true,
        after.pending() == before.pending(),
    )
}

/// Permits are acquired right away if they are available and nobody waits. Nobody ever gets more
/// than there are.
#[verifier::spinoff_prover]
#[verifier::rlimit(60)]
pub proof fn law_acquire_many_sync_with<S: SyncPrimitive, F: FnOnce()>(
    semaphore: &mut Semaphore<S>,
    number: usize,
    begin_wait: F,
    before: Semaphore<S>,
    after: Semaphore<S>,
    r: Acquisition,
) -> (moment: (Memory, usize))
    requires
        *old(semaphore) == before,
        *final(semaphore) == after,
        before.wf(),
        call_ensures(
            Semaphore::<S>::acquire_many_sync_with::<F>,
            (semaphore, number, begin_wait),
            r,
        ),
    ensures
        acquired(
            before.memory(),
            moment.0,
            moment.1,
            after.memory(),
            r,
            number as nat,
            true,
            after.pending() == before.pending(),
        ),
        r is Done ==> {
            &&& after.primitive.room() == before.primitive.room()
            &&& after.primitive.marks() == before.primitive.marks()
        },
        r matches Acquisition::Waiting(entry) ==> {
            &&& after.primitive.room() == before.primitive.room() - 1
            &&& after.primitive.marks() == before.primitive.marks().insert(entry)
        },
        r is Waiting ==> begin_wait.ensures((), ()),
{
    lemma_acquired(
        before.memory(),
        after.memory(),
        r,
        number,
        true,
        after.pending() == before.pending(),
    )
}

/// A permit is released if one is in use, and the tasks that have been waiting are served; nothing
/// happens otherwise.
#[verifier::spinoff_prover]
#[verifier::rlimit(60)]
pub proof fn law_release<S: SyncPrimitive>(
    semaphore: &mut Semaphore<S>,
    before: Semaphore<S>,
    after: Semaphore<S>,
    r: bool,
) -> (mid: Memory)
    requires
        *old(semaphore) == before,
        *final(semaphore) == after,
        before.wf(),
        call_ensures(Semaphore::<S>::release, (semaphore,), r),
    ensures
        before.memory().rely(mid),
        before.pending() == 0 ==> mid == before.memory(),
        r <==> mid.word % 64 >= 1,
        r ==> service::released(mid, after.memory(), 1, false, before.pending() == 0),
        r ==> after.memory().earned() == (Tally {
            parts: before.memory().earned().parts - 1,
            ..before.memory().earned()
        }),
        !r ==> after.memory() == mid,
{
    if r {
        let mid = choose|mid: Memory| #[trigger]
            before.memory().rely(mid) && mid.releases(
                after.memory(),
                Opcode::Semaphore(1),
                before.pending() == 0,
            ) && (before.pending() == 0 ==> mid == before.memory());
        before.memory().law_released_is_not_held(
            mid,
            after.memory(),
            Opcode::Semaphore(1),
            before.pending() == 0,
        );
        service::lemma_released(
            mid,
            after.memory(),
            Opcode::Semaphore(1),
            false,
            before.pending() == 0,
        );
        mid
    } else {
        before.memory().lemma_rely_reflexive();
        WaitQueue::lemma_split(after.memory().word);
        after.memory()
    }
}

/// Permits are released if that many are in use, and the tasks that have been waiting are served;
/// nothing happens otherwise.
#[verifier::spinoff_prover]
#[verifier::rlimit(60)]
pub proof fn law_release_many<S: SyncPrimitive>(
    semaphore: &mut Semaphore<S>,
    before: Semaphore<S>,
    after: Semaphore<S>,
    number: usize,
    r: bool,
) -> (mid: Memory)
    requires
        *old(semaphore) == before,
        *final(semaphore) == after,
        before.wf(),
        call_ensures(Semaphore::<S>::release_many, (semaphore, number), r),
    ensures
        before.memory().rely(mid),
        before.pending() == 0 ==> mid == before.memory(),
        r <==> mid.word % 64 >= number,
        r ==> service::released(mid, after.memory(), number as nat, false, before.pending() == 0),
        r ==> after.memory().earned() == (Tally {
            parts: before.memory().earned().parts - number,
            ..before.memory().earned()
        }),
        !r ==> after.memory() == mid,
{
    if r {
        let mid = choose|mid: Memory| #[trigger]
            before.memory().rely(mid) && mid.releases(
                after.memory(),
                Opcode::Semaphore(number as u8),
                before.pending() == 0,
            ) && (before.pending() == 0 ==> mid == before.memory());
        before.memory().law_released_is_not_held(
            mid,
            after.memory(),
            Opcode::Semaphore(number as u8),
            before.pending() == 0,
        );
        service::lemma_released(
            mid,
            after.memory(),
            Opcode::Semaphore(number as u8),
            false,
            before.pending() == 0,
        );
        mid
    } else {
        before.memory().lemma_rely_reflexive();
        WaitQueue::lemma_split(after.memory().word);
        after.memory()
    }
}

/// A [`Pager`] that is registered in a [`Semaphore`] gets its permits right away if they are
/// available and nobody waits; otherwise it waits behind the others. Nobody else is affected.
///
/// It can be registered once, and cannot ask for more than 63 permits.
#[verifier::spinoff_prover]
#[verifier::rlimit(60)]
pub proof fn law_register_pager<S: SyncPrimitive>(
    semaphore: &mut Semaphore<S>,
    pager: &mut Pager,
    before: Semaphore<S>,
    after: Semaphore<S>,
    was: Pager,
    now: Pager,
    number: usize,
    is_sync: bool,
    r: bool,
)
    requires
        *old(semaphore) == before,
        *final(semaphore) == after,
        *old(pager) == was,
        *final(pager) == now,
        before.wf(),
        call_ensures(Semaphore::<S>::register_pager, (semaphore, pager, number, is_sync), r),
    ensures
        r <==> number <= 63 && was.entry() is None,
        !r ==> now == was && after == before,
        r ==> {
            let old = before.memory();
            let new = after.memory();
            let entry = now.entry()->0;
            &&& now.entry() is Some
            &&& now.synchronous() == is_sync
            &&& !now.acked()
            &&& after.primitive.room() == before.primitive.room() - 1
            &&& after.primitive.marks() == (if after.memory().nodes[now.entry()->0].result is None {
                before.primitive.marks().insert(now.entry()->0)
            } else {
                before.primitive.marks()
            })
            &&& !old.own.contains(entry)
            &&& new.own == old.own.insert(entry)
            &&& new.nodes[entry].is_sync == is_sync
            &&& new.nodes[entry].opcode == Opcode::Semaphore(number as u8)
            &&& match new.nodes[entry].result {
                None => new.queue().len() > 0 && new.queue().last() == entry && new.delivered
                    == old.delivered,
                Some(result) => result == 0 && number <= new.word <= 63 && new.delivered.len()
                    == old.delivered.len() + 1,
            }
            &&& after.pending() == before.pending() ==> {
                &&& new.nodes[entry].result is Some <==> old.word + number <= 63
                &&& old.word + number <= 63 ==> {
                    &&& new.word == old.word + number
                    &&& new.queue() == old.queue()
                }
                &&& old.word + number > 63 ==> {
                    &&& new.word == entry + old.word % 128
                    &&& new.queue() == old.queue().push(entry)
                }
                &&& forall|e: usize|
                    #![trigger new.nodes[e]]
                    old.nodes.dom().contains(e) && e != entry ==> new.nodes[e] == old.nodes[e]
            }
        },
{
    let old = before.memory();
    let new = after.memory();
    if r {
        WaitQueue::lemma_split(old.word);
        WaitQueue::lemma_split(new.word);
        if new.nodes[now.entry()->0].result is Some {
            WaitQueue::lemma_split((new.word - number) as usize);
        }
    }
}

/// A task that gives up waiting leaves the [`Semaphore`], and what it had been handed is given back
/// unless it has acknowledged the result.
#[verifier::spinoff_prover]
#[verifier::rlimit(60)]
pub proof fn law_cancel<S: SyncPrimitive>(
    pager: &mut Pager,
    semaphore: &mut Semaphore<S>,
    was: Pager,
    now: Pager,
    before: Semaphore<S>,
    after: Semaphore<S>,
)
    requires
        *old(pager) == was,
        *final(pager) == now,
        *old(semaphore) == before,
        *final(semaphore) == after,
        before.wf(),
        was.wf(before.memory()),
        call_ensures(Pager::cancel::<Semaphore<S>>, (pager, semaphore), ()),
    ensures
        now.entry() is None,
        was.entry() matches Some(entry) ==> {
            &&& after.primitive.room() == before.primitive.room() + 1
            &&& after.primitive.marks() == before.primitive.marks().remove(entry)
        },
        was.entry() matches Some(entry) ==> {
            &&& after.memory().own == before.memory().own.remove(entry)
            &&& !after.memory().nodes.dom().contains(entry)
        },
        was.entry() is Some && !was.acked() && before.memory().offers(
            before.memory().nodes[was.entry()->0].opcode,
        ) ==> after.memory().earned() == before.memory().earned() || !service::usable(
            after.memory(),
            before.memory().nodes[was.entry()->0].opcode,
        ),
        was.entry() is None ==> after.memory() == before.memory(),
        was.acked() ==> {
            &&& after.memory().word == before.memory().word
            &&& after.memory().nodes == before.memory().nodes.remove(was.entry()->0)
            &&& after.memory().delivered == before.memory().delivered
        },
        before.pending() == 0 ==> service::left(before.memory(), after.memory(), was, false),
{
    let old = before.memory();
    let new = after.memory();
    if let Some(entry) = was.entry() {
        if was.acked() {
            assert(old.nodes.dom().contains(entry));
            assert(!old.queue().contains(entry));
            old.lemma_no_entry(entry);
            service::lemma_spared(old, old, new, entry);
        } else {
            assert(Semaphore::<S>::drops(old, new, entry, before.pending() == 0));
            if old.offers(old.nodes[entry].opcode) {
                old.law_giving_up_gives_back(new, entry, before.pending() == 0);
            }
            if before.pending() == 0 {
                service::lemma_left(old, new, was, false);
            }
        }
    }
}

/// Permits can be released in any state. They can be acquired as long as an entry can be created;
/// neither an entry nor the callback is needed if the task does not have to wait.
#[verifier::spinoff_prover]
#[verifier::rlimit(60)]
pub proof fn law_callable<S: SyncPrimitive, F: FnOnce()>(
    semaphore: &mut Semaphore<S>,
    pager: &mut Pager,
    before: Semaphore<S>,
    was: Pager,
    number: usize,
    is_sync: bool,
    begin_wait: F,
    mo: Ordering,
)
    requires
        *old(semaphore) == before,
        *old(pager) == was,
        before.wf(),
    ensures
        call_requires(Semaphore::<S>::is_open, (&before, mo)),
        call_requires(Semaphore::<S>::is_closed, (&before, mo)),
        call_requires(Semaphore::<S>::available_permits, (&before, mo)),
        call_requires(Semaphore::<S>::status, (&before,)),
        call_requires(Semaphore::<S>::try_acquire, (semaphore,)),
        call_requires(Semaphore::<S>::try_acquire_many, (semaphore, number)),
        call_requires(Semaphore::<S>::release, (semaphore,)),
        call_requires(Semaphore::<S>::release_many, (semaphore, number)),
        before.primitive.room() > 0 || before.pending() == 0 && before.memory().word < 63 ==> {
            &&& call_requires(Semaphore::<S>::acquire_sync, (semaphore,))
            &&& call_requires(Semaphore::<S>::acquire_async, (semaphore,))
        },
        before.primitive.room() > 0 || before.pending() == 0 && before.memory().word + number <= 63
            ==> {
            &&& call_requires(Semaphore::<S>::acquire_many_sync, (semaphore, number))
            &&& call_requires(Semaphore::<S>::acquire_many_async, (semaphore, number))
        },
        before.primitive.room() > 0 && begin_wait.requires(()) || before.pending() == 0
            && before.memory().word < 63 ==> {
            &&& call_requires(Semaphore::<S>::acquire_sync_with::<F>, (semaphore, begin_wait))
            &&& call_requires(Semaphore::<S>::acquire_async_with::<F>, (semaphore, begin_wait))
        },
        before.primitive.room() > 0 && begin_wait.requires(()) || before.pending() == 0
            && before.memory().word + number <= 63 ==> {
            &&& call_requires(
                Semaphore::<S>::acquire_many_sync_with::<F>,
                (semaphore, number, begin_wait),
            )
            &&& call_requires(
                Semaphore::<S>::acquire_many_async_with::<F>,
                (semaphore, number, begin_wait),
            )
        },
        before.primitive.room() > 0 || was.entry() is Some || number > 63 ==> call_requires(
            Semaphore::<S>::register_pager,
            (semaphore, pager, number, is_sync),
        ),
        was.wf(before.memory()) ==> {
            &&& call_requires(Pager::poll_sync::<Semaphore<S>>, (pager, semaphore))
            &&& call_requires(Pager::poll_async::<Semaphore<S>>, (pager, semaphore))
            &&& call_requires(Pager::try_poll::<Semaphore<S>>, (pager, semaphore))
            &&& call_requires(Pager::cancel::<Semaphore<S>>, (pager, semaphore))
        },
{
    WaitQueue::lemma_split(before.memory().word);
}

/// Acquiring permits makes that many fewer available, and releasing them makes that many more
/// available if nobody waits, unless other tasks intervene.
#[verifier::spinoff_prover]
#[verifier::rlimit(60)]
pub proof fn law_permits_are_counted<S: SyncPrimitive>(
    semaphore: &mut Semaphore<S>,
    before: Semaphore<S>,
    after: Semaphore<S>,
    number: usize,
    mo: Ordering,
    acquire: bool,
    r: bool,
    was: usize,
    now: usize,
)
    requires
        *old(semaphore) == before,
        *final(semaphore) == after,
        before.wf(),
        before.pending() == 0,
        before.memory().queue().len() == 0,
        after.pending() == 0,
        call_ensures(Semaphore::<S>::available_permits, (&before, mo), was),
        acquire ==> call_ensures(Semaphore::<S>::try_acquire_many, (semaphore, number), r),
        !acquire ==> call_ensures(Semaphore::<S>::release_many, (semaphore, number), r),
        call_ensures(Semaphore::<S>::available_permits, (&after, mo), now),
    ensures
        acquire ==> (r <==> number <= was),
        !acquire ==> (r <==> number <= 63 - was),
        !r ==> now == was,
        r && acquire ==> now == was - number,
        r && !acquire ==> now == was + number,
{
    WaitQueue::lemma_split(before.memory().word);
    if acquire {
        law_try_acquire_many(semaphore, before, after, number, r);
    } else {
        law_release_many(semaphore, before, after, number, r);
    }
    law_available_permits(before, mo, was);
    law_available_permits(after, mo, now);
    WaitQueue::lemma_split(after.memory().word);
}

/// There are 63 permits.
pub proof fn law_max_permits()
    ensures
        Semaphore::MAX_PERMITS == 63,
{
}

} // verus!
