//! What a [`Pager`] does in each of the primitives.
use vstd::prelude::*;

use crate::barrier::Barrier;
use crate::gate;
use crate::gate::Gate;
use crate::lock::Lock;
use crate::memory::Memory;
use crate::pager;
use crate::pager::Pager;
use crate::pager::SyncResult;
use crate::semaphore::Semaphore;
use crate::sync_primitive::SyncPrimitive;

verus! {

/// A new [`Pager`] is not registered.
pub proof fn law_default(pager: Pager, registered: bool, is_sync: bool, addr: Option<usize>)
    requires
        call_ensures(Pager::default, (), pager),
        call_ensures(Pager::is_registered, (&pager,), registered),
        call_ensures(Pager::is_sync, (&pager,), is_sync),
        call_ensures(Pager::entry_addr, (&pager,), addr),
    ensures
        !registered,
        !is_sync,
        addr is None,
{
}

/// What a [`Pager`] tells of itself fits together.
pub proof fn law_observers(pager: Pager, registered: bool, is_sync: bool, addr: Option<usize>)
    requires
        call_ensures(Pager::is_registered, (&pager,), registered),
        call_ensures(Pager::is_sync, (&pager,), is_sync),
        call_ensures(Pager::entry_addr, (&pager,), addr),
    ensures
        addr == pager.entry(),
        registered <==> addr is Some,
        is_sync ==> registered,
        is_sync <==> pager.synchronous(),
{
}

/// An error of a [`Pager`] is passed on to the task that waits in a [`Lock`]; otherwise, the value
/// that it was handed counts.
#[verifier::spinoff_prover]
pub proof fn law_lock_to_result<S: SyncPrimitive>(
    value: u8,
    pager_error: Option<pager::Error>,
    r: Result<bool, pager::Error>,
)
    requires
        call_ensures(Lock::<S>::to_result, (value, pager_error), r),
    ensures
        pager_error matches Some(error) ==> r == Result::<bool, pager::Error>::Err(error),
        pager_error is None ==> r == Result::<bool, pager::Error>::Ok(value == 0),
        r is Ok <==> pager_error is None,
{
}

/// Polling a [`Pager`] synchronously in a [`Lock`] tells the result that its task was handed, and
/// unregisters it; there is none before the task was handed one. A [`Pager`] that is not
/// registered, or was registered with the other mode, stays as it is.
#[verifier::spinoff_prover]
#[verifier::rlimit(60)]
pub proof fn law_lock_poll_sync<S: SyncPrimitive>(
    pager: &mut Pager,
    lock: &mut Lock<S>,
    was: Pager,
    now: Pager,
    before: Lock<S>,
    after: Lock<S>,
    r: Option<Result<bool, pager::Error>>,
) -> (mid: Memory)
    requires
        *old(pager) == was,
        *final(pager) == now,
        *old(lock) == before,
        *final(lock) == after,
        before.wf(),
        was.wf(before.memory()),
        call_ensures(Pager::poll_sync::<Lock<S>>, (pager, lock), r),
    ensures
        before.memory().rely(mid),
        after.pending() == before.pending() ==> mid == before.memory(),
        was.entry() is None ==> {
            &&& r == Some(Result::<bool, pager::Error>::Err(pager::Error::NotRegistered))
            &&& now == was
            &&& after.memory() == mid
        },
        was.entry() is Some && !was.synchronous() ==> {
            &&& r == Some(Result::<bool, pager::Error>::Err(pager::Error::WrongMode))
            &&& now == was
            &&& after.memory() == mid
        },
        was.entry() is Some && was.synchronous() ==> match mid.nodes[was.entry()->0].result {
            None => r is None && now == was && after.memory() == mid,
            Some(value) => {
                &&& r == Some(Result::<bool, pager::Error>::Ok(value == 0))
                &&& now.entry() is None
                &&& after.memory().word == mid.word
                &&& after.memory().nodes == mid.nodes.remove(was.entry()->0)
                &&& after.primitive.room() == before.primitive.room() + 1
                &&& after.primitive.marks() == before.primitive.marks().remove(was.entry()->0)
                &&& after.memory().delivered == mid.delivered
            },
        },
{
    let alone = after.pending() == before.pending();
    let mid = choose|mid: Memory| #[trigger]
        before.memory().rely(mid) && (alone ==> mid == before.memory()) && r == was.polled::<
            Lock<S>,
        >(mid, true) && if was.completed(mid, true) {
            now.entry() is None && after.memory() == mid.without_entry(was.entry()->0)
        } else {
            now == was && after.memory() == mid
        };
    mid
}

/// Polling a [`Pager`] asynchronously in a [`Lock`] tells the result that its task was handed, and
/// unregisters it; there is none before the task was handed one. A [`Pager`] that is not
/// registered, or was registered with the other mode, stays as it is.
#[verifier::spinoff_prover]
#[verifier::rlimit(60)]
pub proof fn law_lock_poll_async<S: SyncPrimitive>(
    pager: &mut Pager,
    lock: &mut Lock<S>,
    was: Pager,
    now: Pager,
    before: Lock<S>,
    after: Lock<S>,
    r: Option<Result<bool, pager::Error>>,
) -> (mid: Memory)
    requires
        *old(pager) == was,
        *final(pager) == now,
        *old(lock) == before,
        *final(lock) == after,
        before.wf(),
        was.wf(before.memory()),
        call_ensures(Pager::poll_async::<Lock<S>>, (pager, lock), r),
    ensures
        before.memory().rely(mid),
        after.pending() == before.pending() ==> mid == before.memory(),
        was.entry() is None ==> {
            &&& r == Some(Result::<bool, pager::Error>::Err(pager::Error::NotRegistered))
            &&& now == was
            &&& after.memory() == mid
        },
        was.entry() is Some && was.synchronous() ==> {
            &&& r == Some(Result::<bool, pager::Error>::Err(pager::Error::WrongMode))
            &&& now == was
            &&& after.memory() == mid
        },
        was.entry() is Some && !was.synchronous() ==> match mid.nodes[was.entry()->0].result {
            None => r is None && now == was && after.memory() == mid,
            Some(value) => {
                &&& r == Some(Result::<bool, pager::Error>::Ok(value == 0))
                &&& now.entry() is None
                &&& after.memory().word == mid.word
                &&& after.memory().nodes == mid.nodes.remove(was.entry()->0)
                &&& after.primitive.room() == before.primitive.room() + 1
                &&& after.primitive.marks() == before.primitive.marks().remove(was.entry()->0)
                &&& after.memory().delivered == mid.delivered
            },
        },
{
    let alone = after.pending() == before.pending();
    let mid = choose|mid: Memory| #[trigger]
        before.memory().rely(mid) && (alone ==> mid == before.memory()) && r == was.polled::<
            Lock<S>,
        >(mid, false) && if was.completed(mid, false) {
            now.entry() is None && after.memory() == mid.without_entry(was.entry()->0)
        } else {
            now == was && after.memory() == mid
        };
    mid
}

/// Trying to get the result of a [`Pager`] in a [`Lock`] tells the one that its task was handed,
/// and that it is not ready before; the [`Pager`] stays registered.
#[verifier::spinoff_prover]
pub proof fn law_lock_try_poll<S: SyncPrimitive>(
    pager: &mut Pager,
    lock: &mut Lock<S>,
    was: Pager,
    now: Pager,
    before: Lock<S>,
    after: Lock<S>,
    r: Result<bool, pager::Error>,
)
    requires
        *old(pager) == was,
        *final(pager) == now,
        *old(lock) == before,
        *final(lock) == after,
        before.wf(),
        was.wf(before.memory()),
        call_ensures(Pager::try_poll::<Lock<S>>, (pager, lock), r),
    ensures
        before.memory().rely(after.memory()),
        after.pending() == before.pending() ==> after.memory() == before.memory(),
        now.entry() == was.entry(),
        now.synchronous() == was.synchronous(),
        was.entry() is None ==> r == Result::<bool, pager::Error>::Err(pager::Error::NotRegistered),
        was.entry() is Some ==> match after.memory().nodes[was.entry()->0].result {
            None => r == Result::<bool, pager::Error>::Err(pager::Error::NotReady) && !now.acked(),
            Some(value) => r == Result::<bool, pager::Error>::Ok(value == 0) && now.acked(),
        },
{
}

/// An error of a [`Pager`] is passed on to the task that waits in a [`Semaphore`]; otherwise, the
/// value that it was handed counts.
#[verifier::spinoff_prover]
pub proof fn law_semaphore_to_result<S: SyncPrimitive>(
    value: u8,
    pager_error: Option<pager::Error>,
    r: Result<(), pager::Error>,
)
    requires
        call_ensures(Semaphore::<S>::to_result, (value, pager_error), r),
    ensures
        pager_error matches Some(error) ==> r == Result::<(), pager::Error>::Err(error),
        pager_error is None ==> r == Result::<(), pager::Error>::Ok(()),
        r is Ok <==> pager_error is None,
{
}

/// Polling a [`Pager`] synchronously in a [`Semaphore`] tells the result that its task was handed,
/// and unregisters it; there is none before the task was handed one. A [`Pager`] that is not
/// registered, or was registered with the other mode, stays as it is.
#[verifier::spinoff_prover]
#[verifier::rlimit(60)]
pub proof fn law_semaphore_poll_sync<S: SyncPrimitive>(
    pager: &mut Pager,
    semaphore: &mut Semaphore<S>,
    was: Pager,
    now: Pager,
    before: Semaphore<S>,
    after: Semaphore<S>,
    r: Option<Result<(), pager::Error>>,
) -> (mid: Memory)
    requires
        *old(pager) == was,
        *final(pager) == now,
        *old(semaphore) == before,
        *final(semaphore) == after,
        before.wf(),
        was.wf(before.memory()),
        call_ensures(Pager::poll_sync::<Semaphore<S>>, (pager, semaphore), r),
    ensures
        before.memory().rely(mid),
        after.pending() == before.pending() ==> mid == before.memory(),
        was.entry() is None ==> {
            &&& r == Some(Result::<(), pager::Error>::Err(pager::Error::NotRegistered))
            &&& now == was
            &&& after.memory() == mid
        },
        was.entry() is Some && !was.synchronous() ==> {
            &&& r == Some(Result::<(), pager::Error>::Err(pager::Error::WrongMode))
            &&& now == was
            &&& after.memory() == mid
        },
        was.entry() is Some && was.synchronous() ==> match mid.nodes[was.entry()->0].result {
            None => r is None && now == was && after.memory() == mid,
            Some(_) => {
                &&& r == Some(Result::<(), pager::Error>::Ok(()))
                &&& now.entry() is None
                &&& after.memory().word == mid.word
                &&& after.memory().nodes == mid.nodes.remove(was.entry()->0)
                &&& after.primitive.room() == before.primitive.room() + 1
                &&& after.primitive.marks() == before.primitive.marks().remove(was.entry()->0)
                &&& after.memory().delivered == mid.delivered
            },
        },
{
    let alone = after.pending() == before.pending();
    let mid = choose|mid: Memory| #[trigger]
        before.memory().rely(mid) && (alone ==> mid == before.memory()) && r == was.polled::<
            Semaphore<S>,
        >(mid, true) && if was.completed(mid, true) {
            now.entry() is None && after.memory() == mid.without_entry(was.entry()->0)
        } else {
            now == was && after.memory() == mid
        };
    mid
}

/// Polling a [`Pager`] asynchronously in a [`Semaphore`] tells the result that its task was handed,
/// and unregisters it; there is none before the task was handed one. A [`Pager`] that is not
/// registered, or was registered with the other mode, stays as it is.
#[verifier::spinoff_prover]
#[verifier::rlimit(60)]
pub proof fn law_semaphore_poll_async<S: SyncPrimitive>(
    pager: &mut Pager,
    semaphore: &mut Semaphore<S>,
    was: Pager,
    now: Pager,
    before: Semaphore<S>,
    after: Semaphore<S>,
    r: Option<Result<(), pager::Error>>,
) -> (mid: Memory)
    requires
        *old(pager) == was,
        *final(pager) == now,
        *old(semaphore) == before,
        *final(semaphore) == after,
        before.wf(),
        was.wf(before.memory()),
        call_ensures(Pager::poll_async::<Semaphore<S>>, (pager, semaphore), r),
    ensures
        before.memory().rely(mid),
        after.pending() == before.pending() ==> mid == before.memory(),
        was.entry() is None ==> {
            &&& r == Some(Result::<(), pager::Error>::Err(pager::Error::NotRegistered))
            &&& now == was
            &&& after.memory() == mid
        },
        was.entry() is Some && was.synchronous() ==> {
            &&& r == Some(Result::<(), pager::Error>::Err(pager::Error::WrongMode))
            &&& now == was
            &&& after.memory() == mid
        },
        was.entry() is Some && !was.synchronous() ==> match mid.nodes[was.entry()->0].result {
            None => r is None && now == was && after.memory() == mid,
            Some(_) => {
                &&& r == Some(Result::<(), pager::Error>::Ok(()))
                &&& now.entry() is None
                &&& after.memory().word == mid.word
                &&& after.memory().nodes == mid.nodes.remove(was.entry()->0)
                &&& after.primitive.room() == before.primitive.room() + 1
                &&& after.primitive.marks() == before.primitive.marks().remove(was.entry()->0)
                &&& after.memory().delivered == mid.delivered
            },
        },
{
    let alone = after.pending() == before.pending();
    let mid = choose|mid: Memory| #[trigger]
        before.memory().rely(mid) && (alone ==> mid == before.memory()) && r == was.polled::<
            Semaphore<S>,
        >(mid, false) && if was.completed(mid, false) {
            now.entry() is None && after.memory() == mid.without_entry(was.entry()->0)
        } else {
            now == was && after.memory() == mid
        };
    mid
}

/// Trying to get the result of a [`Pager`] in a [`Semaphore`] tells the one that its task was
/// handed, and that it is not ready before; the [`Pager`] stays registered.
#[verifier::spinoff_prover]
pub proof fn law_semaphore_try_poll<S: SyncPrimitive>(
    pager: &mut Pager,
    semaphore: &mut Semaphore<S>,
    was: Pager,
    now: Pager,
    before: Semaphore<S>,
    after: Semaphore<S>,
    r: Result<(), pager::Error>,
)
    requires
        *old(pager) == was,
        *final(pager) == now,
        *old(semaphore) == before,
        *final(semaphore) == after,
        before.wf(),
        was.wf(before.memory()),
        call_ensures(Pager::try_poll::<Semaphore<S>>, (pager, semaphore), r),
    ensures
        before.memory().rely(after.memory()),
        after.pending() == before.pending() ==> after.memory() == before.memory(),
        now.entry() == was.entry(),
        now.synchronous() == was.synchronous(),
        was.entry() is None ==> r == Result::<(), pager::Error>::Err(pager::Error::NotRegistered),
        was.entry() is Some ==> match after.memory().nodes[was.entry()->0].result {
            None => r == Result::<(), pager::Error>::Err(pager::Error::NotReady) && !now.acked(),
            Some(_) => r == Result::<(), pager::Error>::Ok(()) && now.acked(),
        },
{
}

/// An error of a [`Pager`] is passed on to the task that waits in a [`Barrier`]; otherwise, the
/// value that it was handed counts.
#[verifier::spinoff_prover]
pub proof fn law_barrier_to_result<S: SyncPrimitive>(
    value: u8,
    pager_error: Option<pager::Error>,
    r: Result<(), pager::Error>,
)
    requires
        call_ensures(Barrier::<S>::to_result, (value, pager_error), r),
    ensures
        pager_error matches Some(error) ==> r == Result::<(), pager::Error>::Err(error),
        pager_error is None ==> r == Result::<(), pager::Error>::Ok(()),
        r is Ok <==> pager_error is None,
{
}

/// Polling a [`Pager`] synchronously in a [`Barrier`] tells the result that its task was handed,
/// and unregisters it; there is none before the task was handed one. A [`Pager`] that is not
/// registered, or was registered with the other mode, stays as it is.
#[verifier::spinoff_prover]
#[verifier::rlimit(60)]
pub proof fn law_barrier_poll_sync<S: SyncPrimitive>(
    pager: &mut Pager,
    barrier: &mut Barrier<S>,
    was: Pager,
    now: Pager,
    before: Barrier<S>,
    after: Barrier<S>,
    r: Option<Result<(), pager::Error>>,
) -> (mid: Memory)
    requires
        *old(pager) == was,
        *final(pager) == now,
        *old(barrier) == before,
        *final(barrier) == after,
        before.wf(),
        was.wf(before.memory()),
        call_ensures(Pager::poll_sync::<Barrier<S>>, (pager, barrier), r),
    ensures
        before.memory().rely(mid),
        after.pending() == before.pending() ==> mid == before.memory(),
        was.entry() is None ==> {
            &&& r == Some(Result::<(), pager::Error>::Err(pager::Error::NotRegistered))
            &&& now == was
            &&& after.memory() == mid
        },
        was.entry() is Some && !was.synchronous() ==> {
            &&& r == Some(Result::<(), pager::Error>::Err(pager::Error::WrongMode))
            &&& now == was
            &&& after.memory() == mid
        },
        was.entry() is Some && was.synchronous() ==> match mid.nodes[was.entry()->0].result {
            None => r is None && now == was && after.memory() == mid,
            Some(_) => {
                &&& r == Some(Result::<(), pager::Error>::Ok(()))
                &&& now.entry() is None
                &&& after.memory().word == mid.word
                &&& after.memory().nodes == mid.nodes.remove(was.entry()->0)
                &&& after.primitive.room() == before.primitive.room() + 1
                &&& after.primitive.marks() == before.primitive.marks().remove(was.entry()->0)
                &&& after.memory().delivered == mid.delivered
            },
        },
{
    let alone = after.pending() == before.pending();
    let mid = choose|mid: Memory| #[trigger]
        before.memory().rely(mid) && (alone ==> mid == before.memory()) && r == was.polled::<
            Barrier<S>,
        >(mid, true) && if was.completed(mid, true) {
            now.entry() is None && after.memory() == mid.without_entry(was.entry()->0)
        } else {
            now == was && after.memory() == mid
        };
    mid
}

/// Polling a [`Pager`] asynchronously in a [`Barrier`] tells the result that its task was handed,
/// and unregisters it; there is none before the task was handed one. A [`Pager`] that is not
/// registered, or was registered with the other mode, stays as it is.
#[verifier::spinoff_prover]
#[verifier::rlimit(60)]
pub proof fn law_barrier_poll_async<S: SyncPrimitive>(
    pager: &mut Pager,
    barrier: &mut Barrier<S>,
    was: Pager,
    now: Pager,
    before: Barrier<S>,
    after: Barrier<S>,
    r: Option<Result<(), pager::Error>>,
) -> (mid: Memory)
    requires
        *old(pager) == was,
        *final(pager) == now,
        *old(barrier) == before,
        *final(barrier) == after,
        before.wf(),
        was.wf(before.memory()),
        call_ensures(Pager::poll_async::<Barrier<S>>, (pager, barrier), r),
    ensures
        before.memory().rely(mid),
        after.pending() == before.pending() ==> mid == before.memory(),
        was.entry() is None ==> {
            &&& r == Some(Result::<(), pager::Error>::Err(pager::Error::NotRegistered))
            &&& now == was
            &&& after.memory() == mid
        },
        was.entry() is Some && was.synchronous() ==> {
            &&& r == Some(Result::<(), pager::Error>::Err(pager::Error::WrongMode))
            &&& now == was
            &&& after.memory() == mid
        },
        was.entry() is Some && !was.synchronous() ==> match mid.nodes[was.entry()->0].result {
            None => r is None && now == was && after.memory() == mid,
            Some(_) => {
                &&& r == Some(Result::<(), pager::Error>::Ok(()))
                &&& now.entry() is None
                &&& after.memory().word == mid.word
                &&& after.memory().nodes == mid.nodes.remove(was.entry()->0)
                &&& after.primitive.room() == before.primitive.room() + 1
                &&& after.primitive.marks() == before.primitive.marks().remove(was.entry()->0)
                &&& after.memory().delivered == mid.delivered
            },
        },
{
    let alone = after.pending() == before.pending();
    let mid = choose|mid: Memory| #[trigger]
        before.memory().rely(mid) && (alone ==> mid == before.memory()) && r == was.polled::<
            Barrier<S>,
        >(mid, false) && if was.completed(mid, false) {
            now.entry() is None && after.memory() == mid.without_entry(was.entry()->0)
        } else {
            now == was && after.memory() == mid
        };
    mid
}

/// Trying to get the result of a [`Pager`] in a [`Barrier`] tells the one that its task was handed,
/// and that it is not ready before; the [`Pager`] stays registered.
#[verifier::spinoff_prover]
pub proof fn law_barrier_try_poll<S: SyncPrimitive>(
    pager: &mut Pager,
    barrier: &mut Barrier<S>,
    was: Pager,
    now: Pager,
    before: Barrier<S>,
    after: Barrier<S>,
    r: Result<(), pager::Error>,
)
    requires
        *old(pager) == was,
        *final(pager) == now,
        *old(barrier) == before,
        *final(barrier) == after,
        before.wf(),
        was.wf(before.memory()),
        call_ensures(Pager::try_poll::<Barrier<S>>, (pager, barrier), r),
    ensures
        before.memory().rely(after.memory()),
        after.pending() == before.pending() ==> after.memory() == before.memory(),
        now.entry() == was.entry(),
        now.synchronous() == was.synchronous(),
        was.entry() is None ==> r == Result::<(), pager::Error>::Err(pager::Error::NotRegistered),
        was.entry() is Some ==> match after.memory().nodes[was.entry()->0].result {
            None => r == Result::<(), pager::Error>::Err(pager::Error::NotReady) && !now.acked(),
            Some(_) => r == Result::<(), pager::Error>::Ok(()) && now.acked(),
        },
{
}

/// Polling a [`Pager`] synchronously in a [`Gate`] tells the result that its task was handed, and
/// unregisters it; there is none before the task was handed one. A [`Pager`] that is not
/// registered, or was registered with the other mode, stays as it is.
#[verifier::spinoff_prover]
#[verifier::rlimit(60)]
pub proof fn law_gate_poll_sync<S: SyncPrimitive>(
    pager: &mut Pager,
    gate: &mut Gate<S>,
    was: Pager,
    now: Pager,
    before: Gate<S>,
    after: Gate<S>,
    r: Option<Result<gate::State, gate::Error>>,
) -> (mid: Memory)
    requires
        *old(pager) == was,
        *final(pager) == now,
        *old(gate) == before,
        *final(gate) == after,
        before.wf(),
        was.wf(before.memory()),
        call_ensures(Pager::poll_sync::<Gate<S>>, (pager, gate), r),
    ensures
        before.memory().rely(mid),
        after.pending() == before.pending() ==> mid == before.memory(),
        was.entry() is None ==> {
            &&& r == Some(Result::<gate::State, gate::Error>::Err(gate::Error::NotRegistered))
            &&& now == was
            &&& after.memory() == mid
        },
        was.entry() is Some && !was.synchronous() ==> {
            &&& r == Some(Result::<gate::State, gate::Error>::Err(gate::Error::WrongMode))
            &&& now == was
            &&& after.memory() == mid
        },
        was.entry() is Some && was.synchronous() ==> match mid.nodes[was.entry()->0].result {
            None => r is None && now == was && after.memory() == mid,
            Some(value) => {
                &&& r == Some(crate::behavior::gate::reading(value))
                &&& now.entry() is None
                &&& after.memory().word == mid.word
                &&& after.memory().nodes == mid.nodes.remove(was.entry()->0)
                &&& after.primitive.room() == before.primitive.room() + 1
                &&& after.primitive.marks() == before.primitive.marks().remove(was.entry()->0)
                &&& after.memory().delivered == mid.delivered
            },
        },
{
    let alone = after.pending() == before.pending();
    let mid = choose|mid: Memory| #[trigger]
        before.memory().rely(mid) && (alone ==> mid == before.memory()) && r == was.polled::<
            Gate<S>,
        >(mid, true) && if was.completed(mid, true) {
            now.entry() is None && after.memory() == mid.without_entry(was.entry()->0)
        } else {
            now == was && after.memory() == mid
        };
    if mid.nodes[was.entry()->0].result is Some {
        crate::behavior::gate::lemma_reading::<S>(mid.nodes[was.entry()->0].result->0);
    }
    mid
}

/// Polling a [`Pager`] asynchronously in a [`Gate`] tells the result that its task was handed, and
/// unregisters it; there is none before the task was handed one. A [`Pager`] that is not
/// registered, or was registered with the other mode, stays as it is.
#[verifier::spinoff_prover]
#[verifier::rlimit(60)]
pub proof fn law_gate_poll_async<S: SyncPrimitive>(
    pager: &mut Pager,
    gate: &mut Gate<S>,
    was: Pager,
    now: Pager,
    before: Gate<S>,
    after: Gate<S>,
    r: Option<Result<gate::State, gate::Error>>,
) -> (mid: Memory)
    requires
        *old(pager) == was,
        *final(pager) == now,
        *old(gate) == before,
        *final(gate) == after,
        before.wf(),
        was.wf(before.memory()),
        call_ensures(Pager::poll_async::<Gate<S>>, (pager, gate), r),
    ensures
        before.memory().rely(mid),
        after.pending() == before.pending() ==> mid == before.memory(),
        was.entry() is None ==> {
            &&& r == Some(Result::<gate::State, gate::Error>::Err(gate::Error::NotRegistered))
            &&& now == was
            &&& after.memory() == mid
        },
        was.entry() is Some && was.synchronous() ==> {
            &&& r == Some(Result::<gate::State, gate::Error>::Err(gate::Error::WrongMode))
            &&& now == was
            &&& after.memory() == mid
        },
        was.entry() is Some && !was.synchronous() ==> match mid.nodes[was.entry()->0].result {
            None => r is None && now == was && after.memory() == mid,
            Some(value) => {
                &&& r == Some(crate::behavior::gate::reading(value))
                &&& now.entry() is None
                &&& after.memory().word == mid.word
                &&& after.memory().nodes == mid.nodes.remove(was.entry()->0)
                &&& after.primitive.room() == before.primitive.room() + 1
                &&& after.primitive.marks() == before.primitive.marks().remove(was.entry()->0)
                &&& after.memory().delivered == mid.delivered
            },
        },
{
    let alone = after.pending() == before.pending();
    let mid = choose|mid: Memory| #[trigger]
        before.memory().rely(mid) && (alone ==> mid == before.memory()) && r == was.polled::<
            Gate<S>,
        >(mid, false) && if was.completed(mid, false) {
            now.entry() is None && after.memory() == mid.without_entry(was.entry()->0)
        } else {
            now == was && after.memory() == mid
        };
    if mid.nodes[was.entry()->0].result is Some {
        crate::behavior::gate::lemma_reading::<S>(mid.nodes[was.entry()->0].result->0);
    }
    mid
}

/// Trying to get the result of a [`Pager`] in a [`Gate`] tells the one that its task was handed,
/// and that it is not ready before; the [`Pager`] stays registered.
#[verifier::spinoff_prover]
#[verifier::rlimit(60)]
pub proof fn law_gate_try_poll<S: SyncPrimitive>(
    pager: &mut Pager,
    gate: &mut Gate<S>,
    was: Pager,
    now: Pager,
    before: Gate<S>,
    after: Gate<S>,
    r: Result<gate::State, gate::Error>,
)
    requires
        *old(pager) == was,
        *final(pager) == now,
        *old(gate) == before,
        *final(gate) == after,
        before.wf(),
        was.wf(before.memory()),
        call_ensures(Pager::try_poll::<Gate<S>>, (pager, gate), r),
    ensures
        before.memory().rely(after.memory()),
        after.pending() == before.pending() ==> after.memory() == before.memory(),
        now.entry() == was.entry(),
        now.synchronous() == was.synchronous(),
        was.entry() is None ==> r == Result::<gate::State, gate::Error>::Err(gate::Error::NotRegistered),
        was.entry() is Some ==> match after.memory().nodes[was.entry()->0].result {
            None => r == Result::<gate::State, gate::Error>::Err(gate::Error::NotReady) && !now.acked(),
            Some(value) => r == crate::behavior::gate::reading(value) && now.acked(),
        },
{
    if after.memory().nodes[was.entry()->0].result is Some {
        crate::behavior::gate::lemma_reading::<S>(after.memory().nodes[was.entry()->0].result->0);
    }
}

} // verus!
