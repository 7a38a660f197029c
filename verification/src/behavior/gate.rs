//! What the operations of a [`Gate`] do.
use std::sync::atomic::Ordering;

use vstd::prelude::*;

use crate::behavior::service;
use crate::gate::Error;
use crate::gate::Gate;
use crate::gate::Pager;
use crate::gate::State;
use crate::memory::Memory;
use crate::pager;
use crate::pager::PagerHost;
use crate::pager::SyncResult;
use crate::sync_primitive::SyncPrimitive;

verus! {

/// Opening a [`Gate`] lets all the waiting tasks enter it.
///
/// The state that it was in is returned, together with the number of tasks that were waiting and
/// have been handed the result.
#[verifier::spinoff_prover]
#[verifier::rlimit(60)]
pub proof fn law_open<S: SyncPrimitive>(
    gate: &mut Gate<S>,
    before: Gate<S>,
    after: Gate<S>,
    r: (State, usize),
) -> (mid: Memory)
    requires
        *old(gate) == before,
        *final(gate) == after,
        before.wf(),
        call_ensures(Gate::<S>::open, (gate,), r),
    ensures
        before.memory().rely(mid),
        after.pending() == before.pending() ==> mid == before.memory(),
        r.0 == State::Controlled <==> mid.word % 64 == 0,
        r.0 == State::Sealed <==> mid.word % 64 == 1,
        r.0 == State::Open <==> mid.word % 64 == 2,
        r.1 == after.memory().delivered.len() - before.memory().delivered.len(),
        r.1 == mid.queue().len(),
        r.1 > 0 ==> r.0 == State::Controlled,
        service::resumes(mid, after.memory()),
        after.memory().word == 2,
        after.memory().queue().len() == 0,
        forall|e: usize| #[trigger]
            mid.queue().contains(e) ==> after.memory().nodes[e].result == Some(2u8),
        forall|e: usize|
            #![trigger after.memory().nodes[e]]
            mid.nodes.dom().contains(e) && !mid.queue().contains(e)
                ==> after.memory().nodes[e] == mid.nodes[e],
        forall|i: int|
            #![trigger after.memory().delivered[i]]
            before.memory().delivered.len() <= i < after.memory().delivered.len() ==> {
                &&& after.memory().delivered[i].result == 2
                &&& mid.queue().contains(after.memory().delivered[i].entry)
            },
{
    let first = before.memory();
    let new = after.memory();
    let mid = choose|mid: Memory| #[trigger]
        first.rely(mid) && Gate::<S>::wakes(mid, new, Some(State::Open), None, r) && (
        after.pending() == before.pending() ==> mid == first);
    service::lemma_resumes(mid, new);
    assert forall|i: int|
        #![trigger new.delivered[i]]
        first.delivered.len() <= i < new.delivered.len() implies mid.queue().contains(
        new.delivered[i].entry,
    ) by {
        assert(crate::memory::handed(
            new.delivered,
            first.delivered.len() as int,
            new.delivered[i].entry,
        ));
    }
    mid
}

/// Sealing a [`Gate`] turns all the waiting tasks away.
///
/// The state that it was in is returned, together with the number of tasks that were waiting and
/// have been handed the result.
#[verifier::spinoff_prover]
#[verifier::rlimit(60)]
pub proof fn law_seal<S: SyncPrimitive>(
    gate: &mut Gate<S>,
    before: Gate<S>,
    after: Gate<S>,
    r: (State, usize),
) -> (mid: Memory)
    requires
        *old(gate) == before,
        *final(gate) == after,
        before.wf(),
        call_ensures(Gate::<S>::seal, (gate,), r),
    ensures
        before.memory().rely(mid),
        after.pending() == before.pending() ==> mid == before.memory(),
        r.0 == State::Controlled <==> mid.word % 64 == 0,
        r.0 == State::Sealed <==> mid.word % 64 == 1,
        r.0 == State::Open <==> mid.word % 64 == 2,
        r.1 == after.memory().delivered.len() - before.memory().delivered.len(),
        r.1 == mid.queue().len(),
        r.1 > 0 ==> r.0 == State::Controlled,
        service::resumes(mid, after.memory()),
        after.memory().word == 1,
        after.memory().queue().len() == 0,
        forall|e: usize| #[trigger]
            mid.queue().contains(e) ==> after.memory().nodes[e].result == Some(9u8),
        forall|e: usize|
            #![trigger after.memory().nodes[e]]
            mid.nodes.dom().contains(e) && !mid.queue().contains(e)
                ==> after.memory().nodes[e] == mid.nodes[e],
        forall|i: int|
            #![trigger after.memory().delivered[i]]
            before.memory().delivered.len() <= i < after.memory().delivered.len() ==> {
                &&& after.memory().delivered[i].result == 9
                &&& mid.queue().contains(after.memory().delivered[i].entry)
            },
{
    let first = before.memory();
    let new = after.memory();
    let mid = choose|mid: Memory| #[trigger]
        first.rely(mid) && Gate::<S>::wakes(mid, new, Some(State::Sealed), Some(Error::Sealed), r) && (
        after.pending() == before.pending() ==> mid == first);
    service::lemma_resumes(mid, new);
    assert forall|i: int|
        #![trigger new.delivered[i]]
        first.delivered.len() <= i < new.delivered.len() implies mid.queue().contains(
        new.delivered[i].entry,
    ) by {
        assert(crate::memory::handed(
            new.delivered,
            first.delivered.len() as int,
            new.delivered[i].entry,
        ));
    }
    mid
}

/// Permitting the waiting tasks of a controlled [`Gate`] lets them enter it.
///
/// The number of tasks that were waiting and have been handed the result is returned. A [`Gate`]
/// that is not controlled stays as it is, and its state is returned instead.
#[verifier::spinoff_prover]
#[verifier::rlimit(60)]
pub proof fn law_permit<S: SyncPrimitive>(
    gate: &mut Gate<S>,
    before: Gate<S>,
    after: Gate<S>,
    r: Result<usize, State>,
) -> (mid: Memory)
    requires
        *old(gate) == before,
        *final(gate) == after,
        before.wf(),
        call_ensures(Gate::<S>::permit, (gate,), r),
    ensures
        before.memory().rely(mid),
        after.pending() == before.pending() ==> mid == before.memory(),
        r is Ok <==> mid.word % 64 == 0,
        r == Result::<usize, State>::Err(State::Sealed) <==> mid.word % 64 == 1,
        r == Result::<usize, State>::Err(State::Open) <==> mid.word % 64 == 2,
        r matches Ok(number) ==> {
            &&& number == after.memory().delivered.len()
                - before.memory().delivered.len()
            &&& number == mid.queue().len()
            &&& after.memory().word == 0
        },
        r is Err ==> after.memory() == mid && mid.queue().len() == 0,
        service::resumes(mid, after.memory()),
        after.memory().queue().len() == 0,
        forall|e: usize| #[trigger]
            mid.queue().contains(e) ==> after.memory().nodes[e].result == Some(0u8),
        forall|e: usize|
            #![trigger after.memory().nodes[e]]
            mid.nodes.dom().contains(e) && !mid.queue().contains(e)
                ==> after.memory().nodes[e] == mid.nodes[e],
        r is Ok ==> forall|i: int|
            #![trigger after.memory().delivered[i]]
            before.memory().delivered.len() <= i < after.memory().delivered.len() ==> {
                &&& after.memory().delivered[i].result == 0
                &&& mid.queue().contains(after.memory().delivered[i].entry)
            },
{
    let first = before.memory();
    let new = after.memory();
    let mid = choose|mid: Memory| #[trigger]
        first.rely(mid) && Gate::<S>::lets(mid, new, None, r) && (after.pending()
            == before.pending() ==> mid == first);
    if r is Ok {
        service::lemma_resumes(mid, new);
        assert forall|i: int|
            #![trigger new.delivered[i]]
            first.delivered.len() <= i < new.delivered.len() implies mid.queue().contains(
            new.delivered[i].entry,
        ) by {
            assert(crate::memory::handed(
                new.delivered,
                first.delivered.len() as int,
                new.delivered[i].entry,
            ));
        }
    } else {
        assert(mid.queue() =~= Seq::<usize>::empty());
    }
    mid
}

/// Rejecting the waiting tasks of a controlled [`Gate`] turns them away.
///
/// The number of tasks that were waiting and have been handed the result is returned. A [`Gate`]
/// that is not controlled stays as it is, and its state is returned instead.
#[verifier::spinoff_prover]
#[verifier::rlimit(60)]
pub proof fn law_reject<S: SyncPrimitive>(
    gate: &mut Gate<S>,
    before: Gate<S>,
    after: Gate<S>,
    r: Result<usize, State>,
) -> (mid: Memory)
    requires
        *old(gate) == before,
        *final(gate) == after,
        before.wf(),
        call_ensures(Gate::<S>::reject, (gate,), r),
    ensures
        before.memory().rely(mid),
        after.pending() == before.pending() ==> mid == before.memory(),
        r is Ok <==> mid.word % 64 == 0,
        r == Result::<usize, State>::Err(State::Sealed) <==> mid.word % 64 == 1,
        r == Result::<usize, State>::Err(State::Open) <==> mid.word % 64 == 2,
        r matches Ok(number) ==> {
            &&& number == after.memory().delivered.len()
                - before.memory().delivered.len()
            &&& number == mid.queue().len()
            &&& after.memory().word == 0
        },
        r is Err ==> after.memory() == mid && mid.queue().len() == 0,
        service::resumes(mid, after.memory()),
        after.memory().queue().len() == 0,
        forall|e: usize| #[trigger]
            mid.queue().contains(e) ==> after.memory().nodes[e].result == Some(4u8),
        forall|e: usize|
            #![trigger after.memory().nodes[e]]
            mid.nodes.dom().contains(e) && !mid.queue().contains(e)
                ==> after.memory().nodes[e] == mid.nodes[e],
        r is Ok ==> forall|i: int|
            #![trigger after.memory().delivered[i]]
            before.memory().delivered.len() <= i < after.memory().delivered.len() ==> {
                &&& after.memory().delivered[i].result == 4
                &&& mid.queue().contains(after.memory().delivered[i].entry)
            },
{
    let first = before.memory();
    let new = after.memory();
    let mid = choose|mid: Memory| #[trigger]
        first.rely(mid) && Gate::<S>::lets(mid, new, Some(Error::Rejected), r) && (after.pending()
            == before.pending() ==> mid == first);
    if r is Ok {
        service::lemma_resumes(mid, new);
        assert forall|i: int|
            #![trigger new.delivered[i]]
            first.delivered.len() <= i < new.delivered.len() implies mid.queue().contains(
            new.delivered[i].entry,
        ) by {
            assert(crate::memory::handed(
                new.delivered,
                first.delivered.len() as int,
                new.delivered[i].entry,
            ));
        }
    } else {
        assert(mid.queue() =~= Seq::<usize>::empty());
    }
    mid
}

/// The state of a [`Gate`] is what its state word says.
#[verifier::spinoff_prover]
#[verifier::rlimit(60)]
pub proof fn law_state<S: SyncPrimitive>(gate: Gate<S>, mo: Ordering, r: State) -> (mid: Memory)
    requires
        gate.wf(),
        call_ensures(Gate::<S>::state, (&gate, mo), r),
    ensures
        gate.memory().rely(mid),
        gate.pending() == 0 ==> mid == gate.memory(),
        r == State::Controlled <==> mid.word % 64 == 0,
        r == State::Sealed <==> mid.word % 64 == 1,
        r == State::Open <==> mid.word % 64 == 2,
{
    choose|mid: Memory| #[trigger]
        gate.memory().rely(mid) && (gate.pending() == 0 ==> mid == gate.memory()) && r == Gate::<
            S,
        >::state_of(mid)
}

/// The state that [`Gate::open`] and [`Gate::seal`] return is the one that [`Gate::state`] has
/// returned right before, and the one that they leave behind is what it returns right after, unless
/// other tasks intervene.
#[verifier::spinoff_prover]
#[verifier::rlimit(60)]
pub proof fn law_previous_state_is_returned<S: SyncPrimitive>(
    gate: &mut Gate<S>,
    before: Gate<S>,
    after: Gate<S>,
    mo: Ordering,
    was: State,
    now: State,
    r: (State, usize),
    sealed: bool,
)
    requires
        *old(gate) == before,
        *final(gate) == after,
        before.wf(),
        before.pending() == 0,
        call_ensures(Gate::<S>::state, (&before, mo), was),
        sealed ==> call_ensures(Gate::<S>::seal, (gate,), r),
        !sealed ==> call_ensures(Gate::<S>::open, (gate,), r),
        call_ensures(Gate::<S>::state, (&after, mo), now),
    ensures
        r.0 == was,
        now == (if sealed {
            State::Sealed
        } else {
            State::Open
        }),
{
    law_state(before, mo, was);
    if sealed {
        law_seal(gate, before, after, r);
    } else {
        law_open(gate, before, after, r);
    }
    law_state(after, mo, now);
}

/// Resetting a [`Gate`] makes it controlled, and affects neither the waiting tasks nor the results
/// that have been handed out.
///
/// The state that it was in is returned unless it was controlled.
#[verifier::spinoff_prover]
#[verifier::rlimit(60)]
pub proof fn law_reset<S: SyncPrimitive>(
    gate: &mut Gate<S>,
    before: Gate<S>,
    after: Gate<S>,
    r: Option<State>,
) -> (mid: Memory)
    requires
        *old(gate) == before,
        *final(gate) == after,
        before.wf(),
        call_ensures(Gate::<S>::reset, (gate,), r),
    ensures
        before.memory().rely(mid),
        before.pending() == 0 ==> mid == before.memory(),
        r is None <==> mid.word % 64 == 0,
        r == Some(State::Sealed) <==> mid.word % 64 == 1,
        r == Some(State::Open) <==> mid.word % 64 == 2,
        after.memory().word % 64 == 0,
        after.memory().queue() == mid.queue(),
        after.memory().nodes == mid.nodes,
        after.memory().delivered == mid.delivered,
        r is None ==> after.memory() == mid,
{
    if r is None {
        after.memory()
    } else {
        let mid = choose|mid: Memory| #[trigger]
            before.memory().rely(mid) && r == Some(Gate::<S>::state_of(mid)) && r != Some(
                State::Controlled,
            ) && after.memory() == mid.counted(0) && (before.pending() == 0 ==> mid
                == before.memory());
        assert(mid.queue().len() == 0);
        assert(after.memory().queue() =~= mid.queue());
        mid
    }
}

/// A task that arrives at a [`Gate`] waits behind the others if it is controlled, is turned away if
/// it is sealed, and enters it if it is open. Nobody else is affected.
///
/// A [`pager::Pager`] can be registered once.
#[verifier::spinoff_prover]
pub proof fn law_register_pager<S: SyncPrimitive>(
    gate: &mut Gate<S>,
    pager: &mut pager::Pager,
    before: Gate<S>,
    after: Gate<S>,
    was: pager::Pager,
    now: pager::Pager,
    is_sync: bool,
    r: bool,
)
    requires
        *old(gate) == before,
        *final(gate) == after,
        *old(pager) == was,
        *final(pager) == now,
        before.wf(),
        call_ensures(Gate::<S>::register_pager, (gate, pager, is_sync), r),
    ensures
        r <==> was.entry() is None,
        !r ==> now == was && after == before,
        r ==> registered(before, after, now, is_sync),
{
}

/// The [`pager::Pager`] was registered: its task has arrived at the [`Gate`].
pub open spec fn registered<S: SyncPrimitive>(
    before: Gate<S>,
    after: Gate<S>,
    pager: pager::Pager,
    is_sync: bool,
) -> bool {
    let old = before.memory();
    let new = after.memory();
    let entry = pager.entry()->0;
    &&& pager.entry() is Some
    &&& pager.synchronous() == is_sync
    &&& !pager.acked()
    &&& after.primitive.room() == before.primitive.room() - 1
    &&& after.primitive.marks() == (if new.nodes[entry].result is None {
        before.primitive.marks().insert(entry)
    } else {
        before.primitive.marks()
    })
    &&& new.nodes[entry].is_sync == is_sync
    &&& !old.own.contains(entry)
    &&& new.own == old.own.insert(entry)
    &&& new.nodes[entry].result is None <==> new.word % 64 == 0
    &&& new.nodes[entry].result == Some(9u8) <==> new.word % 64 == 1
    &&& new.nodes[entry].result == Some(2u8) <==> new.word % 64 == 2
    &&& new.delivered.len() == old.delivered.len() + (if new.word % 64 == 0 {
        0int
    } else {
        1
    })
    &&& new.word % 64 == 0 ==> new.queue().len() > 0 && new.queue().last() == entry
    &&& after.pending() == before.pending() ==> {
        &&& new.word % 64 == old.word % 64
        &&& new.queue() == (if old.word % 64 == 0 {
            old.queue().push(entry)
        } else {
            old.queue()
        })
        &&& forall|e: usize|
            #![trigger new.nodes[e]]
            old.nodes.dom().contains(e) && e != entry ==> new.nodes[e] == old.nodes[e]
    }
}

/// A [`Pager`] that is registered with [`Gate::register_async`] arrives at the [`Gate`] as any
/// other does.
#[verifier::spinoff_prover]
pub proof fn law_register_async<S: SyncPrimitive>(
    gate: &mut Gate<S>,
    pager: &mut Pager,
    before: Gate<S>,
    after: Gate<S>,
    was: Pager,
    now: Pager,
    r: bool,
)
    requires
        *old(gate) == before,
        *final(gate) == after,
        *old(pager) == was,
        *final(pager) == now,
        before.wf(),
        call_ensures(Gate::<S>::register_async, (gate, pager), r),
    ensures
        r <==> was@.entry() is None,
        !r ==> now == was && after == before,
        r ==> registered(before, after, now@, false),
{
}

/// A [`Pager`] that is registered with [`Gate::register_sync`] arrives at the [`Gate`] as any other
/// does.
#[verifier::spinoff_prover]
pub proof fn law_register_sync<S: SyncPrimitive>(
    gate: &mut Gate<S>,
    pager: &mut Pager,
    before: Gate<S>,
    after: Gate<S>,
    was: Pager,
    now: Pager,
    r: bool,
)
    requires
        *old(gate) == before,
        *final(gate) == after,
        *old(pager) == was,
        *final(pager) == now,
        before.wf(),
        call_ensures(Gate::<S>::register_sync, (gate, pager), r),
    ensures
        r <==> was@.entry() is None,
        !r ==> now == was && after == before,
        r ==> registered(before, after, now@, true),
{
}

/// What a task that is handed a value makes of it.
pub open spec fn reading(value: u8) -> Result<State, Error> {
    if value == 0 {
        Ok(State::Controlled)
    } else if value == 1 {
        Ok(State::Sealed)
    } else if value < 4 {
        Ok(State::Open)
    } else if value < 8 {
        Err(Error::Rejected)
    } else if value < 12 {
        Err(Error::Sealed)
    } else if value < 16 {
        Err(Error::SpuriousFailure)
    } else if value < 20 {
        Err(Error::NotRegistered)
    } else if value < 24 {
        Err(Error::WrongMode)
    } else if 28 <= value < 32 {
        Err(Error::NotReady)
    } else {
        Err(Error::Unknown)
    }
}

/// What the interpretation of a value by a [`Gate`] amounts to.
#[verifier::spinoff_prover]
#[verifier::rlimit(60)]
pub proof fn lemma_reading<S: SyncPrimitive>(value: u8)
    ensures
        Gate::<S>::interpret(value, None) == reading(value),
{
    assert(value - value % 4 == (value / 4) * 4 && value % 4 < 4);
}

/// A value that a task was handed tells it whether it may enter the [`Gate`], and an error of a
/// [`Pager`] is passed on.
#[verifier::spinoff_prover]
#[verifier::rlimit(60)]
pub proof fn law_to_result<S: SyncPrimitive>(
    value: u8,
    pager_error: Option<pager::Error>,
    r: Result<State, Error>,
)
    requires
        call_ensures(Gate::<S>::to_result, (value, pager_error), r),
    ensures
        pager_error is None ==> r == reading(value),
        pager_error == Some(pager::Error::NotRegistered) ==> r == Result::<State, Error>::Err(
            Error::NotRegistered,
        ),
        pager_error == Some(pager::Error::WrongMode) ==> r == Result::<State, Error>::Err(
            Error::WrongMode,
        ),
        pager_error == Some(pager::Error::NotReady) ==> r == Result::<State, Error>::Err(
            Error::NotReady,
        ),
{
    lemma_reading::<S>(value);
}

/// A state and an error that are packed into a value can be unpacked again, and no two of them
/// share a value.
#[verifier::spinoff_prover]
#[verifier::rlimit(60)]
pub proof fn law_packing(
    state: State,
    error: Option<Error>,
    other_state: State,
    other_error: Option<Error>,
    value: u8,
    other: u8,
    r: (State, Option<Error>),
)
    requires
        call_ensures(Gate::into_u8, (state, error), value),
        call_ensures(Gate::into_u8, (other_state, other_error), other),
        call_ensures(Gate::from_u8, (value,), r),
    ensures
        r == (state, error),
        value == other ==> state == other_state && error == other_error,
        value % 4 == (match state {
            State::Controlled => 0u8,
            State::Sealed => 1,
            State::Open => 2,
        }),
        value / 4 == (match error {
            None => 0u8,
            Some(Error::Rejected) => 1,
            Some(Error::Sealed) => 2,
            Some(Error::SpuriousFailure) => 3,
            Some(Error::NotRegistered) => 4,
            Some(Error::WrongMode) => 5,
            Some(Error::Unknown) => 6,
            Some(Error::NotReady) => 7,
        }),
{
    Gate::law_decoded_is_encoded(state, error);
    Gate::law_decoded_is_encoded(other_state, other_error);
}

/// Unpacking a value never yields a state or an error that does not belong to it.
#[verifier::spinoff_prover]
#[verifier::rlimit(60)]
pub proof fn law_unpacking(value: u8, r: (State, Option<Error>))
    requires
        call_ensures(Gate::from_u8, (value,), r),
    ensures
        r.0 == State::Controlled <==> value % 4 == 0,
        r.0 == State::Sealed <==> value % 4 == 1,
        r.0 == State::Open <==> value % 4 >= 2,
        r.1 is None <==> value / 4 == 0,
        r.1 == Some(Error::Rejected) <==> value / 4 == 1,
        r.1 == Some(Error::Sealed) <==> value / 4 == 2,
        r.1 == Some(Error::SpuriousFailure) <==> value / 4 == 3,
        r.1 == Some(Error::NotRegistered) <==> value / 4 == 4,
        r.1 == Some(Error::WrongMode) <==> value / 4 == 5,
        r.1 == Some(Error::NotReady) <==> value / 4 == 7,
        r.1 == Some(Error::Unknown) <==> value / 4 == 6 || value / 4 > 7,
{
    assert(value - value % 4 == (value / 4) * 4 && value % 4 < 4);
}

/// The numbers that stand for the states lead back to them.
#[verifier::spinoff_prover]
pub proof fn law_state_numbers(given: State, number: u8, r: State, value: usize, q: State)
    requires
        call_ensures(<u8 as From<State>>::from, (given,), number),
        call_ensures(<State as From<u8>>::from, (number,), r),
        call_ensures(<State as From<usize>>::from, (value,), q),
    ensures
        r == given,
        number == (match given {
            State::Controlled => 0u8,
            State::Sealed => 1,
            State::Open => 2,
        }),
        q == State::Controlled <==> value == 0,
        q == State::Sealed <==> value == 1,
        q == State::Open <==> value >= 2,
{
}

/// The numbers that stand for the errors lead back to them.
#[verifier::spinoff_prover]
pub proof fn law_error_numbers(error: Error, number: u8, r: Error, value: usize, q: Error)
    requires
        call_ensures(<u8 as From<Error>>::from, (error,), number),
        call_ensures(<Error as From<u8>>::from, (number,), r),
        call_ensures(<Error as From<usize>>::from, (value,), q),
    ensures
        r == error,
        number == (match error {
            Error::Rejected => 4u8,
            Error::Sealed => 8,
            Error::SpuriousFailure => 12,
            Error::NotRegistered => 16,
            Error::WrongMode => 20,
            Error::Unknown => 24,
            Error::NotReady => 28,
        }),
        q == Error::Rejected <==> value == 4,
        q == Error::Sealed <==> value == 8,
        q == Error::SpuriousFailure <==> value == 12,
        q == Error::NotRegistered <==> value == 16,
        q == Error::WrongMode <==> value == 20,
        q == Error::NotReady <==> value == 28,
{
}

/// A task that enters a [`Gate`] waits behind the others if it is controlled, is turned away if it
/// is sealed, and enters it if it is open. Nobody else is affected.
///
/// `joined` is the memory right after the task of `entry` has arrived, and `mid` the memory when
/// the task looks for its result.
#[verifier::spinoff_prover]
#[verifier::rlimit(60)]
pub proof fn law_enter_async<S: SyncPrimitive>(
    gate: &mut Gate<S>,
    before: Gate<S>,
    after: Gate<S>,
    r: (Option<Result<State, Error>>, Pager),
) -> (moments: (Memory, Memory, usize))
    requires
        *old(gate) == before,
        *final(gate) == after,
        before.wf(),
        call_ensures(Gate::<S>::enter_async, (gate,), r),
    ensures
        ({
            let (joined, mid, entry) = moments;
            let old = before.memory();
            &&& !old.own.contains(entry)
            &&& joined.own == old.own.insert(entry)
            &&& joined.nodes[entry].result is None <==> joined.word % 64 == 0
            &&& joined.nodes[entry].result == Some(9u8) <==> joined.word % 64 == 1
            &&& joined.nodes[entry].result == Some(2u8) <==> joined.word % 64 == 2
            &&& joined.rely(mid)
            &&& r.0 is None <==> mid.nodes[entry].result is None
            &&& r.0 matches Some(result) ==> result == reading(mid.nodes[entry].result->0)
            &&& r.1@.entry() == (if r.0 is None {
                Some(entry)
            } else {
                None
            })
            &&& r.0 is None ==> !r.1@.synchronous() && !r.1@.acked() && after.memory() == mid
            &&& r.0 is None ==> {
                &&& after.primitive.room() == before.primitive.room() - 1
                &&& after.primitive.marks() == before.primitive.marks().insert(entry)
            }
            &&& r.0 is Some ==> {
                &&& after.primitive.room() == before.primitive.room()
                &&& after.primitive.marks() == before.primitive.marks()
                &&& after.memory().word == mid.word
                &&& after.memory().nodes == mid.nodes.remove(entry)
                &&& after.memory().own == old.own
            }
            &&& after.pending() == before.pending() ==> {
                &&& mid == joined
                &&& joined.word % 64 == old.word % 64
                &&& r.0 is None <==> old.word % 64 == 0
                &&& r.0 == Some(Result::<State, Error>::Err(Error::Sealed)) <==> old.word % 64 == 1
                &&& r.0 == Some(Result::<State, Error>::Ok(State::Open)) <==> old.word % 64 == 2
                &&& r.0 is None ==> after.memory().queue() == old.queue().push(entry)
                &&& forall|e: usize|
                    #![trigger after.memory().nodes[e]]
                    old.nodes.dom().contains(e) && e != entry ==> after.memory().nodes[e]
                        == old.nodes[e]
            }
        }),
{
    let old = before.memory();
    let new = after.memory();
    let alone = after.pending() == before.pending();
    let (joined, mid, entry) = choose|joined: Memory, mid: Memory, entry: usize|
        #![trigger joined.rely(mid), mid.without_entry(entry)]
        Gate::<S>::joins(old, joined, entry, alone) && joined.wf() && joined.rely(mid) && (alone
            ==> mid == joined) && match r.0 {
            Some(result) => {
                &&& r.1@.entry() is None
                &&& mid.nodes[entry].result is Some
                &&& result == Gate::<S>::interpret(mid.nodes[entry].result->0, None)
                &&& new == mid.without_entry(entry)
            },
            None => {
                &&& r.1@.entry() == Some(entry)
                &&& r.1@.synchronous() == false
                &&& r.1@.wf(new)
                &&& mid.nodes[entry].result is None
                &&& new == mid
            },
        };
    if r.0 is Some {
        assert(new.own =~= old.own);
        lemma_reading::<S>(mid.nodes[entry].result->0);
    }
    (joined, mid, entry)
}

/// A task that enters a [`Gate`] waits behind the others if it is controlled, is turned away if it
/// is sealed, and enters it if it is open. Nobody else is affected.
///
/// `joined` is the memory right after the task of `entry` has arrived, and `mid` the memory when
/// the task looks for its result.
#[verifier::spinoff_prover]
#[verifier::rlimit(60)]
pub proof fn law_enter_sync<S: SyncPrimitive>(
    gate: &mut Gate<S>,
    before: Gate<S>,
    after: Gate<S>,
    r: (Option<Result<State, Error>>, Pager),
) -> (moments: (Memory, Memory, usize))
    requires
        *old(gate) == before,
        *final(gate) == after,
        before.wf(),
        call_ensures(Gate::<S>::enter_sync, (gate,), r),
    ensures
        ({
            let (joined, mid, entry) = moments;
            let old = before.memory();
            &&& !old.own.contains(entry)
            &&& joined.own == old.own.insert(entry)
            &&& joined.nodes[entry].result is None <==> joined.word % 64 == 0
            &&& joined.nodes[entry].result == Some(9u8) <==> joined.word % 64 == 1
            &&& joined.nodes[entry].result == Some(2u8) <==> joined.word % 64 == 2
            &&& joined.rely(mid)
            &&& r.0 is None <==> mid.nodes[entry].result is None
            &&& r.0 matches Some(result) ==> result == reading(mid.nodes[entry].result->0)
            &&& r.1@.entry() == (if r.0 is None {
                Some(entry)
            } else {
                None
            })
            &&& r.0 is None ==> r.1@.synchronous() && !r.1@.acked() && after.memory() == mid
            &&& r.0 is None ==> {
                &&& after.primitive.room() == before.primitive.room() - 1
                &&& after.primitive.marks() == before.primitive.marks().insert(entry)
            }
            &&& r.0 is Some ==> {
                &&& after.primitive.room() == before.primitive.room()
                &&& after.primitive.marks() == before.primitive.marks()
                &&& after.memory().word == mid.word
                &&& after.memory().nodes == mid.nodes.remove(entry)
                &&& after.memory().own == old.own
            }
            &&& after.pending() == before.pending() ==> {
                &&& mid == joined
                &&& joined.word % 64 == old.word % 64
                &&& r.0 is None <==> old.word % 64 == 0
                &&& r.0 == Some(Result::<State, Error>::Err(Error::Sealed)) <==> old.word % 64 == 1
                &&& r.0 == Some(Result::<State, Error>::Ok(State::Open)) <==> old.word % 64 == 2
                &&& r.0 is None ==> after.memory().queue() == old.queue().push(entry)
                &&& forall|e: usize|
                    #![trigger after.memory().nodes[e]]
                    old.nodes.dom().contains(e) && e != entry ==> after.memory().nodes[e]
                        == old.nodes[e]
            }
        }),
{
    let old = before.memory();
    let new = after.memory();
    let alone = after.pending() == before.pending();
    let (joined, mid, entry) = choose|joined: Memory, mid: Memory, entry: usize|
        #![trigger joined.rely(mid), mid.without_entry(entry)]
        Gate::<S>::joins(old, joined, entry, alone) && joined.wf() && joined.rely(mid) && (alone
            ==> mid == joined) && match r.0 {
            Some(result) => {
                &&& r.1@.entry() is None
                &&& mid.nodes[entry].result is Some
                &&& result == Gate::<S>::interpret(mid.nodes[entry].result->0, None)
                &&& new == mid.without_entry(entry)
            },
            None => {
                &&& r.1@.entry() == Some(entry)
                &&& r.1@.synchronous() == true
                &&& r.1@.wf(new)
                &&& mid.nodes[entry].result is None
                &&& new == mid
            },
        };
    if r.0 is Some {
        assert(new.own =~= old.own);
        lemma_reading::<S>(mid.nodes[entry].result->0);
    }
    (joined, mid, entry)
}

/// A [`Gate`] that is closed leaves nobody waiting: the waiting tasks, if there are any, are told
/// that it has been sealed.
#[verifier::spinoff_prover]
pub proof fn law_close<S: SyncPrimitive>(gate: &mut Gate<S>, before: Gate<S>, after: Gate<S>)
    requires
        *old(gate) == before,
        *final(gate) == after,
        before.wf(),
        call_ensures(Gate::<S>::close, (gate,), ()),
    ensures
        after.memory().queue().len() == 0,
        before.memory().rely(after.memory()) || exists|mid: Memory| #[trigger]
            before.memory().rely(mid) && after.memory().word == 1 && after.memory().delivered.len()
                == mid.delivered.len() + mid.queue().len() && forall|e: usize| #[trigger]
                mid.queue().contains(e) ==> after.memory().nodes[e].result == Some(9u8),
        before.pending() == 0 ==> {
            &&& before.memory().queue().len() == 0 ==> after.memory() == before.memory()
            &&& before.memory().queue().len() > 0 ==> after.memory().word == 1
            &&& forall|e: usize| #[trigger]
                before.memory().queue().contains(e) ==> after.memory().nodes[e].result == Some(9u8)
            &&& after.memory().delivered.len() == before.memory().delivered.len()
                + before.memory().queue().len()
        },
{
}

/// A new [`Gate`] is controlled, and nobody waits.
pub proof fn law_default(r: Gate)
    requires
        call_ensures(Gate::default, (), r),
    ensures
        r.wf(),
        r.pending() == 0,
        r.memory().word == 0,
        r.memory().queue().len() == 0,
        r.memory().delivered.len() == 0,
        r.primitive.room() > 0,
{
}

/// What a [`Pager`] tells of itself fits together, and a new one is not registered.
pub proof fn law_pager_observers(
    fresh: Pager,
    pager: Pager,
    is_registered: bool,
    is_sync: bool,
    addr: Option<usize>,
)
    requires
        call_ensures(Pager::default, (), fresh),
        call_ensures(Pager::is_registered, (&pager,), is_registered),
        call_ensures(Pager::is_sync, (&pager,), is_sync),
        call_ensures(Pager::entry_addr, (&pager,), addr),
    ensures
        addr == pager@.entry(),
        is_registered <==> addr is Some,
        is_sync ==> is_registered,
        is_sync <==> pager@.synchronous(),
        pager == fresh ==> !is_registered,
{
}

/// Polling a [`Pager`] synchronously tells the result that its task was handed, and unregisters it;
/// there is none before the task was handed one. A [`Pager`] that is not registered, or was
/// registered with the other mode, stays as it is.
#[verifier::spinoff_prover]
#[verifier::rlimit(60)]
pub proof fn law_poll_sync<S: SyncPrimitive>(
    pager: &mut Pager,
    gate: &mut Gate<S>,
    was: Pager,
    now: Pager,
    before: Gate<S>,
    after: Gate<S>,
    r: Option<Result<State, Error>>,
) -> (mid: Memory)
    requires
        *old(pager) == was,
        *final(pager) == now,
        *old(gate) == before,
        *final(gate) == after,
        before.wf(),
        was@.wf(before.memory()),
        call_ensures(Pager::poll_sync::<S>, (pager, gate), r),
    ensures
        before.memory().rely(mid),
        after.pending() == before.pending() ==> mid == before.memory(),
        was@.entry() is None ==> {
            &&& r == Some(Result::<State, Error>::Err(Error::NotRegistered))
            &&& now@ == was@
            &&& after.memory() == mid
        },
        was@.entry() is Some && !was@.synchronous() ==> {
            &&& r == Some(Result::<State, Error>::Err(Error::WrongMode))
            &&& now@ == was@
            &&& after.memory() == mid
        },
        was@.entry() is Some && was@.synchronous() ==> match mid.nodes[was@.entry()->0].result {
            None => r is None && now@ == was@ && after.memory() == mid,
            Some(value) => {
                &&& r == Some(reading(value))
                &&& now@.entry() is None
                &&& after.memory().word == mid.word
                &&& after.memory().nodes == mid.nodes.remove(was@.entry()->0)
                &&& after.primitive.room() == before.primitive.room() + 1
                &&& after.primitive.marks() == before.primitive.marks().remove(was@.entry()->0)
                &&& after.memory().delivered == mid.delivered
            },
        },
{
    let alone = after.pending() == before.pending();
    let mid = choose|mid: Memory| #[trigger]
        before.memory().rely(mid) && (alone ==> mid == before.memory()) && r == was@.polled::<
            Gate<S>,
        >(mid, true) && if was@.completed(mid, true) {
            now@.entry() is None && after.memory() == mid.without_entry(was@.entry()->0)
        } else {
            now@ == was@ && after.memory() == mid
        };
    if mid.nodes[was@.entry()->0].result is Some {
        lemma_reading::<S>(mid.nodes[was@.entry()->0].result->0);
    }
    mid
}

/// Polling a [`Pager`] asynchronously tells the result that its task was handed, and unregisters
/// it; there is none before the task was handed one. A [`Pager`] that is not registered stays as it
/// is.
#[verifier::spinoff_prover]
#[verifier::rlimit(60)]
pub proof fn law_poll_async<S: SyncPrimitive>(
    pager: &mut Pager,
    gate: &mut Gate<S>,
    was: Pager,
    now: Pager,
    before: Gate<S>,
    after: Gate<S>,
    r: Option<Result<State, Error>>,
) -> (mid: Memory)
    requires
        *old(pager) == was,
        *final(pager) == now,
        *old(gate) == before,
        *final(gate) == after,
        before.wf(),
        was@.wf(before.memory()),
        !was@.synchronous(),
        call_ensures(Pager::poll_async::<S>, (pager, gate), r),
    ensures
        before.memory().rely(mid),
        after.pending() == before.pending() ==> mid == before.memory(),
        was@.entry() is None ==> {
            &&& r == Some(Result::<State, Error>::Err(Error::NotRegistered))
            &&& now@ == was@
            &&& after.memory() == mid
        },
        was@.entry() is Some && !was@.synchronous() ==> match mid.nodes[was@.entry()->0].result {
            None => r is None && now@ == was@ && after.memory() == mid,
            Some(value) => {
                &&& r == Some(reading(value))
                &&& now@.entry() is None
                &&& after.memory().word == mid.word
                &&& after.memory().nodes == mid.nodes.remove(was@.entry()->0)
                &&& after.primitive.room() == before.primitive.room() + 1
                &&& after.primitive.marks() == before.primitive.marks().remove(was@.entry()->0)
                &&& after.memory().delivered == mid.delivered
            },
        },
{
    let alone = after.pending() == before.pending();
    let mid = choose|mid: Memory| #[trigger]
        before.memory().rely(mid) && (alone ==> mid == before.memory()) && r == was@.polled::<
            Gate<S>,
        >(mid, false) && if was@.completed(mid, false) {
            now@.entry() is None && after.memory() == mid.without_entry(was@.entry()->0)
        } else {
            now@ == was@ && after.memory() == mid
        };
    if mid.nodes[was@.entry()->0].result is Some {
        lemma_reading::<S>(mid.nodes[was@.entry()->0].result->0);
    }
    mid
}

/// Trying to get the result of a [`Pager`] tells the one that its task was handed, and that it is
/// not ready before; the [`Pager`] stays registered.
#[verifier::spinoff_prover]
#[verifier::rlimit(60)]
pub proof fn law_try_poll<S: SyncPrimitive>(
    pager: &mut Pager,
    gate: &mut Gate<S>,
    was: Pager,
    now: Pager,
    before: Gate<S>,
    after: Gate<S>,
    r: Result<State, Error>,
)
    requires
        *old(pager) == was,
        *final(pager) == now,
        *old(gate) == before,
        *final(gate) == after,
        before.wf(),
        was@.wf(before.memory()),
        call_ensures(Pager::try_poll::<S>, (pager, gate), r),
    ensures
        before.memory().rely(after.memory()),
        after.pending() == before.pending() ==> after.memory() == before.memory(),
        now@.entry() == was@.entry(),
        now@.synchronous() == was@.synchronous(),
        was@.entry() is None ==> r == Result::<State, Error>::Err(Error::NotRegistered),
        was@.entry() is Some ==> match after.memory().nodes[was@.entry()->0].result {
            None => r == Result::<State, Error>::Err(Error::NotReady) && !now@.acked(),
            Some(value) => r == reading(value) && now@.acked(),
        },
{
    if after.memory().nodes[was@.entry()->0].result is Some {
        lemma_reading::<S>(after.memory().nodes[was@.entry()->0].result->0);
    }
}

/// The task of a [`pager::Pager`] has left the [`Gate`].
///
/// If it was still waiting, it is gone from the queue, and each of the other waiting tasks is told
/// that it has failed to enter without having been rejected. Otherwise, only its entry disappears.
pub open spec fn left<S: SyncPrimitive>(
    before: Gate<S>,
    after: Gate<S>,
    pager: pager::Pager,
) -> bool {
    let old = before.memory();
    let new = after.memory();
    match pager.entry() {
        None => new == old,
        Some(entry) => {
            &&& new.own == old.own.remove(entry)
            &&& pager.acked() || before.pending() == 0 && old.nodes[entry].result is Some ==> {
                &&& new.word == old.word
                &&& new.nodes == old.nodes.remove(entry)
                &&& new.delivered == old.delivered
            }
            &&& before.pending() == 0 && old.nodes[entry].result is None ==> {
                &&& old.queue().contains(entry)
                &&& new.word == 0
                &&& new.queue().len() == 0
                &&& new.nodes.dom() == old.nodes.dom().remove(entry)
                &&& new.delivered.len() == old.delivered.len() + old.queue().len()
                &&& forall|e: usize|
                    #![trigger new.nodes[e]]
                    old.nodes.dom().contains(e) && e != entry ==> new.nodes[e].result == (
                    if old.queue().contains(e) {
                        Some(12u8)
                    } else {
                        old.nodes[e].result
                    })
            }
        },
    }
}

/// A task has left a [`Gate`] whoever intervened: it either found a result, or told everybody who
/// was waiting at the moment `mid` that they have failed to enter without having been rejected.
pub open spec fn gone(old: Memory, new: Memory, entry: usize) -> bool {
    exists|done: Memory|
        done.nodes[entry].result is Some && #[trigger] done.nodes.remove(entry) == new.nodes
            && new.word == done.word && {
            ||| old.rely(done)
            ||| old.nodes[entry].result is None && exists|mid: Memory, woken: Memory| #[trigger]
                old.rely(mid) && #[trigger] woken.rely(done) && failed(mid, woken)
        }
}

/// Everybody who was waiting at the moment `mid` has failed to enter without having been rejected.
pub open spec fn failed(mid: Memory, woken: Memory) -> bool {
    &&& woken.word == mid.word % 64
    &&& woken.queue().len() == 0
    &&& woken.delivered.len() == mid.delivered.len() + mid.queue().len()
    &&& service::resumes(mid, woken)
    &&& forall|e: usize|
        #![trigger woken.nodes[e]]
        mid.nodes.dom().contains(e) ==> woken.nodes[e].result == (if mid.queue().contains(e) {
            Some(12u8)
        } else {
            mid.nodes[e].result
        })
}

/// What leaving a [`Gate`] amounts to, whoever intervenes.
#[verifier::spinoff_prover]
#[verifier::rlimit(60)]
pub proof fn lemma_gone<S: SyncPrimitive>(
    old: Memory,
    new: Memory,
    entry: usize,
    alone: bool,
)
    requires
        old.wf(),
        old.discipline is Gate,
        Gate::<S>::drops(old, new, entry, alone),
    ensures
        gone(old, new, entry),
{
    let done = choose|done: Memory| #[trigger]
        done.without_entry(entry) == new && done.nodes[entry].result is Some && {
            ||| old.rely(done) && (alone ==> done == old)
            ||| old.nodes[entry].result is None && Gate::<S>::fails(old, done, alone)
        };
    assert(done.nodes.remove(entry) == new.nodes);
    if !old.rely(done) {
        let (mid, woken) = choose|mid: Memory, woken: Memory| #[trigger]
            old.rely(mid) && #[trigger] woken.rely(done) && mid.dismisses(
                woken,
                Gate::<S>::state_of(mid).value() as usize,
                Gate::encoded(Gate::<S>::state_of(mid), Some(Error::SpuriousFailure)),
            ) && (alone ==> mid == old && woken == done);
        service::lemma_resumes(mid, woken);
        assert(failed(mid, woken)) by {
            assert forall|e: usize|
                #![trigger woken.nodes[e]]
                mid.nodes.dom().contains(e) implies woken.nodes[e].result == (
            if mid.queue().contains(e) {
                Some(12u8)
            } else {
                mid.nodes[e].result
            }) by {
                if mid.queue().contains(e) {
                    assert(mid.queue().len() > 0);
                    assert(mid.data() == 0);
                }
            }
        }
    }
}

/// What leaving a [`Gate`] amounts to.
#[verifier::spinoff_prover]
#[verifier::rlimit(60)]
pub proof fn lemma_left<S: SyncPrimitive>(before: Gate<S>, after: Gate<S>, pager: pager::Pager)
    requires
        before.wf(),
        after.wf(),
        pager.wf(before.memory()),
        pager.abandons::<Gate<S>>(before.memory(), after.memory(), before.pending() == 0),
    ensures
        left(before, after, pager),
{
    if pager.entry() is Some && !pager.acked() && before.pending() == 0 {
        let old = before.memory();
        let new = after.memory();
        let entry = pager.entry()->0;
        assert(old.nodes.dom().contains(entry));
        let done = choose|done: Memory| #[trigger]
            done.without_entry(entry) == new && done.nodes[entry].result is Some && {
                ||| old.rely(done) && done == old
                ||| old.nodes[entry].result is None && Gate::<S>::fails(old, done, true)
            };
        if old.nodes[entry].result is None {
            assert(old.queue().contains(entry));
            assert(old.queue().len() > 0);
            assert(Gate::<S>::fails(old, done, true));
            assert(new.tail() == 0);
            assert(new.queue().len() == 0);
        }
    }
}

/// A task that gives up waiting leaves the [`Gate`].
#[verifier::spinoff_prover]
#[verifier::rlimit(60)]
pub proof fn law_cancel<S: SyncPrimitive>(
    pager: &mut Pager,
    gate: &mut Gate<S>,
    was: Pager,
    now: Pager,
    before: Gate<S>,
    after: Gate<S>,
)
    requires
        *old(pager) == was,
        *final(pager) == now,
        *old(gate) == before,
        *final(gate) == after,
        before.wf(),
        was@.wf(before.memory()),
        call_ensures(Pager::cancel::<S>, (pager, gate), ()),
    ensures
        now@.entry() is None,
        left(before, after, was@),
        was@.entry() matches Some(entry) ==> {
            &&& after.primitive.room() == before.primitive.room() + 1
            &&& after.primitive.marks() == before.primitive.marks().remove(entry)
            &&& !was@.acked() ==> gone(before.memory(), after.memory(), entry)
        },
{
    lemma_left(before, after, was@);
    if was@.entry() is Some && !was@.acked() {
        lemma_gone::<S>(
            before.memory(),
            after.memory(),
            was@.entry()->0,
            before.pending() == 0,
        );
    }
}

/// A task whose [`pager::Pager`] is cancelled leaves the [`Gate`].
#[verifier::spinoff_prover]
#[verifier::rlimit(60)]
pub proof fn law_cancel_pager<S: SyncPrimitive>(
    pager: &mut pager::Pager,
    gate: &mut Gate<S>,
    was: pager::Pager,
    now: pager::Pager,
    before: Gate<S>,
    after: Gate<S>,
)
    requires
        *old(pager) == was,
        *final(pager) == now,
        *old(gate) == before,
        *final(gate) == after,
        before.wf(),
        was.wf(before.memory()),
        call_ensures(pager::Pager::cancel::<Gate<S>>, (pager, gate), ()),
    ensures
        now.entry() is None,
        left(before, after, was),
        was.entry() matches Some(entry) ==> {
            &&& after.primitive.room() == before.primitive.room() + 1
            &&& after.primitive.marks() == before.primitive.marks().remove(entry)
            &&& !was.acked() ==> gone(before.memory(), after.memory(), entry)
        },
{
    lemma_left(before, after, was);
    if was.entry() is Some && !was.acked() {
        lemma_gone::<S>(
            before.memory(),
            after.memory(),
            was.entry()->0,
            before.pending() == 0,
        );
    }
}

/// A task that was registered to be polled synchronously and is polled asynchronously is told that
/// this is the wrong mode, and leaves the [`Gate`].
#[verifier::spinoff_prover]
#[verifier::rlimit(60)]
pub proof fn law_poll_async_in_the_wrong_mode<S: SyncPrimitive>(
    pager: &mut Pager,
    gate: &mut Gate<S>,
    was: Pager,
    now: Pager,
    before: Gate<S>,
    after: Gate<S>,
    r: Option<Result<State, Error>>,
)
    requires
        *old(pager) == was,
        *final(pager) == now,
        *old(gate) == before,
        *final(gate) == after,
        before.wf(),
        was@.wf(before.memory()),
        was@.synchronous(),
        call_ensures(Pager::poll_async::<S>, (pager, gate), r),
    ensures
        r == Some(Result::<State, Error>::Err(Error::WrongMode)),
        now@.entry() is None,
        left(before, after, was@),
        was@.entry() matches Some(entry) ==> {
            &&& after.primitive.room() == before.primitive.room() + 1
            &&& after.primitive.marks() == before.primitive.marks().remove(entry)
            &&& !was@.acked() ==> gone(before.memory(), after.memory(), entry)
        },
{
    lemma_left(before, after, was@);
    if was@.entry() is Some && !was@.acked() {
        lemma_gone::<S>(
            before.memory(),
            after.memory(),
            was@.entry()->0,
            before.pending() == 0,
        );
    }
}

/// Whatever state a [`Gate`] is in, it can be opened, sealed, reset and closed, and its waiting
/// tasks can be permitted or rejected; a task can enter it as long as an entry can be created.
#[verifier::spinoff_prover]
pub proof fn law_callable<S: SyncPrimitive>(
    gate: &mut Gate<S>,
    pager: &mut Pager,
    before: Gate<S>,
    was: Pager,
    mo: Ordering,
)
    requires
        *old(gate) == before,
        *old(pager) == was,
        before.wf(),
    ensures
        call_requires(Gate::<S>::state, (&before, mo)),
        call_requires(Gate::<S>::open, (gate,)),
        call_requires(Gate::<S>::seal, (gate,)),
        call_requires(Gate::<S>::permit, (gate,)),
        call_requires(Gate::<S>::reject, (gate,)),
        call_requires(Gate::<S>::reset, (gate,)),
        call_requires(Gate::<S>::close, (gate,)),
        before.primitive.room() > 0 ==> {
            &&& call_requires(Gate::<S>::enter_sync, (gate,))
            &&& call_requires(Gate::<S>::enter_async, (gate,))
            &&& call_requires(Gate::<S>::register_sync, (gate, pager))
            &&& call_requires(Gate::<S>::register_async, (gate, pager))
        },
        was@.entry() is Some ==> {
            &&& call_requires(Gate::<S>::register_sync, (gate, pager))
            &&& call_requires(Gate::<S>::register_async, (gate, pager))
        },
        was@.wf(before.memory()) ==> {
            &&& call_requires(Pager::poll_sync::<S>, (pager, gate))
            &&& call_requires(Pager::poll_async::<S>, (pager, gate))
            &&& call_requires(Pager::try_poll::<S>, (pager, gate))
            &&& call_requires(Pager::cancel::<S>, (pager, gate))
        },
{
}

} // verus!
