//! What the operations of a [`Barrier`] do.
use std::sync::atomic::Ordering;

use vstd::prelude::*;

use crate::barrier::Barrier;
use crate::barrier::Status;
use crate::behavior::service;
use crate::memory::Memory;
use crate::opcode::Opcode;
use crate::pager::Pager;
use crate::sync_primitive::Acquisition;
use crate::sync_primitive::SyncPrimitive;
use crate::wait_queue::WaitQueue;

verus! {

/// A new [`Barrier`] blocks as many tasks as it is told to, up to 63 of them, and all of them are
/// missing.
#[verifier::spinoff_prover]
pub proof fn law_with_count(tasks: usize, r: Barrier, other: Barrier, mo: Ordering, count: usize)
    requires
        call_ensures(Barrier::with_count, (tasks,), r),
        call_ensures(Barrier::default, (), other),
        call_ensures(Barrier::count, (&r, mo), count),
    ensures
        r.wf(),
        r.pending() == 0,
        r.memory().word == (if tasks < 63 {
            tasks
        } else {
            63
        }),
        r.memory().discipline->total == r.memory().word,
        r.memory().queue().len() == 0,
        r.memory().delivered.len() == 0,
        r.primitive.room() > 0,
        count == r.memory().word,
        other.wf(),
        other.pending() == 0,
        other.memory().word == 63,
        other.memory().discipline->total == 63,
        other.memory().queue().len() == 0,
        other.primitive.room() > 0,
{
}

/// The number of missing tasks is what the state word says.
#[verifier::spinoff_prover]
#[verifier::rlimit(60)]
pub proof fn law_count<S: SyncPrimitive>(barrier: Barrier<S>, mo: Ordering, r: usize) -> (mid:
    Memory)
    requires
        barrier.wf(),
        call_ensures(Barrier::<S>::count, (&barrier, mo), r),
    ensures
        barrier.memory().rely(mid),
        barrier.pending() == 0 ==> mid == barrier.memory(),
        r == mid.word % 64,
{
    choose|mid: Memory| #[trigger]
        barrier.memory().rely(mid) && (barrier.pending() == 0 ==> mid == barrier.memory()) && r
            == mid.data()
}

/// A [`Barrier`] describes itself by the parts of its state word.
#[verifier::spinoff_prover]
#[verifier::rlimit(60)]
pub proof fn law_status<S: SyncPrimitive>(barrier: Barrier<S>, r: Status) -> (mid: Memory)
    requires
        barrier.wf(),
        call_ensures(Barrier::<S>::status, (&barrier,), r),
    ensures
        barrier.memory().rely(mid),
        barrier.pending() == 0 ==> mid == barrier.memory(),
        r.state == mid.word,
        r.missing == r.state % 64,
        r.wait_queue_being_processed <==> r.state % 128 >= 64,
        r.wait_queue_tail_addr == r.state - r.state % 128,
{
    WaitQueue::lemma_split(r.state);
    choose|mid: Memory| #[trigger]
        barrier.memory().rely(mid) && (barrier.pending() == 0 ==> mid == barrier.memory())
            && r.state == mid.word
}

/// A task that stands for `weight` tasks has arrived in `entry` at the moment `mid`.
///
/// If more tasks than that are missing then, it waits behind the others, and exactly `weight` tasks
/// fewer are missing. Otherwise it and everybody who waits is released, and all the tasks of the
/// [`Barrier`] are missing again.
pub open spec fn arrived(
    old: Memory,
    mid: Memory,
    new: Memory,
    entry: usize,
    weight: nat,
    alone: bool,
) -> bool {
    &&& mid.wf()
    &&& mid.discipline == old.discipline
    &&& alone ==> {
        &&& mid.word == old.word
        &&& mid.queue() == old.queue()
        &&& forall|e: usize|
            #![trigger mid.nodes[e]]
            old.nodes.dom().contains(e) && e != entry ==> mid.nodes[e] == old.nodes[e]
    }
    &&& !old.own.contains(entry)
    &&& !mid.queue().contains(entry)
    &&& if mid.word % 64 > weight {
        &&& new.nodes[entry].result is None
        &&& new.nodes[entry].opcode == Opcode::Semaphore(weight as u8)
        &&& new.word % 64 == mid.word % 64 - weight
        &&& new.queue() == mid.queue().push(entry)
        &&& new.delivered == old.delivered
        &&& forall|e: usize|
            #![trigger new.nodes[e]]
            mid.nodes.dom().contains(e) && e != entry ==> new.nodes[e] == mid.nodes[e]
    } else {
        &&& new.word == old.discipline->total
        &&& new.queue().len() == 0
        &&& new.delivered.len() == old.delivered.len() + mid.queue().len() + 1
        &&& service::resumes(old, new)
        &&& forall|e: usize| #[trigger]
            mid.queue().contains(e) ==> exists|k: int|
                old.delivered.len() <= k < new.delivered.len() && (
                #[trigger] new.delivered[k]).entry == e
        &&& forall|i: int|
            #![trigger new.delivered[i]]
            old.delivered.len() <= i < new.delivered.len() ==> new.delivered[i].result == 0
        &&& forall|e: usize| #[trigger]
            mid.queue().contains(e) ==> new.nodes[e].result == Some(0u8)
        &&& alone ==> forall|e: usize|
            #![trigger new.nodes[e]]
            mid.nodes.dom().contains(e) && e != entry && !mid.queue().contains(e)
                ==> new.nodes[e] == mid.nodes[e]
    }
}

/// What arriving at a [`Barrier`] amounts to.
#[verifier::spinoff_prover]
#[verifier::rlimit(60)]
proof fn lemma_arrived<S: SyncPrimitive>(
    old: Memory,
    new: Memory,
    entry: usize,
    weight: u8,
    alone: bool,
) -> (mid: Memory)
    requires
        old.wf(),
        old.discipline is Barrier,
        Barrier::<S>::joins(old, new, entry, weight, alone),
    ensures
        arrived(old, mid, new, entry, weight as nat, alone),
        new.own == old.own.insert(entry),
        mid.word % 64 > weight <==> new.nodes[entry].result is None,
        mid.word % 64 <= weight ==> new.nodes[entry].result == Some(0u8),
{
    let mid = choose|mid: Memory| #[trigger]
        old.prepares(mid, entry, Barrier::<S>::arrival(weight)) && mid.wf() && !WaitQueue::flagged(
            mid.word,
        ) && (alone ==> old.untouched(mid, entry) && Barrier::<S>::spares(mid, new, entry))
            && Barrier::<S>::arrives(old, mid, new, entry, weight);
    assert(mid.mine.contains(entry));
    if mid.data() <= weight {
        service::lemma_resumes(old, new);
        assert forall|e: usize| #[trigger] mid.queue().contains(e) implies exists|k: int|
            old.delivered.len() <= k < new.delivered.len() && (#[trigger] new.delivered[k]).entry
                == e by {
            assert(crate::memory::handed(new.delivered, old.delivered.len() as int, e));
        }
    }
    mid
}

/// A call of [`Barrier::wait_async`] stands for exactly one task: it waits if more than one task is
/// missing, and one task fewer is missing afterwards. Otherwise everybody is released.
#[verifier::spinoff_prover]
#[verifier::rlimit(60)]
pub proof fn law_wait_async<S: SyncPrimitive>(
    barrier: &mut Barrier<S>,
    before: Barrier<S>,
    after: Barrier<S>,
    r: Acquisition,
) -> (moment: (Memory, usize))
    requires
        *old(barrier) == before,
        *final(barrier) == after,
        before.wf(),
        call_ensures(Barrier::<S>::wait_async, (barrier,), r),
    ensures
        arrived(
            before.memory(),
            moment.0,
            after.memory(),
            moment.1,
            1,
            after.pending() == before.pending(),
        ),
        moment.0.word % 64 > 1 ==> r == Acquisition::Waiting(moment.1),
        moment.0.word % 64 <= 1 ==> r == Acquisition::Done(true),
        r is Waiting ==> after.memory().own == before.memory().own.insert(moment.1),
        r is Waiting ==> !after.memory().nodes[moment.1].is_sync,
        r is Done ==> after.memory().own == before.memory().own,
        r is Done ==> {
            &&& after.primitive.room() == before.primitive.room()
            &&& after.primitive.marks() == before.primitive.marks()
        },
        r is Waiting ==> {
            &&& after.primitive.room() == before.primitive.room() - 1
            &&& after.primitive.marks() == before.primitive.marks().insert(moment.1)
        },
        after.pending() == before.pending() ==> {
            &&& before.memory().word % 64 > 1 ==> {
                &&& r is Waiting
                &&& after.memory().word % 64 == before.memory().word % 64 - 1
                &&& after.memory().queue().len() == before.memory().queue().len() + 1
            }
            &&& before.memory().word % 64 <= 1 ==> {
                &&& r == Acquisition::Done(true)
                &&& after.memory().word % 64 == before.memory().discipline->total
                &&& after.memory().queue().len() == 0
            }
        },
{
    let old = before.memory();
    let new = after.memory();
    let alone = after.pending() == before.pending();
    match r {
        Acquisition::Waiting(entry) => (lemma_arrived::<S>(old, new, entry, 1, alone), entry),
        Acquisition::Done(_) => {
            let (joined, entry) = choose|joined: Memory, entry: usize| #[trigger]
                joined.without_entry(entry) == new && Barrier::<S>::joins(
                    old,
                    joined,
                    entry,
                    1,
                    alone,
                ) && joined.nodes[entry].result is Some;
            let mid = lemma_arrived::<S>(old, joined, entry, 1, alone);
            assert(new.own =~= old.own);
            assert(new.tail() == joined.tail());
            WaitQueue::lemma_compose(new.word, 0, false, new.word as nat);
            assert(new.queue().len() == 0);
            (mid, entry)
        },
    }
}

/// A call of [`Barrier::wait_async_with`] stands for exactly one task: it waits if more than one
/// task is missing, and one task fewer is missing afterwards. Otherwise everybody is released.
#[verifier::spinoff_prover]
#[verifier::rlimit(60)]
pub proof fn law_wait_async_with<S: SyncPrimitive, F: FnOnce()>(
    barrier: &mut Barrier<S>,
    begin_wait: F,
    before: Barrier<S>,
    after: Barrier<S>,
    r: Acquisition,
) -> (moment: (Memory, usize))
    requires
        *old(barrier) == before,
        *final(barrier) == after,
        before.wf(),
        call_ensures(Barrier::<S>::wait_async_with::<F>, (barrier, begin_wait), r),
    ensures
        arrived(
            before.memory(),
            moment.0,
            after.memory(),
            moment.1,
            1,
            after.pending() == before.pending(),
        ),
        moment.0.word % 64 > 1 ==> r == Acquisition::Waiting(moment.1),
        moment.0.word % 64 <= 1 ==> r == Acquisition::Done(true),
        r is Waiting ==> after.memory().own == before.memory().own.insert(moment.1),
        r is Waiting ==> !after.memory().nodes[moment.1].is_sync,
        r is Done ==> after.memory().own == before.memory().own,
        r is Done ==> {
            &&& after.primitive.room() == before.primitive.room()
            &&& after.primitive.marks() == before.primitive.marks()
        },
        r is Waiting ==> {
            &&& after.primitive.room() == before.primitive.room() - 1
            &&& after.primitive.marks() == before.primitive.marks().insert(moment.1)
        },
        after.pending() == before.pending() ==> {
            &&& before.memory().word % 64 > 1 ==> {
                &&& r is Waiting
                &&& after.memory().word % 64 == before.memory().word % 64 - 1
                &&& after.memory().queue().len() == before.memory().queue().len() + 1
            }
            &&& before.memory().word % 64 <= 1 ==> {
                &&& r == Acquisition::Done(true)
                &&& after.memory().word % 64 == before.memory().discipline->total
                &&& after.memory().queue().len() == 0
            }
        },
        r is Waiting ==> begin_wait.ensures((), ()),
{
    let old = before.memory();
    let new = after.memory();
    let alone = after.pending() == before.pending();
    match r {
        Acquisition::Waiting(entry) => (lemma_arrived::<S>(old, new, entry, 1, alone), entry),
        Acquisition::Done(_) => {
            let (joined, entry) = choose|joined: Memory, entry: usize| #[trigger]
                joined.without_entry(entry) == new && Barrier::<S>::joins(
                    old,
                    joined,
                    entry,
                    1,
                    alone,
                ) && joined.nodes[entry].result is Some;
            let mid = lemma_arrived::<S>(old, joined, entry, 1, alone);
            assert(new.own =~= old.own);
            assert(new.tail() == joined.tail());
            WaitQueue::lemma_compose(new.word, 0, false, new.word as nat);
            assert(new.queue().len() == 0);
            (mid, entry)
        },
    }
}

/// A call of [`Barrier::wait_sync`] stands for exactly one task: it waits if more than one task is
/// missing, and one task fewer is missing afterwards. Otherwise everybody is released.
#[verifier::spinoff_prover]
#[verifier::rlimit(60)]
pub proof fn law_wait_sync<S: SyncPrimitive>(
    barrier: &mut Barrier<S>,
    before: Barrier<S>,
    after: Barrier<S>,
    r: Acquisition,
) -> (moment: (Memory, usize))
    requires
        *old(barrier) == before,
        *final(barrier) == after,
        before.wf(),
        call_ensures(Barrier::<S>::wait_sync, (barrier,), r),
    ensures
        arrived(
            before.memory(),
            moment.0,
            after.memory(),
            moment.1,
            1,
            after.pending() == before.pending(),
        ),
        moment.0.word % 64 > 1 ==> r == Acquisition::Waiting(moment.1),
        moment.0.word % 64 <= 1 ==> r == Acquisition::Done(true),
        r is Waiting ==> after.memory().own == before.memory().own.insert(moment.1),
        r is Waiting ==> after.memory().nodes[moment.1].is_sync,
        r is Done ==> after.memory().own == before.memory().own,
        r is Done ==> {
            &&& after.primitive.room() == before.primitive.room()
            &&& after.primitive.marks() == before.primitive.marks()
        },
        r is Waiting ==> {
            &&& after.primitive.room() == before.primitive.room() - 1
            &&& after.primitive.marks() == before.primitive.marks().insert(moment.1)
        },
        after.pending() == before.pending() ==> {
            &&& before.memory().word % 64 > 1 ==> {
                &&& r is Waiting
                &&& after.memory().word % 64 == before.memory().word % 64 - 1
                &&& after.memory().queue().len() == before.memory().queue().len() + 1
            }
            &&& before.memory().word % 64 <= 1 ==> {
                &&& r == Acquisition::Done(true)
                &&& after.memory().word % 64 == before.memory().discipline->total
                &&& after.memory().queue().len() == 0
            }
        },
{
    let old = before.memory();
    let new = after.memory();
    let alone = after.pending() == before.pending();
    match r {
        Acquisition::Waiting(entry) => (lemma_arrived::<S>(old, new, entry, 1, alone), entry),
        Acquisition::Done(_) => {
            let (joined, entry) = choose|joined: Memory, entry: usize| #[trigger]
                joined.without_entry(entry) == new && Barrier::<S>::joins(
                    old,
                    joined,
                    entry,
                    1,
                    alone,
                ) && joined.nodes[entry].result is Some;
            let mid = lemma_arrived::<S>(old, joined, entry, 1, alone);
            assert(new.own =~= old.own);
            assert(new.tail() == joined.tail());
            WaitQueue::lemma_compose(new.word, 0, false, new.word as nat);
            assert(new.queue().len() == 0);
            (mid, entry)
        },
    }
}

/// A call of [`Barrier::wait_sync_with`] stands for exactly one task: it waits if more than one
/// task is missing, and one task fewer is missing afterwards. Otherwise everybody is released.
#[verifier::spinoff_prover]
#[verifier::rlimit(60)]
pub proof fn law_wait_sync_with<S: SyncPrimitive, F: FnOnce()>(
    barrier: &mut Barrier<S>,
    begin_wait: F,
    before: Barrier<S>,
    after: Barrier<S>,
    r: Acquisition,
) -> (moment: (Memory, usize))
    requires
        *old(barrier) == before,
        *final(barrier) == after,
        before.wf(),
        call_ensures(Barrier::<S>::wait_sync_with::<F>, (barrier, begin_wait), r),
    ensures
        arrived(
            before.memory(),
            moment.0,
            after.memory(),
            moment.1,
            1,
            after.pending() == before.pending(),
        ),
        moment.0.word % 64 > 1 ==> r == Acquisition::Waiting(moment.1),
        moment.0.word % 64 <= 1 ==> r == Acquisition::Done(true),
        r is Waiting ==> after.memory().own == before.memory().own.insert(moment.1),
        r is Waiting ==> after.memory().nodes[moment.1].is_sync,
        r is Done ==> after.memory().own == before.memory().own,
        r is Done ==> {
            &&& after.primitive.room() == before.primitive.room()
            &&& after.primitive.marks() == before.primitive.marks()
        },
        r is Waiting ==> {
            &&& after.primitive.room() == before.primitive.room() - 1
            &&& after.primitive.marks() == before.primitive.marks().insert(moment.1)
        },
        after.pending() == before.pending() ==> {
            &&& before.memory().word % 64 > 1 ==> {
                &&& r is Waiting
                &&& after.memory().word % 64 == before.memory().word % 64 - 1
                &&& after.memory().queue().len() == before.memory().queue().len() + 1
            }
            &&& before.memory().word % 64 <= 1 ==> {
                &&& r == Acquisition::Done(true)
                &&& after.memory().word % 64 == before.memory().discipline->total
                &&& after.memory().queue().len() == 0
            }
        },
        r is Waiting ==> begin_wait.ensures((), ()),
{
    let old = before.memory();
    let new = after.memory();
    let alone = after.pending() == before.pending();
    match r {
        Acquisition::Waiting(entry) => (lemma_arrived::<S>(old, new, entry, 1, alone), entry),
        Acquisition::Done(_) => {
            let (joined, entry) = choose|joined: Memory, entry: usize| #[trigger]
                joined.without_entry(entry) == new && Barrier::<S>::joins(
                    old,
                    joined,
                    entry,
                    1,
                    alone,
                ) && joined.nodes[entry].result is Some;
            let mid = lemma_arrived::<S>(old, joined, entry, 1, alone);
            assert(new.own =~= old.own);
            assert(new.tail() == joined.tail());
            WaitQueue::lemma_compose(new.word, 0, false, new.word as nat);
            assert(new.queue().len() == 0);
            (mid, entry)
        },
    }
}

/// A [`Pager`] that is registered in a [`Barrier`] stands for the given number of tasks.
///
/// It can be registered once, and cannot stand for more than 63 tasks.
#[verifier::spinoff_prover]
#[verifier::rlimit(60)]
pub proof fn law_register_pager<S: SyncPrimitive>(
    barrier: &mut Barrier<S>,
    pager: &mut Pager,
    before: Barrier<S>,
    after: Barrier<S>,
    was: Pager,
    now: Pager,
    tasks: usize,
    is_sync: bool,
    r: bool,
) -> (mid: Memory)
    requires
        *old(barrier) == before,
        *final(barrier) == after,
        *old(pager) == was,
        *final(pager) == now,
        before.wf(),
        call_ensures(Barrier::<S>::register_pager, (barrier, pager, tasks, is_sync), r),
    ensures
        r <==> tasks <= 63 && was.entry() is None,
        !r ==> now == was && after == before,
        r ==> {
            &&& now.entry() is Some
            &&& now.synchronous() == is_sync
            &&& !now.acked()
            &&& after.primitive.room() == before.primitive.room() - 1
            &&& after.primitive.marks() == (if after.memory().nodes[now.entry()->0].result is None {
                before.primitive.marks().insert(now.entry()->0)
            } else {
                before.primitive.marks()
            })
            &&& after.memory().nodes[now.entry()->0].is_sync == is_sync
            &&& after.memory().own == before.memory().own.insert(now.entry()->0)
            &&& arrived(
                before.memory(),
                mid,
                after.memory(),
                now.entry()->0,
                tasks as nat,
                after.pending() == before.pending(),
            )
            &&& mid.word % 64 > tasks <==> after.memory().nodes[now.entry()->0].result is None
            &&& mid.word % 64 <= tasks ==> after.memory().nodes[now.entry()->0].result == Some(0u8)
        },
{
    if r {
        lemma_arrived::<S>(
            before.memory(),
            after.memory(),
            now.entry()->0,
            tasks as u8,
            after.pending() == before.pending(),
        )
    } else {
        before.memory()
    }
}

/// A task that gives up waiting at a [`Barrier`] is missing again, with all the tasks that it
/// stands for, and the others wait as they did before. A task that was released merely disappears.
#[verifier::spinoff_prover]
#[verifier::rlimit(60)]
pub proof fn law_cancel<S: SyncPrimitive>(
    pager: &mut Pager,
    barrier: &mut Barrier<S>,
    was: Pager,
    now: Pager,
    before: Barrier<S>,
    after: Barrier<S>,
    weight: u8,
)
    requires
        *old(pager) == was,
        *final(pager) == now,
        *old(barrier) == before,
        *final(barrier) == after,
        before.wf(),
        was.wf(before.memory()),
        was.entry() matches Some(entry) ==> before.memory().nodes[entry].opcode
            == Opcode::Semaphore(weight),
        call_ensures(Pager::cancel::<Barrier<S>>, (pager, barrier), ()),
    ensures
        now.entry() is None,
        was.entry() matches Some(entry) ==> {
            &&& after.primitive.room() == before.primitive.room() + 1
            &&& after.primitive.marks() == before.primitive.marks().remove(entry)
        },
        was.entry() is None ==> after.memory() == before.memory(),
        was.entry() matches Some(entry) ==> {
            let old = before.memory();
            let new = after.memory();
            &&& new.own == old.own.remove(entry)
            &&& !new.queue().contains(entry)
            &&& was.acked() || before.pending() == 0 && old.nodes[entry].result is Some ==> {
                &&& new.word == old.word
                &&& new.queue() == old.queue()
            }
            &&& before.pending() == 0 && old.nodes[entry].result is None ==> {
                &&& old.queue().contains(entry)
                &&& new.word % 64 == old.word % 64 + weight
                &&& new.queue() == old.queue().remove(old.queue().index_of(entry))
            }
            &&& before.pending() == 0 ==> forall|e: usize|
                #![trigger new.nodes[e]]
                old.nodes.dom().contains(e) && e != entry ==> {
                    &&& new.nodes.dom().contains(e)
                    &&& new.nodes[e].result == old.nodes[e].result
                    &&& new.nodes[e].opcode == old.nodes[e].opcode
                }
        },
{
    if let Some(entry) = was.entry() {
        let old = before.memory();
        let new = after.memory();
        let alone = before.pending() == 0;
        assert(old.nodes.dom().contains(entry));
        if was.acked() {
            assert(!old.queue().contains(entry));
            old.lemma_no_entry(entry);
        } else {
            let done = choose|done: Memory| #[trigger]
                done.without_entry(entry) == new && done.wf() && !done.queue().contains(entry) && {
                    ||| {
                        &&& done.mine == old.mine.insert(entry)
                        &&& done.own == old.own
                        &&& alone ==> Barrier::<S>::leaves(old, done, entry)
                    }
                    ||| {
                        &&& done.nodes[entry].result is Some
                        &&& old.continues(done)
                        &&& alone ==> old.same_state(done)
                    }
                };
            assert(done.own.contains(entry));
            assert(done.mine.contains(entry) || done.nodes[entry].result is Some);
            done.lemma_no_entry(entry);
        }
    }
}

/// A task can arrive at a [`Barrier`] as long as an entry can be created, and the callback is left
/// alone if it does not have to wait.
#[verifier::spinoff_prover]
pub proof fn law_callable<S: SyncPrimitive, F: FnOnce()>(
    barrier: &mut Barrier<S>,
    pager: &mut Pager,
    before: Barrier<S>,
    was: Pager,
    tasks: usize,
    is_sync: bool,
    begin_wait: F,
    mo: Ordering,
)
    requires
        *old(barrier) == before,
        *old(pager) == was,
        before.wf(),
    ensures
        call_requires(Barrier::<S>::count, (&before, mo)),
        call_requires(Barrier::<S>::status, (&before,)),
        before.primitive.room() > 0 ==> {
            &&& call_requires(Barrier::<S>::wait_sync, (barrier,))
            &&& call_requires(Barrier::<S>::wait_async, (barrier,))
            &&& call_requires(Barrier::<S>::register_pager, (barrier, pager, tasks, is_sync))
            &&& begin_wait.requires(()) || before.pending() == 0 && before.memory().word % 64 <= 1
                ==> {
                &&& call_requires(Barrier::<S>::wait_sync_with::<F>, (barrier, begin_wait))
                &&& call_requires(Barrier::<S>::wait_async_with::<F>, (barrier, begin_wait))
            }
        },
        tasks > 63 || was.entry() is Some ==> call_requires(
            Barrier::<S>::register_pager,
            (barrier, pager, tasks, is_sync),
        ),
        was.wf(before.memory()) ==> {
            &&& call_requires(Pager::poll_sync::<Barrier<S>>, (pager, barrier))
            &&& call_requires(Pager::poll_async::<Barrier<S>>, (pager, barrier))
            &&& call_requires(Pager::try_poll::<Barrier<S>>, (pager, barrier))
            &&& call_requires(Pager::cancel::<Barrier<S>>, (pager, barrier))
        },
{
}

/// Each task that arrives makes one task fewer missing, and the last one makes all of them missing
/// again, unless other tasks intervene.
#[verifier::spinoff_prover]
#[verifier::rlimit(60)]
pub proof fn law_arrivals_are_counted<S: SyncPrimitive>(
    barrier: &mut Barrier<S>,
    before: Barrier<S>,
    after: Barrier<S>,
    mo: Ordering,
    synchronously: bool,
    r: Acquisition,
    was: usize,
    now: usize,
)
    requires
        *old(barrier) == before,
        *final(barrier) == after,
        before.wf(),
        before.pending() == 0,
        after.pending() == 0,
        call_ensures(Barrier::<S>::count, (&before, mo), was),
        synchronously ==> call_ensures(Barrier::<S>::wait_sync, (barrier,), r),
        !synchronously ==> call_ensures(Barrier::<S>::wait_async, (barrier,), r),
        call_ensures(Barrier::<S>::count, (&after, mo), now),
    ensures
        was > 1 ==> r is Waiting && now == was - 1,
        was <= 1 ==> r == Acquisition::Done(true) && now == before.memory().discipline->total,
{
    law_count(before, mo, was);
    if synchronously {
        law_wait_sync(barrier, before, after, r);
    } else {
        law_wait_async(barrier, before, after, r);
    }
    law_count(after, mo, now);
}

/// A [`Barrier`] blocks up to 63 tasks.
pub proof fn law_max_tasks()
    ensures
        Barrier::MAX_TASKS == 63,
{
}

} // verus!
