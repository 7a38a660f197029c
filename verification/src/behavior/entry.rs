//! What the operations of a wait queue entry do.
use vstd::prelude::*;

use crate::entry::Cell;
use crate::entry::Entry;
use crate::entry::EntryCell;
use crate::entry::Monitor;
use crate::entry::Signal;
use crate::opcode::Opcode;

verus! {

/// A new entry is linked to nothing, stands for the given operation, and has no result.
#[verifier::spinoff_prover]
pub proof fn law_new(
    opcode: Opcode,
    is_sync: bool,
    entry: Entry,
    next: usize,
    prev: usize,
    code: Opcode,
    mode: bool,
    unclean: bool,
)
    requires
        call_ensures(Entry::new, (opcode, is_sync), entry),
        call_ensures(Entry::next_entry, (&entry,), next),
        call_ensures(Entry::prev_entry, (&entry,), prev),
        call_ensures(Entry::opcode, (&entry,), code),
        call_ensures(Entry::is_sync, (&entry,), mode),
        call_ensures(Entry::prepare_drop, (&entry,), unclean),
    ensures
        next == 0,
        prev == 0,
        code == opcode,
        mode == is_sync,
        !unclean,
        entry.node().result is None,
        !entry.acked(),
        entry.waiter() is None,
        !entry.context().enqueued,
{
}

/// The links of an entry are the ones that were set last; nothing else depends on them.
#[verifier::spinoff_prover]
pub proof fn law_links(
    entry: &mut Entry,
    before: Entry,
    after: Entry,
    link: usize,
    towards_newer: bool,
    next: usize,
    prev: usize,
)
    requires
        *old(entry) == before,
        *final(entry) == after,
        towards_newer ==> call_ensures(Entry::update_prev_entry, (entry, link), ()),
        !towards_newer ==> call_ensures(Entry::update_next_entry, (entry, link), ()),
        call_ensures(Entry::next_entry, (&after,), next),
        call_ensures(Entry::prev_entry, (&after,), prev),
    ensures
        next == (if towards_newer {
            before.node().next
        } else {
            link
        }),
        prev == (if towards_newer {
            link
        } else {
            before.node().prev
        }),
        after.node().opcode == before.node().opcode,
        after.node().is_sync == before.node().is_sync,
        after.node().result == before.node().result,
        after.acked() == before.acked(),
        after.waiter() == before.waiter(),
        after.context() == before.context(),
{
}

/// The task that waits in an entry gets the result that was set, and whoever sets it learns which
/// task has to be resumed.
#[verifier::spinoff_prover]
pub proof fn law_result_reaches_the_task(
    entry: &mut Entry,
    other: &mut Entry,
    before: Entry,
    handed: Entry,
    after: Entry,
    result: u8,
    woken: Option<u64>,
    r: Option<u8>,
)
    requires
        *old(entry) == before,
        *final(entry) == handed,
        *old(other) == handed,
        *final(other) == after,
        before.node().result is None,
        call_ensures(Entry::set_result, (entry, result), woken),
        call_ensures(Entry::try_acknowledge_result, (other,), r),
    ensures
        r == Some(result),
        woken == before.waiter(),
        handed.node().result == Some(result),
        handed.node().opcode == before.node().opcode,
        handed.node().is_sync == before.node().is_sync,
        handed.node().next == before.node().next,
        handed.node().prev == before.node().prev,
        handed.acked() == before.acked(),
        after.node() == handed.node(),
        after.acked(),
{
}

/// There is nothing to acknowledge before a result was set.
#[verifier::spinoff_prover]
pub proof fn law_nothing_to_acknowledge(
    entry: &mut Entry,
    before: Entry,
    after: Entry,
    r: Option<u8>,
)
    requires
        *old(entry) == before,
        *final(entry) == after,
        call_ensures(Entry::try_acknowledge_result, (entry,), r),
    ensures
        r == before.node().result,
        after.acked() <==> r is Some,
        after.node() == before.node(),
        after.waiter() == before.waiter(),
        after.context() == before.context(),
{
}

/// A task that polls an entry gets the result, if there is one, and acknowledges it. Otherwise it
/// is the one to resume once the result is set. Polling in the wrong mode yields 255 and has no
/// effect.
#[verifier::spinoff_prover]
pub proof fn law_poll(
    entry: &mut Entry,
    before: Entry,
    after: Entry,
    task: u64,
    synchronously: bool,
    r: Signal,
)
    requires
        *old(entry) == before,
        *final(entry) == after,
        synchronously ==> call_ensures(Entry::poll_result_sync, (entry, task), r),
        !synchronously ==> call_ensures(Entry::poll_result_async, (entry, task), r),
    ensures
        before.node().is_sync != synchronously ==> r == Signal::Ready(255) && after == before,
        before.node().is_sync == synchronously ==> {
            &&& after.node() == before.node()
            &&& after.context() == before.context()
            &&& before.node().result matches Some(result) ==> {
                &&& r == Signal::Ready(result)
                &&& after.acked()
                &&& after.waiter() == before.waiter()
            }
            &&& before.node().result is None ==> {
                &&& r == Signal::Registered
                &&& after.acked() == before.acked()
                &&& after.waiter() == Some(task)
            }
        },
{
}

/// A task that has polled an entry in vain is the one that has to be resumed when the result is
/// set.
#[verifier::spinoff_prover]
pub proof fn law_polling_task_is_resumed(
    entry: &mut Entry,
    other: &mut Entry,
    before: Entry,
    polled: Entry,
    after: Entry,
    task: u64,
    synchronously: bool,
    signal: Signal,
    result: u8,
    woken: Option<u64>,
)
    requires
        *old(entry) == before,
        *final(entry) == polled,
        *old(other) == polled,
        *final(other) == after,
        before.node().result is None,
        before.node().is_sync == synchronously,
        synchronously ==> call_ensures(Entry::poll_result_sync, (entry, task), signal),
        !synchronously ==> call_ensures(Entry::poll_result_async, (entry, task), signal),
        call_ensures(Entry::set_result, (other, result), woken),
    ensures
        signal == Signal::Registered,
        woken == Some(task),
        after.node().result == Some(result),
{
}

/// An entry has to be cleaned up before it is dropped if it was pushed or handed a result, unless
/// the task has acknowledged the result.
#[verifier::spinoff_prover]
pub proof fn law_prepare_drop(
    entry: &mut Entry,
    before: Entry,
    pushed: Entry,
    r: bool,
    later: bool,
)
    requires
        *old(entry) == before,
        *final(entry) == pushed,
        call_ensures(Entry::prepare_drop, (&before,), r),
        call_ensures(Entry::enqueued, (entry,), ()),
        call_ensures(Entry::prepare_drop, (&pushed,), later),
    ensures
        before.acked() ==> !r && !later,
        !before.acked() ==> (r <==> before.context().enqueued || before.node().result is Some),
        !before.acked() ==> later,
        pushed.node() == before.node(),
        pushed.acked() == before.acked(),
        pushed.waiter() == before.waiter(),
        pushed.context().is_sync == before.context().is_sync,
        pushed.context().enqueued,
{
}

/// The result that a task hands out is the one that the entry holds from then on, and the task that
/// was registered at that moment is notified exactly once; nobody else is.
#[verifier::spinoff_prover]
pub proof fn law_set_result<C: EntryCell>(
    entry: &mut C,
    before: C,
    after: C,
    result: u8,
    r: bool,
) -> (mid: Cell<C::Waker>)
    requires
        *old(entry) == before,
        *final(entry) == after,
        before.cell().ok(before.pending()),
        before.cell().role.sender,
        before.cell().bits / 256 % 2 == 0,
        call_ensures(C::set_result, (entry, result), r),
    ensures
        before.cell().rely(mid),
        after.cell().bits % 256 == result,
        after.cell().bits / 256 % 2 == 1,
        after.cell().bits / 1024 % 2 == 1,
        r <==> mid.bits / 512 % 2 == 1,
        r ==> {
            &&& after.notified().len() == before.notified().len() + 1
            &&& after.notified().drop_last() == before.notified()
            &&& mid.waker == Some(after.notified().last())
            &&& after.cell().waker is None
        },
        !r ==> after.notified() == before.notified(),
        after.pending() == before.pending() ==> {
            &&& r <==> before.cell().bits / 512 % 2 == 1
            &&& after.cell().bits == before.cell().bits + 256 + result + 1024
            &&& r ==> Some(after.notified().last()) == before.cell().waker
        },
{
    choose|mid: Cell<C::Waker>| #[trigger]
        before.cell().rely(mid) && r == mid.waker_set() && (r ==> mid.waker == Some(
            after.notified().last(),
        ))
}

/// Only a finalized result can be acknowledged, and it is the one that the entry holds.
#[verifier::spinoff_prover]
pub proof fn law_acknowledge_result<C: EntryCell>(
    entry: &mut C,
    before: C,
    after: C,
    r: Option<u8>,
)
    requires
        *old(entry) == before,
        *final(entry) == after,
        before.cell().ok(before.pending()),
        !before.cell().role.sender,
        call_ensures(C::try_acknowledge_result, (entry,), r),
    ensures
        r matches Some(result) ==> {
            &&& after.cell().bits % 256 == result
            &&& after.cell().bits / 1024 % 2 == 1
            &&& after.cell().bits / 2048 % 2 == 1
        },
        r is None ==> after.cell().bits / 1024 % 2 == 0,
        before.cell().bits / 1024 % 2 == 1 ==> r == Some((before.cell().bits % 256) as u8),
        after.pending() == before.pending() ==> (r is Some <==> before.cell().bits / 1024 % 2 == 1),
        after.notified() == before.notified(),
{
}

/// A task that waits for a result that was set gets exactly that one.
#[verifier::spinoff_prover]
pub proof fn law_acknowledge_result_sync<C: EntryCell>(
    entry: &mut C,
    before: C,
    after: C,
    r: u8,
)
    requires
        *old(entry) == before,
        *final(entry) == after,
        before.cell().ok(before.pending()),
        !before.cell().role.sender,
        before.cell().bits / 256 % 2 == 1,
        call_ensures(C::acknowledge_result_sync, (entry,), r),
    ensures
        r == before.cell().bits % 256,
        after.cell().bits % 256 == r,
        after.cell().bits / 2048 % 2 == 1,
        after.notified() == before.notified(),
{
}

/// A task that polls an entry gets the result once it is finalized. As long as no result is set,
/// its waker is installed unless the other task intervenes. Polling in the wrong mode yields 255
/// and has no effect.
#[verifier::spinoff_prover]
pub proof fn law_poll_result<C: EntryCell>(
    entry: &mut C,
    before: C,
    after: C,
    waker: C::Waker,
    synchronously: bool,
    r: Signal,
)
    requires
        *old(entry) == before,
        *final(entry) == after,
        before.cell().ok(before.pending()),
        !before.cell().role.sender,
        synchronously ==> call_ensures(C::poll_result_sync, (entry, waker), r),
        !synchronously ==> call_ensures(C::poll_result_async, (entry, waker), r),
    ensures
        before.context().is_sync != synchronously ==> r == Signal::Ready(255) && after == before,
        before.context().is_sync == synchronously ==> {
            &&& r matches Signal::Ready(result) ==> after.cell().bits % 256 == result
                && after.cell().bits / 2048 % 2 == 1
            &&& r is Registered ==> {
                &&& after.cell().bits / 256 % 2 == 0
                &&& after.cell().bits / 512 % 2 == 1
                &&& after.cell().waker == Some(waker)
            }
            &&& before.cell().bits / 1024 % 2 == 1 ==> r == Signal::Ready(
                (before.cell().bits % 256) as u8,
            )
            &&& before.cell().bits / 256 % 2 == 1 ==> !(r is Registered)
            &&& before.pending() == 0 && before.cell().bits / 256 % 2 == 0 ==> r
                == Signal::Registered
            &&& before.pending() == 0 ==> !(r is Retry)
        },
        after.notified() == before.notified(),
{
}

/// A result is finalized once the task that has handed it out is done with the entry.
#[verifier::spinoff_prover]
pub proof fn law_result_finalized<C: EntryCell>(entry: &mut C, before: C, after: C, r: bool)
    requires
        *old(entry) == before,
        *final(entry) == after,
        before.cell().ok(before.pending()),
        call_ensures(C::result_finalized, (entry,), r),
    ensures
        r <==> after.cell().bits / 1024 % 2 == 1,
        after.pending() == before.pending() ==> after.cell() == before.cell(),
{
}

/// Nothing has to be cleaned up once a result was acknowledged, nor before one was set if the entry
/// was not pushed.
#[verifier::spinoff_prover]
pub proof fn law_cell_prepare_drop<C: EntryCell>(entry: &mut C, before: C, after: C, r: bool)
    requires
        *old(entry) == before,
        *final(entry) == after,
        before.cell().ok(before.pending()),
        !before.cell().role.sender,
        call_ensures(C::prepare_drop, (entry,), r),
    ensures
        r ==> after.cell().bits / 2048 % 2 == 0,
        !r && after.cell().bits / 2048 % 2 == 0 ==> after.cell().bits / 256 % 2 == 0,
        before.pending() == 0 ==> (r <==> before.cell().bits / 2048 % 2 == 0 && (
        before.context().enqueued || before.cell().bits / 256 % 2 == 1)),
{
}

/// A new monitor holds neither a result nor a waker.
#[verifier::spinoff_prover]
pub proof fn law_new_monitor(is_sync: bool, r: Monitor)
    requires
        call_ensures(Monitor::new, (is_sync,), r),
    ensures
        r.cell().bits / 256 % 2 == 0,
        r.cell().bits / 512 % 2 == 0,
        r.cell().waker is None,
        r.context().is_sync == is_sync,
        !r.context().enqueued,
        r.notified().len() == 0,
{
}

/// A monitor that is handed a result holds it from then on, and the task whose waker was installed
/// is the one that is notified; nobody else is.
#[verifier::spinoff_prover]
pub proof fn law_deliver(
    monitor: &mut Monitor,
    before: Monitor,
    after: Monitor,
    result: u8,
    r: Option<u64>,
)
    requires
        *old(monitor) == before,
        *final(monitor) == after,
        before.cell().bits / 256 % 2 == 0,
        call_ensures(Monitor::deliver, (monitor, result), r),
    ensures
        after.cell().bits % 256 == result,
        after.cell().bits / 1024 % 2 == 1,
        r == (if before.cell().bits / 512 % 2 == 1 {
            before.cell().waker
        } else {
            None
        }),
        r is None ==> after.notified() == before.notified(),
        r matches Some(task) ==> after.notified() == before.notified().push(task),
        after.context() == before.context(),
{
}

} // verus!
