//! Who is resumed when results are handed out in an [`Arena`].
use vstd::prelude::*;

use crate::arena::Arena;
use crate::arena::Policy;
use crate::entry::Signal;
use crate::memory::Delivery;
use crate::memory::Discipline;
use crate::sync_primitive::SyncPrimitive;

verus! {

/// New storage holds the given state word and no entries, and nobody has to be resumed.
#[verifier::spinoff_prover]
pub proof fn law_new(policy: Policy, data: usize, r: Arena)
    requires
        call_ensures(Arena::new, (policy, data), r),
    ensures
        r.memory().word == data,
        r.memory().nodes.dom() == Set::<usize>::empty(),
        r.memory().delivered.len() == 0,
        r.memory().roster.wakers.dom() == Set::<usize>::empty(),
        r.memory().roster.resumed == 0,
        r.pending() == 0,
        policy matches Policy::Limited(limit, poisonable) ==> r.memory().discipline
            == (Discipline::Limited { limit: limit as nat, poisonable }),
        policy is Gate ==> r.memory().discipline is Gate,
        policy matches Policy::Barrier(total) ==> r.memory().discipline == (Discipline::Barrier {
            total: total as nat,
        }),
{
}

/// A task that polls an entry gets the result, if there is one. Otherwise it is registered as the
/// one to resume. Polling in the wrong mode yields 255. Nothing else changes.
#[verifier::spinoff_prover]
pub proof fn law_poll(
    arena: &mut Arena,
    before: Arena,
    after: Arena,
    entry: usize,
    task: u64,
    synchronously: bool,
    r: Signal,
)
    requires
        *old(arena) == before,
        *final(arena) == after,
        synchronously ==> call_ensures(Arena::poll_result_sync, (arena, entry, task), r),
        !synchronously ==> call_ensures(Arena::poll_result_async, (arena, entry, task), r),
    ensures
        before.memory().nodes[entry].is_sync != synchronously ==> r == Signal::Ready(255)
            && after.memory() == before.memory(),
        before.memory().nodes[entry].is_sync == synchronously ==> {
            &&& before.memory().nodes[entry].result matches Some(result) ==> r == Signal::Ready(
                result,
            ) && after.memory() == before.memory()
            &&& before.memory().nodes[entry].result is None ==> {
                &&& r == Signal::Registered
                &&& after.memory().roster.wakers == before.memory().roster.wakers.insert(
                    entry,
                    task,
                )
                &&& after.memory().roster.resumed == before.memory().roster.resumed
                &&& after.memory().word == before.memory().word
                &&& after.memory().nodes == before.memory().nodes
                &&& after.memory().own == before.memory().own
                &&& after.memory().delivered == before.memory().delivered
            }
        },
{
}

/// A task that is registered in an entry is noted with the result that the entry is handed.
#[verifier::spinoff_prover]
pub proof fn law_set_result(
    arena: &mut Arena,
    before: Arena,
    after: Arena,
    entry: usize,
    result: u8,
)
    requires
        *old(arena) == before,
        *final(arena) == after,
        call_ensures(Arena::set_result, (arena, entry, result), ()),
    ensures
        after.memory().nodes.dom() == before.memory().nodes.dom().insert(entry),
        after.memory().nodes[entry].result == Some(result),
        forall|e: usize|
            #![trigger after.memory().nodes[e]]
            e != entry ==> after.memory().nodes[e] == before.memory().nodes[e],
        after.memory().word == before.memory().word,
        after.memory().delivered.len() == before.memory().delivered.len() + 1,
        after.memory().delivered.drop_last() == before.memory().delivered,
        after.memory().delivered.last().entry == entry,
        after.memory().delivered.last().result == result,
        after.memory().delivered.last().opcode == before.memory().nodes[entry].opcode,
        after.memory().delivered.last().waker == (if before.memory().roster.wakers.dom().contains(
            entry,
        ) {
            Some(before.memory().roster.wakers[entry])
        } else {
            None
        }),
{
    assert(after.memory().delivered.drop_last() =~= before.memory().delivered);
}

/// The tasks that have to be resumed are those that are noted with the results that were handed out
/// since they were asked for last, in that order, and each of them is named once.
#[verifier::spinoff_prover]
pub proof fn law_take_wakeups(arena: &mut Arena, before: Arena, after: Arena, r: Vec<u64>)
    requires
        *old(arena) == before,
        *final(arena) == after,
        before.memory().roster.resumed <= before.memory().delivered.len(),
        call_ensures(Arena::take_wakeups, (arena,), r),
    ensures
        r@ == before.memory().delivered.skip(before.memory().roster.resumed as int).filter(
            |delivery: Delivery| delivery.waker is Some,
        ).map_values(|delivery: Delivery| delivery.waker->0),
        after.memory().roster.resumed == after.memory().delivered.len(),
        after.memory().roster.wakers == before.memory().roster.wakers,
        after.memory().delivered == before.memory().delivered,
        after.memory().word == before.memory().word,
        after.memory().nodes == before.memory().nodes,
{
    lemma_summons(before.memory().delivered, before.memory().roster.resumed);
}

/// Nobody has to be resumed twice.
#[verifier::spinoff_prover]
pub proof fn law_wakeups_are_taken_once(
    arena: &mut Arena,
    other: &mut Arena,
    before: Arena,
    mid: Arena,
    after: Arena,
    r: Vec<u64>,
    later: Vec<u64>,
)
    requires
        *old(arena) == before,
        *final(arena) == mid,
        *old(other) == mid,
        *final(other) == after,
        call_ensures(Arena::take_wakeups, (arena,), r),
        call_ensures(Arena::take_wakeups, (other,), later),
    ensures
        later@.len() == 0,
{
}

/// The tasks to resume are found in the results.
#[verifier::spinoff_prover]
proof fn lemma_summons(delivered: Seq<Delivery>, resumed: nat)
    requires
        resumed <= delivered.len(),
    ensures
        crate::arena::summons(delivered, resumed) == delivered.skip(resumed as int).filter(
            |delivery: Delivery| delivery.waker is Some,
        ).map_values(|delivery: Delivery| delivery.waker->0),
    decreases delivered.len(),
{
    reveal(Seq::filter);
    let named = |delivery: Delivery| delivery.waker is Some;
    let task = |delivery: Delivery| delivery.waker->0;
    let rest = delivered.skip(resumed as int);
    if delivered.len() > resumed {
        lemma_summons(delivered.drop_last(), resumed);
        assert(rest.drop_last() =~= delivered.drop_last().skip(resumed as int));
        assert(rest.last() == delivered.last());
        assert(rest.filter(named).map_values(task) =~= if named(rest.last()) {
            rest.drop_last().filter(named).map_values(task).push(task(rest.last()))
        } else {
            rest.drop_last().filter(named).map_values(task)
        });
    } else {
        assert(rest =~= Seq::empty());
        assert(rest.filter(named).map_values(task) =~= Seq::empty());
    }
}

/// An entry has to be cleaned up before it is dropped if it was pushed or handed a result, unless
/// the task has acknowledged the result.
#[verifier::spinoff_prover]
pub proof fn law_prepare_drop(arena: Arena, entry: usize, r: bool)
    requires
        call_ensures(Arena::prepare_drop, (&arena, entry), r),
    ensures
        r <==> !arena.acked(entry) && (arena.marks().contains(entry)
            || arena.memory().nodes[entry].result is Some),
{
}

/// An entry can be created as long as there is room for it.
pub proof fn law_can_construct(arena: Arena, r: bool, limit: usize)
    requires
        call_ensures(Arena::can_construct, (&arena,), r),
        call_ensures(Arena::max_shared_owners, (&arena,), limit),
    ensures
        r <==> arena.room() > 0,
        arena.memory().discipline matches Discipline::Limited { limit: most, .. } ==> limit == most,
{
}

} // verus!
