//! Who is served when resources become available.
use vstd::prelude::*;

use crate::memory::Discipline;
use crate::memory::Memory;
use crate::memory::Node;
use crate::opcode::Opcode;
use crate::pager::Pager;
use crate::sync_primitive::SyncPrimitive;
use crate::wait_queue::WaitQueue;

verus! {

/// The resources that a task uses once it has been served.
pub open spec fn weight(opcode: Opcode) -> nat {
    match opcode {
        Opcode::Exclusive => 63,
        Opcode::Shared => 1,
        Opcode::Semaphore(permits) => permits as nat,
        Opcode::Wait(_) => 0,
    }
}

/// The resources that the first `number` tasks of a queue use once they have been served.
pub open spec fn taken(nodes: Map<usize, Node>, queue: Seq<usize>, number: int) -> nat
    decreases number,
{
    if number <= 0 {
        0
    } else {
        taken(nodes, queue, number - 1) + weight(nodes[queue[number - 1]].opcode)
    }
}

/// A task can be served while `in_use` resources of a lock are in use.
///
/// An exclusive owner tolerates nobody else, and there are up to 62 shared owners.
pub open spec fn lock_allows(in_use: nat, opcode: Opcode) -> bool {
    match opcode {
        Opcode::Exclusive => in_use == 0,
        Opcode::Shared => in_use < 62,
        Opcode::Wait(number) => if number == 1 {
            in_use < 62
        } else if number == 63 {
            in_use == 0
        } else {
            in_use == 0 && number <= 63 || in_use + number <= 62
        },
        Opcode::Semaphore(number) => in_use == 0 && number <= 63 || in_use + number <= 62,
    }
}

/// A task can be served while `in_use` permits of a semaphore are in use: there are 63 of them.
pub open spec fn semaphore_allows(in_use: nat, opcode: Opcode) -> bool {
    match opcode {
        Opcode::Semaphore(permits) => in_use + permits <= 63,
        Opcode::Wait(permits) => in_use + permits <= 63,
        Opcode::Shared => in_use < 63,
        Opcode::Exclusive => in_use == 0,
    }
}

/// A task can be served while `in_use` resources are in use.
pub open spec fn allows(lock: bool, in_use: nat, opcode: Opcode) -> bool {
    if lock {
        lock_allows(in_use, opcode)
    } else {
        semaphore_allows(in_use, opcode)
    }
}

/// How a lock or a semaphore serves the tasks that wait.
pub open spec fn limited(lock: bool) -> Discipline {
    if lock {
        Discipline::Limited { limit: 62, poisonable: true }
    } else {
        Discipline::Limited { limit: 63, poisonable: false }
    }
}

/// `data` resources were in use before waiting tasks were served: exactly the `number` oldest tasks
/// of `queue`, each of which could be served in its turn, have been handed the result zero, and the
/// next one could not be served.
pub open spec fn served(
    old: Memory,
    new: Memory,
    queue: Seq<usize>,
    data: nat,
    number: int,
    lock: bool,
) -> bool {
    &&& 0 <= number <= queue.len()
    &&& new.queue() == queue.skip(number)
    &&& new.word % 64 == data + taken(old.nodes, queue, number)
    &&& new.word % 128 < 64
    &&& forall|i: int|
        #![trigger queue[i]]
        0 <= i < number ==> {
            &&& allows(lock, data + taken(old.nodes, queue, i), old.nodes[queue[i]].opcode)
            &&& new.nodes[queue[i]].result == Some(0u8)
        }
    &&& number < queue.len() ==> !allows(
        lock,
        data + taken(old.nodes, queue, number),
        old.nodes[queue[number]].opcode,
    )
}

/// The tasks that were not served are not affected, but for the task of `entry`.
pub open spec fn spared(
    old: Memory,
    new: Memory,
    queue: Seq<usize>,
    number: int,
    entry: Option<usize>,
) -> bool {
    forall|e: usize|
        #![trigger new.nodes[e]]
        old.nodes.dom().contains(e) && entry != Some(e) && !queue.take(number).contains(e) ==> {
            &&& new.nodes.dom().contains(e)
            &&& new.nodes[e].opcode == old.nodes[e].opcode
            &&& new.nodes[e].is_sync == old.nodes[e].is_sync
            &&& new.nodes[e].result == old.nodes[e].result
        }
}

/// What the operation acquires is in use, and could be released.
pub open spec fn usable(memory: Memory, opcode: Opcode) -> bool {
    match opcode {
        Opcode::Exclusive => memory.word % 64 == 63,
        Opcode::Shared => 1 <= memory.word % 64 <= 62,
        Opcode::Semaphore(permits) => memory.word % 64 >= permits,
        Opcode::Wait(_) => true,
    }
}

/// Each result that was handed out in the meantime names the task that had been registered in the
/// entry, which is therefore resumed.
pub open spec fn resumes(old: Memory, new: Memory) -> bool {
    forall|i: int|
        #![trigger new.delivered[i]]
        old.delivered.len() <= i < new.delivered.len() ==> new.delivered[i].waker == (
        if old.roster.wakers.dom().contains(new.delivered[i].entry) {
            Some(old.roster.wakers[new.delivered[i].entry])
        } else {
            None
        })
}

/// The tasks that had been registered are resumed.
#[verifier::spinoff_prover]
#[verifier::rlimit(60)]
pub proof fn lemma_resumes(old: Memory, new: Memory)
    requires
        old.calls(new),
    ensures
        resumes(old, new),
{
    reveal(Memory::calls);
}

/// What the resources of an operation amount to.
pub proof fn law_weight(opcode: Opcode, held: usize, desired: usize)
    requires
        call_ensures(Opcode::release_count, (opcode,), held),
        call_ensures(Opcode::desired_count, (opcode,), desired),
    ensures
        held == weight(opcode),
        desired == (match opcode {
            Opcode::Wait(number) => number as nat,
            _ => weight(opcode),
        }),
{
}

/// What is in use can be released by those who use it: an exclusive lock by its owner alone, and a
/// shared lock only if there is no exclusive one.
pub proof fn law_can_release(opcode: Opcode, word: usize, r: bool)
    requires
        call_ensures(Opcode::can_release, (opcode, word), r),
    ensures
        opcode is Exclusive ==> (r <==> word % 64 == 63),
        opcode is Shared ==> (r <==> 1 <= word % 64 <= 62),
        opcode matches Opcode::Semaphore(permits) ==> (r <==> word % 64 >= permits),
        opcode is Wait ==> r,
{
}

/// The resources that tasks wait for.
#[verifier::spinoff_prover]
#[verifier::rlimit(60)]
pub proof fn lemma_taken(nodes: Map<usize, Node>, queue: Seq<usize>, number: int)
    ensures
        taken(nodes, queue, number) == crate::memory::demand(nodes, queue, number),
    decreases number,
{
    if number > 0 {
        lemma_taken(nodes, queue, number - 1);
    }
}

/// Entries that stand for the same operations take the same.
#[verifier::spinoff_prover]
#[verifier::rlimit(60)]
pub proof fn lemma_taken_frame(
    a: Map<usize, Node>,
    b: Map<usize, Node>,
    queue: Seq<usize>,
    number: int,
)
    requires
        number <= queue.len(),
        forall|i: int|
            #![trigger queue[i]]
            0 <= i < queue.len() ==> b[queue[i]].opcode == a[queue[i]].opcode,
    ensures
        taken(a, queue, number) == taken(b, queue, number),
    decreases number,
{
    if number > 0 {
        lemma_taken_frame(a, b, queue, number - 1);
        assert(b[queue[number - 1]].opcode == a[queue[number - 1]].opcode);
    }
}

/// When a task can be served.
pub proof fn lemma_allows(lock: bool, in_use: nat, opcode: Opcode)
    ensures
        crate::memory::admits(limited(lock)->limit, in_use, opcode) == allows(lock, in_use, opcode),
{
}

/// What handing resources to waiting tasks amounts to.
#[verifier::spinoff_prover]
#[verifier::rlimit(60)]
pub proof fn lemma_served(old: Memory, locked: Memory, new: Memory, number: int, lock: bool)
    requires
        locked.discipline == limited(lock),
        locked.hands_off(new, number),
        forall|i: int|
            #![trigger locked.queue()[i]]
            0 <= i < locked.queue().len() ==> {
                &&& locked.nodes.dom().contains(locked.queue()[i])
                &&& old.nodes[locked.queue()[i]].opcode == locked.nodes[locked.queue()[i]].opcode
            },
    ensures
        served(old, new, locked.queue(), locked.data(), number, lock),
{
    let queue = locked.queue();
    let limit = limited(lock)->limit;
    lemma_taken(locked.nodes, queue, number);
    lemma_taken_frame(locked.nodes, old.nodes, queue, number);
    assert forall|i: int| #![trigger queue[i]] 0 <= i < number implies {
        &&& allows(lock, locked.data() + taken(old.nodes, queue, i), old.nodes[queue[i]].opcode)
        &&& new.nodes[queue[i]].result == Some(0u8)
    } by {
        lemma_taken(locked.nodes, queue, i);
        lemma_taken_frame(locked.nodes, old.nodes, queue, i);
        lemma_allows(
            lock,
            locked.data() + taken(old.nodes, queue, i),
            old.nodes[queue[i]].opcode,
        );
        assert(crate::memory::admits(
            limit,
            locked.data() + crate::memory::demand(locked.nodes, queue, i),
            locked.nodes[queue[i]].opcode,
        ));
        assert(queue.take(number)[i] == queue[i]);
        assert(queue.take(number).contains(queue[i]));
    }
    if number < queue.len() {
        lemma_allows(
            lock,
            locked.data() + taken(old.nodes, queue, number),
            old.nodes[queue[number]].opcode,
        );
        assert(old.nodes[queue[number]].opcode == locked.nodes[queue[number]].opcode);
    }
}

/// `held` resources were released at the moment `mid`.
///
/// They are merely in use no longer if nobody waits, or if somebody else looks after the waiting
/// tasks. Otherwise as many of the oldest tasks as possible are served, and nobody else is affected
/// unless other tasks intervene.
pub open spec fn released(mid: Memory, new: Memory, held: nat, lock: bool, alone: bool) -> bool {
    &&& held <= mid.word % 64
    &&& if mid.word < 128 || mid.word % 128 >= 64 {
        &&& new.word == mid.word - held
        &&& new.nodes == mid.nodes
        &&& new.delivered == mid.delivered
    } else {
        &&& new.word % 128 < 64
        &&& mid.delivered.is_prefix_of(new.delivered)
        &&& forall|i: int|
            #![trigger new.delivered[i]]
            mid.delivered.len() <= i < new.delivered.len() ==> new.delivered[i].result == 0
        &&& resumes(mid, new)
        &&& alone ==> exists|number: int| #[trigger]
            served(mid, new, mid.queue(), (mid.word % 64 - held) as nat, number, lock) && spared(
                mid,
                new,
                mid.queue(),
                number,
                None,
            ) && noted(mid, new, mid.queue(), number)
    }
}

/// The results that were handed out in the meantime are those of the `number` oldest tasks.
pub open spec fn noted(old: Memory, new: Memory, queue: Seq<usize>, number: int) -> bool {
    &&& new.delivered.len() == old.delivered.len() + number
    &&& forall|i: int|
        #![trigger queue[i]]
        0 <= i < number ==> exists|k: int|
            old.delivered.len() <= k < new.delivered.len() && (#[trigger] new.delivered[k]).entry
                == queue[i]
}

/// What releasing resources amounts to if nobody intervenes.
#[verifier::spinoff_prover]
#[verifier::rlimit(60)]
proof fn lemma_released_alone(
    mid: Memory,
    locked: Memory,
    new: Memory,
    held: nat,
    number: int,
    lock: bool,
)
    requires
        mid.wf(),
        mid.discipline == limited(lock),
        !WaitQueue::flagged(mid.word),
        held <= mid.data(),
        locked == (Memory { held: true, ..mid.counted((mid.word + 64 - held) as usize) }),
        locked.hands_off(new, number),
        exists|all: Seq<usize>| #[trigger] locked.progresses(new, all),
    ensures
        served(mid, new, mid.queue(), (mid.word % 64 - held) as nat, number, lock),
        spared(mid, new, mid.queue(), number, None),
        noted(mid, new, mid.queue(), number),
{
    WaitQueue::lemma_lock(mid.word, held);
    locked.lemma_queue(mid.queue());
    lemma_served(mid, locked, new, number, lock);
    let all = choose|all: Seq<usize>| #[trigger] locked.progresses(new, all);
    lemma_noted(locked, new, all, number);
}

/// The oldest tasks are the ones that were handed a result.
#[verifier::spinoff_prover]
#[verifier::rlimit(60)]
proof fn lemma_noted(locked: Memory, new: Memory, all: Seq<usize>, number: int)
    requires
        locked.progresses(new, all),
        locked.hands_off(new, number),
    ensures
        noted(locked, new, locked.queue(), number),
{
    let queue = locked.queue();
    assert forall|i: int| #![trigger queue[i]] 0 <= i < number implies exists|k: int|
        locked.delivered.len() <= k < new.delivered.len() && (#[trigger] new.delivered[k]).entry
            == queue[i] by {
        let both = all + new.queue();
        assert(both[i] == all[i]);
        assert(queue[i] == both[i]);
        assert(all.contains(queue[i]));
        assert(crate::memory::handed(
            new.delivered,
            locked.delivered.len() as int,
            queue[i],
        ));
    }
}

/// Whoever is served when resources are released is resumed.
#[verifier::spinoff_prover]
#[verifier::rlimit(60)]
proof fn lemma_released_calls(mid: Memory, new: Memory, mode: Opcode, alone: bool)
    requires
        mid.releases(new, mode, alone),
        mid.tail() != 0,
        !WaitQueue::flagged(mid.word),
    ensures
        resumes(mid, new),
{
    let locked = Memory {
        held: true,
        ..mid.counted((mid.word + 64 - mode.held()) as usize)
    };
    let all = choose|all: Seq<usize>| #[trigger] locked.progresses(new, all);
    lemma_resumes(locked, new);
}

/// What releasing resources amounts to.
#[verifier::spinoff_prover]
#[verifier::rlimit(60)]
pub proof fn lemma_released(mid: Memory, new: Memory, mode: Opcode, lock: bool, alone: bool)
    requires
        mid.wf(),
        mid.discipline == limited(lock),
        !mid.held,
        mid.releases(new, mode, alone),
    ensures
        released(mid, new, weight(mode), lock, alone),
{
    WaitQueue::lemma_split(mid.word);
    let held = weight(mode);
    assert(held == mode.held());
    if mid.tail() != 0 && !WaitQueue::flagged(mid.word) {
        lemma_released_calls(mid, new, mode, alone);
        if alone {
            let locked = Memory { held: true, ..mid.counted((mid.word + 64 - held) as usize) };
            let number = choose|number: int| #[trigger] locked.hands_off(new, number);
            lemma_released_alone(mid, locked, new, held, number, lock);
            assert(served(mid, new, mid.queue(), (mid.word % 64 - held) as nat, number, lock));
        }
    }
}

/// The task of a [`Pager`] has left a lock or a semaphore, and nobody has intervened.
///
/// If it was still waiting, it is gone from the queue, and the tasks behind it are served as far as
/// possible. If it had been handed what it was waiting for and had not acknowledged it, that is
/// released. Otherwise, only its entry disappears.
pub open spec fn left(old: Memory, new: Memory, pager: Pager, lock: bool) -> bool {
    match pager.entry() {
        None => new == old,
        Some(entry) => {
            let opcode = old.nodes[entry].opcode;
            let rest = old.queue().remove(old.queue().index_of(entry));
            let released = old.nodes[entry].result == Some(0u8) && (match opcode {
                Opcode::Exclusive => old.word % 64 == 63,
                Opcode::Shared => 1 <= old.word % 64 <= 62,
                Opcode::Semaphore(permits) => old.word % 64 >= permits,
                Opcode::Wait(_) => false,
            });
            &&& new.own == old.own.remove(entry)
            &&& !new.nodes.dom().contains(entry)
            &&& !new.queue().contains(entry)
            &&& if old.nodes[entry].result is None {
                &&& old.queue().contains(entry)
                &&& exists|number: int| #[trigger]
                    served(old, new, rest, (old.word % 64) as nat, number, lock) && spared(
                        old,
                        new,
                        rest,
                        number,
                        Some(entry),
                    )
            } else if pager.acked() || !released {
                &&& new.word == old.word
                &&& new.queue() == old.queue()
                &&& spared(old, new, old.queue(), 0, Some(entry))
            } else if old.word < 128 {
                &&& new.word == old.word - weight(opcode)
                &&& new.queue().len() == 0
                &&& spared(old, new, old.queue(), 0, Some(entry))
            } else {
                exists|number: int| #[trigger]
                    served(
                        old,
                        new,
                        old.queue(),
                        (old.word % 64 - weight(opcode)) as nat,
                        number,
                        lock,
                    ) && spared(old, new, old.queue(), number, Some(entry))
            }
        },
    }
}

/// What leaving the queue amounts to if nobody intervenes.
#[verifier::spinoff_prover]
#[verifier::rlimit(60)]
proof fn lemma_withdrawn(old: Memory, done: Memory, entry: usize, lock: bool) -> (number: int)
    requires
        old.wf(),
        !old.held,
        old.discipline == limited(lock),
        old.queue().contains(entry),
        old.withdraws(done, entry, true),
    ensures
        served(
            old,
            done,
            old.queue().remove(old.queue().index_of(entry)),
            (old.word % 64) as nat,
            number,
            lock,
        ),
        spared(old, done, old.queue().remove(old.queue().index_of(entry)), number, Some(entry)),
{
    let locked = Memory { held: true, ..old.counted((old.word + 64) as usize) };
    WaitQueue::lemma_lock(old.word, 0);
    locked.lemma_queue(old.queue());
    let queue = old.queue();
    let index = queue.index_of(entry);
    let rest = queue.remove(index);
    let gone = choose|gone: Memory| #[trigger]
        locked.removes(gone, entry, true) && (if gone.held {
            exists|number: int| #[trigger] gone.hands_off(done, number)
        } else {
            done == gone
        });
    crate::memory::lemma_remove_contains(queue, index);
    assert forall|i: int| #![trigger rest[i]] 0 <= i < rest.len() implies {
        &&& gone.nodes.dom().contains(rest[i])
        &&& old.nodes[rest[i]].opcode == gone.nodes[rest[i]].opcode
    } by {
        assert(rest.contains(rest[i]));
        assert(queue.contains(rest[i]));
    }
    if gone.held {
        let number = choose|number: int| #[trigger] gone.hands_off(done, number);
        lemma_served(old, gone, done, number, lock);
        number
    } else {
        assert(rest.skip(0) =~= rest);
        assert(rest.take(0) =~= Seq::<usize>::empty());
        0
    }
}

/// The task of `entry` gave back what it had been handed, and nobody has intervened.
spec fn gave_back(old: Memory, mid: Memory, done: Memory, entry: usize, lock: bool) -> bool {
    let opcode = old.nodes[entry].opcode;
    if old.nodes[entry].result == Some(0u8) && opcode.releasable(old.data()) {
        if old.tail() == 0 {
            &&& done.word == old.word - weight(opcode)
            &&& done.nodes == mid.nodes
        } else {
            exists|number: int| #[trigger]
                served(
                    mid,
                    done,
                    mid.queue(),
                    (mid.word % 64 - weight(opcode)) as nat,
                    number,
                    lock,
                ) && spared(mid, done, mid.queue(), number, None)
        }
    } else {
        done == mid
    }
}

/// What giving back a result amounts to if nobody intervenes.
#[verifier::spinoff_prover]
#[verifier::rlimit(60)]
proof fn lemma_forgone(old: Memory, mid: Memory, done: Memory, entry: usize, lock: bool)
    requires
        old.wf(),
        mid.wf(),
        !old.held,
        !WaitQueue::flagged(old.word) || old.tail() == 0,
        old.discipline == limited(lock),
        old.nodes.dom().contains(entry),
        old.nodes[entry].result is Some,
        old.same_state(mid),
        mid.forgoes(done, old.nodes[entry].opcode, old.nodes[entry].result->0, true),
    ensures
        gave_back(old, mid, done, entry, lock),
{
    let opcode = old.nodes[entry].opcode;
    WaitQueue::lemma_split(old.word);
    if old.nodes[entry].result == Some(0u8) && opcode.releasable(old.data()) {
        assert(mid.releases(done, opcode, true));
        lemma_released(mid, done, opcode, lock, true);
    }
}

/// Who is served does not depend on the links between the entries.
#[verifier::spinoff_prover]
#[verifier::rlimit(60)]
proof fn lemma_served_frame(
    old: Memory,
    mid: Memory,
    done: Memory,
    new: Memory,
    queue: Seq<usize>,
    data: nat,
    number: int,
    entry: usize,
    lock: bool,
)
    requires
        crate::memory::same_bodies(old.nodes, mid.nodes),
        forall|i: int|
            #![trigger queue[i]]
            0 <= i < queue.len() ==> old.nodes.dom().contains(queue[i]) && queue[i] != entry,
        served(mid, done, queue, data, number, lock),
        spared(mid, done, queue, number, None) || spared(mid, done, queue, number, Some(entry)),
        new.word == done.word,
        new.queue() == done.queue(),
        new.nodes == done.nodes.remove(entry),
    ensures
        served(old, new, queue, data, number, lock),
        spared(old, new, queue, number, Some(entry)),
{
    assert forall|i: int| 0 <= i <= queue.len() implies #[trigger] taken(old.nodes, queue, i)
        == taken(mid.nodes, queue, i) by {
        lemma_taken_frame(old.nodes, mid.nodes, queue, i);
    }
    assert forall|i: int| #![trigger queue[i]] 0 <= i < number implies {
        &&& allows(lock, data + taken(old.nodes, queue, i), old.nodes[queue[i]].opcode)
        &&& new.nodes[queue[i]].result == Some(0u8)
    } by {
        assert(mid.nodes[queue[i]].opcode == old.nodes[queue[i]].opcode);
        assert(taken(old.nodes, queue, i) == taken(mid.nodes, queue, i));
    }
    if number < queue.len() {
        assert(mid.nodes[queue[number]].opcode == old.nodes[queue[number]].opcode);
        assert(taken(old.nodes, queue, number) == taken(mid.nodes, queue, number));
    }
}

/// What leaving a lock or a semaphore amounts to if nobody intervenes.
#[verifier::spinoff_prover]
#[verifier::rlimit(60)]
pub proof fn lemma_left(old: Memory, new: Memory, pager: Pager, lock: bool)
    requires
        old.wf(),
        old.quiet(),
        !old.held,
        old.discipline == limited(lock),
        pager.wf(old),
        pager.entry() is Some,
        !pager.acked(),
        new.own == old.own.remove(pager.entry()->0),
        old.cleans_up(new, pager.entry()->0, true),
    ensures
        left(old, new, pager, lock),
{
    let entry = pager.entry()->0;
    let opcode = old.nodes[entry].opcode;
    let done = choose|done: Memory| #[trigger]
        done.without_entry(entry) == new && done.wf() && !done.queue().contains(entry) && {
            ||| {
                &&& exists|mid: Memory| #[trigger]
                    old.rely(mid) && mid.withdraws(done, entry, true) && mid == old
                &&& old.queue().contains(entry)
            }
            ||| {
                &&& done.nodes[entry].result is Some
                &&& exists|mid: Memory| #[trigger]
                    old.continues(mid) && mid.wf() && mid.nodes[entry].result
                        == done.nodes[entry].result && mid.forgoes(
                        done,
                        opcode,
                        done.nodes[entry].result->0,
                        true,
                    ) && old.same_state(mid)
                &&& done.nodes[entry].result == old.nodes[entry].result
            }
        };
    done.lemma_no_entry(entry);
    assert(old.nodes.dom().contains(entry));
    WaitQueue::lemma_split(old.word);
    let queue = old.queue();
    if old.nodes[entry].result is None {
        assert(queue.contains(entry));
        let index = queue.index_of(entry);
        let rest = queue.remove(index);
        let number = lemma_withdrawn(old, done, entry, lock);
        crate::memory::lemma_remove_contains(queue, index);
        assert forall|i: int| #![trigger rest[i]] 0 <= i < rest.len() implies old.nodes.dom()
            .contains(rest[i]) && rest[i] != entry by {
            assert(rest.contains(rest[i]));
        }
        lemma_served_frame(old, old, done, new, rest, old.data(), number, entry, lock);
        assert(served(old, new, rest, (old.word % 64) as nat, number, lock));
    } else {
        assert(!queue.contains(entry));
        let mid = choose|mid: Memory| #[trigger]
            old.continues(mid) && mid.wf() && mid.nodes[entry].result == done.nodes[entry].result
                && mid.forgoes(done, opcode, done.nodes[entry].result->0, true)
                && old.same_state(mid);
        lemma_forgone(old, mid, done, entry, lock);
        lemma_left_late(old, mid, done, new, entry, lock);
    }
}

/// Nobody is affected if the entries differ in their links alone.
pub proof fn lemma_spared(old: Memory, mid: Memory, new: Memory, entry: usize)
    requires
        crate::memory::same_bodies(old.nodes, mid.nodes),
        new.nodes == mid.nodes.remove(entry),
    ensures
        spared(old, new, old.queue(), 0, Some(entry)),
{
}

/// What is served once the resources of a result were given back, if nobody intervenes.
#[verifier::spinoff_prover]
#[verifier::rlimit(60)]
proof fn lemma_left_served(
    old: Memory,
    mid: Memory,
    done: Memory,
    new: Memory,
    entry: usize,
    lock: bool,
)
    requires
        old.wf(),
        !WaitQueue::flagged(old.word),
        old.discipline == limited(lock),
        !old.queue().contains(entry),
        mid.word == old.word,
        mid.queue() == old.queue(),
        crate::memory::same_bodies(old.nodes, mid.nodes),
        new.word == done.word,
        new.nodes == done.nodes.remove(entry),
        new.queue() == done.queue(),
        exists|number: int| #[trigger]
            served(
                mid,
                done,
                mid.queue(),
                (mid.word % 64 - weight(old.nodes[entry].opcode)) as nat,
                number,
                lock,
            ) && spared(mid, done, mid.queue(), number, None),
    ensures
        exists|number: int| #[trigger]
            served(
                old,
                new,
                old.queue(),
                (old.word % 64 - weight(old.nodes[entry].opcode)) as nat,
                number,
                lock,
            ) && spared(old, new, old.queue(), number, Some(entry)),
        old.nodes[entry].opcode is Wait && old.queue().len() > 0 ==> {
            &&& new.word % 128 == old.word % 128
            &&& new.queue() == old.queue()
            &&& spared(old, new, old.queue(), 0, Some(entry))
        },
{
    let queue = old.queue();
    let data = (old.word % 64 - weight(old.nodes[entry].opcode)) as nat;
    let number = choose|number: int| #[trigger]
        served(mid, done, mid.queue(), data, number, lock) && spared(
            mid,
            done,
            mid.queue(),
            number,
            None,
        );
    assert forall|i: int| #![trigger queue[i]] 0 <= i < queue.len() implies old.nodes.dom()
        .contains(queue[i]) && queue[i] != entry by {
        assert(queue.contains(queue[i]));
    }
    lemma_served_frame(old, mid, done, new, queue, data, number, entry, lock);
    assert(served(old, new, queue, data, number, lock));
    if old.nodes[entry].opcode is Wait && queue.len() > 0 {
        lemma_allows(lock, old.data(), old.nodes[queue[0]].opcode);
        assert(taken(old.nodes, queue, 0) == 0);
        if number > 0 {
            assert(allows(lock, data + taken(old.nodes, queue, 0), old.nodes[queue[0]].opcode));
        }
        assert(queue.skip(0) =~= queue);
        WaitQueue::lemma_split(old.word);
        WaitQueue::lemma_split(new.word);
    }
}

/// What leaving a lock or a semaphore amounts to once a result was handed out, if nobody
/// intervenes.
#[verifier::spinoff_prover]
#[verifier::rlimit(60)]
proof fn lemma_left_late(
    old: Memory,
    mid: Memory,
    done: Memory,
    new: Memory,
    entry: usize,
    lock: bool,
)
    requires
        old.wf(),
        mid.wf(),
        new.wf(),
        !old.held,
        !WaitQueue::flagged(old.word) || old.tail() == 0,
        old.discipline == limited(lock),
        old.nodes.dom().contains(entry),
        old.nodes[entry].result is Some,
        !old.queue().contains(entry),
        mid.word == old.word,
        mid.queue() == old.queue(),
        crate::memory::same_bodies(old.nodes, mid.nodes),
        new.word == done.word,
        new.nodes == done.nodes.remove(entry),
        new.queue() == done.queue(),
        gave_back(old, mid, done, entry, lock),
    ensures
        ({
            let opcode = old.nodes[entry].opcode;
            if old.nodes[entry].result == Some(0u8) && opcode.releasable(old.data()) && !(
            opcode is Wait) {
                if old.word < 128 {
                    &&& new.word == old.word - weight(opcode)
                    &&& new.queue().len() == 0
                    &&& spared(old, new, old.queue(), 0, Some(entry))
                } else {
                    exists|number: int| #[trigger]
                        served(
                            old,
                            new,
                            old.queue(),
                            (old.word % 64 - weight(opcode)) as nat,
                            number,
                            lock,
                        ) && spared(old, new, old.queue(), number, Some(entry))
                }
            } else {
                &&& new.word == old.word
                &&& new.queue() == old.queue()
                &&& spared(old, new, old.queue(), 0, Some(entry))
            }
        }),
{
    let opcode = old.nodes[entry].opcode;
    WaitQueue::lemma_split(old.word);
    WaitQueue::lemma_split(new.word);
    if old.nodes[entry].result == Some(0u8) && opcode.releasable(old.data()) {
        if old.tail() == 0 {
            lemma_spared(old, mid, new, entry);
            WaitQueue::lemma_reduce(old.word, new.word);
        } else {
            lemma_left_served(old, mid, done, new, entry, lock);
            if opcode is Wait {
                assert(new.queue().last() == old.queue().last());
            }
        }
    } else {
        lemma_spared(old, mid, new, entry);
    }
}

/// Handing a result to a chain of entries hands it to each of them and to nobody else, and tells how
/// many there are.
#[verifier::spinoff_prover]
#[verifier::rlimit(60)]
pub proof fn law_deliver<S: SyncPrimitive>(
    primitive: &mut S,
    before: S,
    after: S,
    tail: usize,
    result: u8,
    chain: Ghost<Seq<usize>>,
    r: usize,
)
    requires
        *old(primitive) == before,
        *final(primitive) == after,
        call_ensures(S::deliver, (primitive, tail, result, chain), r),
    ensures
        r == chain@.len(),
        after.memory().delivered.len() == before.memory().delivered.len() + chain@.len(),
        after.memory().word == before.memory().word,
        forall|e: usize|
            #![trigger after.memory().nodes[e]]
            before.memory().nodes.dom().contains(e) ==> {
                &&& after.memory().nodes[e].result == (if chain@.contains(e) {
                    Some(result)
                } else {
                    before.memory().nodes[e].result
                })
                &&& after.memory().nodes[e].opcode == before.memory().nodes[e].opcode
                &&& after.memory().nodes[e].next == before.memory().nodes[e].next
                &&& after.memory().nodes[e].prev == before.memory().nodes[e].prev
            },
        resumes(before.memory(), after.memory()),
{
    reveal(Memory::delivers);
}

/// Resources are released if they are in use, and the tasks that have been waiting are served;
/// nothing happens otherwise.
#[verifier::spinoff_prover]
#[verifier::rlimit(60)]
pub proof fn law_release_mode<S: SyncPrimitive>(
    primitive: &mut S,
    before: S,
    after: S,
    mode: Opcode,
    lock: bool,
    r: bool,
) -> (mid: Memory)
    requires
        *old(primitive) == before,
        *final(primitive) == after,
        before.memory().ok(before.pending()),
        before.memory().discipline == limited(lock),
        !before.memory().held,
        mode.held() <= 63,
        call_ensures(S::release_mode, (primitive, mode), r),
    ensures
        before.memory().rely(mid),
        before.pending() == 0 ==> mid == before.memory(),
        r <==> usable(mid, mode),
        r ==> released(mid, after.memory(), weight(mode), lock, before.pending() == 0),
        !r ==> after.memory() == mid,
{
    if r {
        let mid = choose|mid: Memory| #[trigger]
            before.memory().rely(mid) && mid.releases(after.memory(), mode, before.pending() == 0)
                && (before.pending() == 0 ==> mid == before.memory());
        lemma_released(mid, after.memory(), mode, lock, before.pending() == 0);
        mid
    } else {
        after.memory()
    }
}

} // verus!
