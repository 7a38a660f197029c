//! Single-threaded storage of a synchronization primitive.
use std::sync::atomic::Ordering;

use vstd::prelude::*;

use crate::entry::Entry;
use crate::entry::Signal;
use crate::memory::Delivery;
use crate::memory::Discipline;
use crate::memory::Entries;
use crate::memory::Memory;
use crate::memory::Node;
use crate::memory::Room;
use crate::memory::Roster;
use crate::memory::Tally;
use crate::opcode::Opcode;
use crate::sync_primitive::SyncPrimitive;
use crate::wait_queue::WaitQueue;

verus! {

/// How the waiting tasks of a primitive are served.
#[derive(Clone, Copy, Debug, Eq, PartialEq, Structural)]
pub enum Policy {
    /// The oldest task is served as soon as it fits under the limit on shared owners.
    ///
    /// The primitive can be poisoned if the flag is set.
    Limited(u8, bool),
    /// All the tasks are served together by an explicit call.
    Gate,
    /// All the tasks are served together when the last of them arrives.
    Barrier(u8),
}

/// Storage of the state word and the wait queue entries of a primitive that is shared by the tasks
/// of a single thread.
///
/// A task runs until its operation completes or has to wait, so no other task intervenes.
pub struct Arena {
    /// State word.
    word: usize,
    /// How waiting tasks are served.
    policy: Policy,
    /// Wait queue entries; the address of an entry is given by its position.
    slots: Vec<Option<Entry>>,
    /// Results that were handed out.
    log: Log,
    /// The wait queue is being processed.
    held: Ghost<bool>,
    /// Entries that are neither in the wait queue nor completed.
    mine: Ghost<Set<usize>>,
    /// The resources that were added to those in use, less those that were removed.
    added: Ghost<Tally>,
    /// The resources that came with the results of entries which were destroyed.
    received: Ghost<Tally>,
    /// The resources that were added on behalf of waiting tasks, and not handed to them yet.
    spare: Ghost<Tally>,
}

/// Results that were handed out, and the tasks that have to be resumed for that.
struct Log {
    /// Tasks that have to be resumed.
    wakeups: Vec<u64>,
    /// Results that were handed out.
    delivered: Ghost<Seq<Delivery>>,
    /// The number of results whose tasks have been resumed.
    resumed: Ghost<nat>,
}

/// The tasks that have to be resumed since the results after the first `resumed` ones were handed
/// out.
pub open spec fn summons(delivered: Seq<Delivery>, resumed: nat) -> Seq<u64>
    decreases delivered.len(),
{
    if delivered.len() <= resumed {
        Seq::empty()
    } else {
        let rest = summons(delivered.drop_last(), resumed);
        match delivered.last().waker {
            Some(task) => rest.push(task),
            None => rest,
        }
    }
}

impl Memory {
    /// Whoever is handed a result is resumed: the task registered in the entry is among those that
    /// have to be resumed.
    pub proof fn law_served_tasks_are_resumed(self, new: Memory, entry: usize, task: u64)
        requires
            self.calls(new),
            self.roster.resumed <= self.delivered.len(),
            crate::memory::handed(new.delivered, self.delivered.len() as int, entry),
            self.waker(entry) == Some(task),
        ensures
            summons(new.delivered, self.roster.resumed).contains(task),
    {
        reveal(Memory::calls);
        let i = choose|i: int|
            self.delivered.len() <= i < new.delivered.len() && (#[trigger] new.delivered[i]).entry
                == entry;
        lemma_summoned(new.delivered, self.roster.resumed, i);
    }

    /// Nobody is resumed without having been handed a result.
    pub proof fn law_resumed_tasks_were_served(self, new: Memory, task: u64) -> (entry: usize)
        requires
            self.calls(new),
            self.delivered.is_prefix_of(new.delivered),
            self.roster.resumed == self.delivered.len(),
            summons(new.delivered, self.roster.resumed).contains(task),
        ensures
            crate::memory::handed(new.delivered, self.delivered.len() as int, entry),
            self.waker(entry) == Some(task),
    {
        reveal(Memory::calls);
        let i = lemma_summons(new.delivered, self.roster.resumed, task);
        assert(new.delivered[i].entry == new.delivered[i].entry);
        new.delivered[i].entry
    }

    /// If nobody intervenes when resources are released, each of the oldest waiting tasks that fit
    /// is handed a result, and so resumed.
    pub proof fn law_oldest_tasks_are_handed_results(
        self,
        new: Memory,
        served: Seq<usize>,
        number: int,
        index: int,
    )
        requires
            self.wf(),
            self.progresses(new, served),
            self.hands_off(new, number),
            0 <= index < number,
        ensures
            crate::memory::handed(
                new.delivered,
                self.delivered.len() as int,
                self.queue()[index],
            ),
    {
        let all = served + new.queue();
        assert(all[index] == served[index]);
        assert(self.queue()[index] == all[index]);
        assert(served.contains(self.queue()[index]));
    }
}

/// A result that was handed out has somebody resumed.
proof fn lemma_summoned(delivered: Seq<Delivery>, resumed: nat, index: int)
    requires
        resumed <= index < delivered.len(),
        delivered[index].waker is Some,
    ensures
        summons(delivered, resumed).contains(delivered[index].waker->0),
    decreases delivered.len(),
{
    let task = delivered[index].waker->0;
    let rest = summons(delivered.drop_last(), resumed);
    if index < delivered.len() - 1 {
        lemma_summoned(delivered.drop_last(), resumed, index);
        let i = rest.index_of(task);
        assert(rest[i] == task);
        assert(summons(delivered, resumed)[i] == task);
    } else {
        assert(summons(delivered, resumed).last() == task);
    }
}

/// Whoever is resumed belongs to a result that was handed out.
proof fn lemma_summons(delivered: Seq<Delivery>, resumed: nat, task: u64) -> (index: int)
    requires
        summons(delivered, resumed).contains(task),
    ensures
        resumed <= index < delivered.len(),
        delivered[index].waker == Some(task),
    decreases delivered.len(),
{
    if delivered.last().waker == Some(task) {
        delivered.len() - 1
    } else {
        let all = summons(delivered, resumed);
        let rest = summons(delivered.drop_last(), resumed);
        let i = all.index_of(task);
        assert(all[i] == task);
        assert(rest[i] == task);
        assert(rest.contains(task));
        lemma_summons(delivered.drop_last(), resumed, task)
    }
}

impl Log {
    /// The tasks that have to be resumed are those of the results that were handed out.
    #[verifier::type_invariant]
    spec fn inv(self) -> bool {
        &&& self.resumed@ <= self.delivered@.len()
        &&& self.wakeups@ == summons(self.delivered@, self.resumed@)
    }

    /// Results that were handed out.
    spec fn delivered(self) -> Seq<Delivery> {
        self.delivered@
    }

    /// The number of results whose tasks have been resumed.
    spec fn resumed(self) -> nat {
        self.resumed@
    }

    /// Creates an empty log.
    fn new() -> (r: Self)
        ensures
            r.delivered() == Seq::<Delivery>::empty(),
            r.resumed() == 0,
    {
        Log { wakeups: Vec::new(), delivered: Ghost(Seq::empty()), resumed: Ghost(0) }
    }

    /// A result was handed out, and the given task has to be resumed for that.
    fn record(&mut self, woken: Option<u64>, Ghost(delivery): Ghost<Delivery>)
        requires
            delivery.waker == woken,
        ensures
            final(self).delivered() == old(self).delivered().push(delivery),
            final(self).resumed() == old(self).resumed(),
    {
        proof {
            use_type_invariant(&*self);
        }
        let mut log = Log::new();
        std::mem::swap(self, &mut log);
        let ghost delivered = log.delivered@.push(delivery);
        proof {
            assert(delivered.drop_last() =~= log.delivered@);
        }
        let mut wakeups: Vec<u64> = log.wakeups;
        if let Some(task) = woken {
            wakeups.push(task);
        }
        *self = Log { wakeups, delivered: Ghost(delivered), resumed: log.resumed };
    }

    /// Returns the tasks that have to be resumed.
    fn take(&mut self) -> (r: Vec<u64>)
        ensures
            r@ == summons(old(self).delivered(), old(self).resumed()),
            final(self).delivered() == old(self).delivered(),
            final(self).resumed() == old(self).delivered().len(),
    {
        proof {
            use_type_invariant(&*self);
        }
        let mut log = Log::new();
        std::mem::swap(self, &mut log);
        *self = Log {
            wakeups: Vec::new(),
            delivered: log.delivered,
            resumed: Ghost(log.delivered@.len()),
        };
        log.wakeups
    }
}

impl Policy {
    /// How waiting tasks are served.
    pub open spec fn discipline(self) -> Discipline {
        match self {
            Policy::Limited(limit, poisonable) => Discipline::Limited {
                limit: limit as nat,
                poisonable,
            },
            Policy::Gate => Discipline::Gate,
            Policy::Barrier(total) => Discipline::Barrier { total: total as nat },
        }
    }
}

impl Arena {
    /// The address belongs to an entry.
    spec fn occupied(slots: Seq<Option<Entry>>, addr: usize) -> bool {
        &&& addr % 128 == 0
        &&& 0 < addr / 128 <= slots.len()
        &&& slots[addr / 128 - 1] is Some
    }

    /// The number of entries.
    spec fn population(slots: Seq<Option<Entry>>) -> nat
        decreases slots.len(),
    {
        if slots.len() == 0 {
            0
        } else {
            Self::population(slots.drop_last()) + if slots.last() is Some {
                1nat
            } else {
                0
            }
        }
    }

    /// The entries.
    spec fn nodes(slots: Seq<Option<Entry>>) -> Map<usize, Node> {
        Map::new(
            |addr: usize| Self::occupied(slots, addr),
            |addr: usize| slots[addr / 128 - 1]->0.node(),
        )
    }

    /// The entries that have been pushed into the wait queue.
    spec fn marked(slots: Seq<Option<Entry>>) -> Entries {
        Set::new(
            |addr: usize|
                Self::occupied(slots, addr) && slots[addr / 128 - 1]->0.context().enqueued,
        )
    }

    /// The tasks that will be resumed once the entries are handed a result.
    spec fn wakers(slots: Seq<Option<Entry>>) -> Map<usize, u64> {
        Map::new(
            |addr: usize| Self::occupied(slots, addr) && slots[addr / 128 - 1]->0.waiter() is Some,
            |addr: usize| slots[addr / 128 - 1]->0.waiter()->0,
        )
    }

    /// The result of the entry has been acknowledged.
    pub closed spec fn acked(self, entry: usize) -> bool {
        self.slots[entry / 128 - 1]->0.acked()
    }

    /// The tasks that have to be resumed.
    pub open spec fn wakeups(self) -> Seq<u64> {
        summons(self.memory().delivered, self.memory().roster.resumed)
    }

    /// Creates storage without any entries.
    pub fn new(policy: Policy, data: usize) -> (r: Self)
        requires
            data < 64,
            match policy {
                Policy::Limited(limit, _) => limit <= 63,
                Policy::Gate => data <= 2,
                Policy::Barrier(total) => data == total,
            },
        ensures
            r.memory().ok(0),
            r.memory() == Memory::fresh(data, policy.discipline()),
            r.memory().queue() == Seq::<usize>::empty(),
            r.memory().data() == data,
            r.room() == usize::MAX / 128,
            r.room() > 0,
            r.marks() == Set::<usize>::empty(),
            r.wakeups() == Seq::<u64>::empty(),
    {
        let r = Arena {
            word: data,
            policy,
            slots: Vec::new(),
            log: Log::new(),
            held: Ghost(false),
            mine: Ghost(Set::empty()),
            added: Ghost(Tally::none()),
            received: Ghost(Tally::none()),
            spare: Ghost(Tally::none()),
        };
        proof {
            assert(Self::nodes(r.slots@) =~= Map::empty());
            assert(Self::wakers(r.slots@) =~= Map::empty());
            assert(Self::wakers(r.slots@).dom() =~= Set::empty());
            assert(Self::nodes(r.slots@).dom() =~= Set::empty());
            assert(crate::memory::linked(r.memory().nodes, 0, Seq::empty()));
            r.memory().lemma_queue(Seq::empty());
        }
        r
    }

    /// Returns the position of an entry.
    fn position(&self, entry: usize) -> (r: usize)
        requires
            self.memory().nodes.dom().contains(entry),
        ensures
            r == entry / 128 - 1,
            r < self.slots@.len(),
            self.slots@[r as int] is Some,
            self.memory().nodes[entry] == self.slots@[r as int]->0.node(),
    {
        entry / WaitQueue::VIRTUAL_ALIGNMENT - 1
    }

    /// Returns a copy of an entry.
    fn at(&self, entry: usize) -> (r: Entry)
        requires
            self.memory().nodes.dom().contains(entry),
        ensures
            r == self.slots@[entry / 128 - 1]->0,
            r.node() == self.memory().nodes[entry],
            r.context().enqueued == self.marks().contains(entry),
            r.waiter() == self.memory().waker(entry),
    {
        let position: usize = self.position(entry);
        self.slots[position].unwrap()
    }

    /// Replaces an entry.
    fn replace(&mut self, entry: usize, slot: Entry)
        requires
            old(self).memory().nodes.dom().contains(entry),
        ensures
            final(self).memory().nodes == old(self).memory().nodes.insert(entry, slot.node()),
            final(self).memory() == (Memory {
                nodes: final(self).memory().nodes,
                roster: final(self).memory().roster,
                ..old(self).memory()
            }),
            final(self).memory().roster == (Roster {
                wakers: match slot.waiter() {
                    Some(task) => old(self).memory().roster.wakers.insert(entry, task),
                    None => old(self).memory().roster.wakers.remove(entry),
                },
                ..old(self).memory().roster
            }),
            final(self).slots@ == old(self).slots@.update(entry / 128 - 1, Some(slot)),
            final(self).room() == old(self).room(),
            final(self).marks() == (if slot.context().enqueued {
                old(self).marks().insert(entry)
            } else {
                old(self).marks().remove(entry)
            }),
    {
        let position: usize = self.position(entry);
        let ghost slots = self.slots@;
        self.slots.set(position, Some(slot));
        proof {
            Self::lemma_insert(slots, self.slots@, entry, slot);
            assert(Self::nodes(slots).dom().insert(entry) =~= Self::nodes(slots).dom());
            Self::lemma_population(slots, position as int, Some(slot));
            assert(Self::wakers(self.slots@) =~= match slot.waiter() {
                Some(task) => Self::wakers(slots).insert(entry, task),
                None => Self::wakers(slots).remove(entry),
            });
        }
    }

    /// Replaces the state word.
    fn swap(&mut self, word: usize)
        requires
            old(self).memory().ok(0),
            old(self).memory().may_swap(word),
        ensures
            final(self).memory() == old(self).memory().swapped(word),
            final(self).memory().ok(0),
            final(self).slots == old(self).slots,
    {
        let ghost new = self.memory().swapped(word);
        self.word = word;
        self.held = Ghost(new.held);
        self.mine = Ghost(new.mine);
        self.added = Ghost(new.added);
        self.spare = Ghost(new.spare);
    }

    /// A slot is replaced.
    proof fn lemma_population(slots: Seq<Option<Entry>>, position: int, slot: Option<Entry>)
        requires
            0 <= position < slots.len(),
        ensures
            Self::population(slots.update(position, slot)) == Self::population(slots) + (
            if slot is Some {
                1int
            } else {
                0
            }) - (if slots[position] is Some {
                1int
            } else {
                0
            }),
        decreases slots.len(),
    {
        let new = slots.update(position, slot);
        if position == slots.len() - 1 {
            assert(new.drop_last() =~= slots.drop_last());
        } else {
            assert(new.drop_last() =~= slots.drop_last().update(position, slot));
            Self::lemma_population(slots.drop_last(), position, slot);
        }
    }

    /// There are no more entries in the first slots than in all of them.
    proof fn lemma_first(slots: Seq<Option<Entry>>, number: int)
        requires
            0 <= number <= slots.len(),
        ensures
            Self::population(slots.take(number)) <= Self::population(slots),
        decreases slots.len() - number,
    {
        if number < slots.len() {
            Self::lemma_first(slots, number + 1);
            assert(slots.take(number + 1).drop_last() =~= slots.take(number));
        } else {
            assert(slots.take(number) =~= slots);
        }
    }

    /// Returns the number of entries.
    fn count_entries(&self) -> (r: usize)
        ensures
            r == Self::population(self.slots@),
    {
        let mut number: usize = 0;
        let mut position: usize = 0;
        while position < self.slots.len()
            invariant
                number <= position <= self.slots@.len(),
                number == Self::population(self.slots@.take(position as int)),
            decreases self.slots@.len() - position,
        {
            proof {
                assert(self.slots@.take(position + 1).drop_last() =~= self.slots@.take(
                    position as int,
                ));
            }
            if self.slots[position].is_some() {
                number += 1;
            }
            position += 1;
        }
        proof {
            assert(self.slots@.take(self.slots@.len() as int) =~= self.slots@);
        }
        number
    }

    /// Returns the position of the first slot that is not occupied.
    fn vacancy(&self) -> (r: usize)
        ensures
            r <= self.slots@.len(),
            r < self.slots@.len() ==> self.slots@[r as int] is None,
            self.room() > 0 ==> r < usize::MAX / 128,
    {
        let mut position: usize = 0;
        proof {
            assert(self.slots@.take(0) =~= Seq::empty());
        }
        while position < self.slots.len()
            invariant
                position <= self.slots@.len(),
                position == Self::population(self.slots@.take(position as int)),
                forall|i: int| 0 <= i < position ==> self.slots@[i] is Some,
            decreases self.slots@.len() - position,
        {
            proof {
                Self::lemma_first(self.slots@, position as int);
                assert(self.slots@.take(position + 1).drop_last() =~= self.slots@.take(
                    position as int,
                ));
            }
            if self.slots[position].is_none() {
                return position;
            }
            position += 1;
        }
        proof {
            Self::lemma_first(self.slots@, position as int);
        }
        position
    }

    /// A task that was registered in an entry is still the one to resume.
    proof fn lemma_same_wakers(self, first: Memory, entry: usize)
        requires
            self.memory().roster == (Roster {
                wakers: match first.waker(entry) {
                    Some(task) => first.roster.wakers.insert(entry, task),
                    None => first.roster.wakers.remove(entry),
                },
                ..first.roster
            }),
        ensures
            self.memory().roster == first.roster,
    {
        assert(self.memory().roster.wakers =~= first.roster.wakers);
    }

    /// An entry is stored.
    proof fn lemma_insert(
        slots: Seq<Option<Entry>>,
        new: Seq<Option<Entry>>,
        addr: usize,
        entry: Entry,
    )
        requires
            addr % 128 == 0,
            0 < addr / 128,
            addr / 128 - 1 <= slots.len(),
            new == (if addr / 128 - 1 == slots.len() {
                slots.push(Some(entry))
            } else {
                slots.update(addr / 128 - 1, Some(entry))
            }),
        ensures
            Self::nodes(new) == Self::nodes(slots).insert(addr, entry.node()),
            Self::nodes(new).dom() == Self::nodes(slots).dom().insert(addr),
    {
        assert(Self::nodes(new) =~= Self::nodes(slots).insert(addr, entry.node()));
        assert(Self::nodes(new).dom() =~= Self::nodes(slots).dom().insert(addr));
    }

    /// Polls the result of an entry, asynchronously, on behalf of a task.
    ///
    /// The task will be among those that have to be resumed once the result is set.
    pub fn poll_result_async(&mut self, entry: usize, task: u64) -> (r: Signal)
        requires
            old(self).memory().ok(0),
            old(self).memory().own.contains(entry),
        ensures
            final(self).memory() == (if r == Signal::Registered {
                old(self).memory().with_waker(entry, task)
            } else {
                old(self).memory()
            }),
            final(self).memory().ok(0),
            final(self).room() == old(self).room(),
            final(self).marks() == old(self).marks(),
            r == (if old(self).memory().nodes[entry].is_sync {
                Signal::Ready(Entry::ERROR_WRONG_MODE)
            } else {
                match old(self).memory().nodes[entry].result {
                    Some(result) => Signal::Ready(result),
                    None => Signal::Registered,
                }
            }),
    {
        let ghost first = self.memory();
        let mut slot: Entry = self.at(entry);
        let signal: Signal = slot.poll_result_async(task);
        self.replace(entry, slot);
        proof {
            self.lemma_polled(first, entry);
        }
        signal
    }

    /// Polls the result of an entry once, synchronously, on behalf of a task.
    ///
    /// The task will be among those that have to be resumed once the result is set.
    pub fn poll_result_sync(&mut self, entry: usize, task: u64) -> (r: Signal)
        requires
            old(self).memory().ok(0),
            old(self).memory().own.contains(entry),
        ensures
            final(self).memory() == (if r == Signal::Registered {
                old(self).memory().with_waker(entry, task)
            } else {
                old(self).memory()
            }),
            final(self).memory().ok(0),
            final(self).room() == old(self).room(),
            final(self).marks() == old(self).marks(),
            r == (if !old(self).memory().nodes[entry].is_sync {
                Signal::Ready(Entry::ERROR_WRONG_MODE)
            } else {
                match old(self).memory().nodes[entry].result {
                    Some(result) => Signal::Ready(result),
                    None => Signal::Registered,
                }
            }),
    {
        let ghost first = self.memory();
        let mut slot: Entry = self.at(entry);
        let signal: Signal = slot.poll_result_sync(task);
        self.replace(entry, slot);
        proof {
            self.lemma_polled(first, entry);
        }
        signal
    }

    /// Nothing but who has to be resumed changes when an entry is polled.
    proof fn lemma_polled(self, first: Memory, entry: usize)
        requires
            first.ok(0),
            first.own.contains(entry),
            self.memory() == (Memory {
                nodes: self.memory().nodes,
                roster: self.memory().roster,
                ..first
            }),
            self.memory().nodes == first.nodes.insert(entry, first.nodes[entry]),
            self.memory().roster.wakers.dom().subset_of(first.own),
            self.memory().roster.resumed == first.roster.resumed,
        ensures
            self.memory().nodes == first.nodes,
            self.memory().queue() == first.queue(),
            self.memory().ok(0),
            first.waker(entry) is None && self.memory().roster.wakers
                == first.roster.wakers.remove(entry) ==> self.memory() == first,
            first.waker(entry) matches Some(task) && self.memory().roster.wakers
                == first.roster.wakers.insert(entry, task) ==> self.memory() == first,
    {
        assert(self.memory().nodes =~= first.nodes);
        self.memory().lemma_queue(first.queue());
        if first.waker(entry) is None {
            assert(first.roster.wakers.remove(entry) =~= first.roster.wakers);
        } else {
            assert(first.roster.wakers.insert(entry, first.roster.wakers[entry])
                =~= first.roster.wakers);
        }
    }

    /// Checks if an entry has to be cleaned up before it is dropped.
    pub fn prepare_drop(&self, entry: usize) -> (r: bool)
        requires
            self.memory().ok(0),
            self.memory().own.contains(entry),
        ensures
            r == ((self.marks().contains(entry) || self.memory().nodes[entry].result is Some)
                && !self.acked(entry)),
    {
        self.at(entry).prepare_drop()
    }

    /// Returns the tasks that have to be resumed.
    pub fn take_wakeups(&mut self) -> (r: Vec<u64>)
        requires
            old(self).memory().ok(0),
        ensures
            r@ == old(self).wakeups(),
            final(self).wakeups() == Seq::<u64>::empty(),
            final(self).memory() == (Memory {
                roster: Roster {
                    resumed: old(self).memory().delivered.len(),
                    ..old(self).memory().roster
                },
                ..old(self).memory()
            }),
            final(self).memory().ok(0),
            final(self).room() == old(self).room(),
            final(self).marks() == old(self).marks(),
    {
        let ghost first = self.memory();
        let wakeups: Vec<u64> = self.log.take();
        proof {
            self.memory().lemma_queue(first.queue());
        }
        wakeups
    }
}

impl SyncPrimitive for Arena {
    closed spec fn memory(&self) -> Memory {
        Memory {
            word: self.word,
            held: self.held@,
            mine: self.mine@,
            own: Self::nodes(self.slots@).dom(),
            nodes: Self::nodes(self.slots@),
            delivered: self.log.delivered(),
            added: self.added@,
            received: self.received@,
            spare: self.spare@,
            roster: Roster { wakers: Self::wakers(self.slots@), resumed: self.log.resumed() },
            discipline: self.policy.discipline(),
        }
    }

    open spec fn pending(&self) -> nat {
        0
    }

    closed spec fn room(&self) -> Room {
        usize::MAX / 128 - Self::population(self.slots@)
    }

    closed spec fn marks(&self) -> Entries {
        Self::marked(self.slots@)
    }

    fn can_construct(&self) -> (r: bool) {
        self.count_entries() < usize::MAX / WaitQueue::VIRTUAL_ALIGNMENT
    }

    fn max_shared_owners(&self) -> (r: usize) {
        match self.policy {
            Policy::Limited(limit, _) => limit as usize,
            _ => usize::MAX,
        }
    }

    fn peek(&self, mo: Ordering) -> (r: usize) {
        proof {
            self.memory().lemma_rely_reflexive();
        }
        self.word
    }

    fn load(&mut self) -> (r: usize) {
        proof {
            self.memory().lemma_rely_reflexive();
        }
        self.word
    }

    fn compare_exchange(&mut self, current: usize, new: usize) -> (r: Result<usize, usize>) {
        proof {
            self.memory().lemma_rely_reflexive();
        }
        if self.word == current {
            self.swap(new);
            Ok(current)
        } else {
            Err(self.word)
        }
    }

    fn fetch_add(&mut self, value: usize) -> (r: usize) {
        proof {
            self.memory().lemma_rely_reflexive();
        }
        let previous: usize = self.word;
        self.swap(previous + value);
        previous
    }

    fn yield_now(&mut self) {
        proof {
            self.memory().lemma_rely_reflexive();
        }
    }

    fn construct(&mut self, opcode: Opcode, is_sync: bool) -> (entry: usize) {
        let ghost first = self.memory();
        let position: usize = self.vacancy();
        let entry = Entry::new(opcode, is_sync);
        let addr: usize = (position + 1) * WaitQueue::VIRTUAL_ALIGNMENT;
        let ghost slots = self.slots@;
        if position == self.slots.len() {
            self.slots.push(Some(entry));
        } else {
            self.slots.set(position, Some(entry));
        }
        self.mine = Ghost(self.mine@.insert(addr));
        proof {
            assert(addr / 128 - 1 == position);
            assert(!Self::occupied(slots, addr));
            Self::lemma_insert(slots, self.slots@, addr, entry);
            if position == slots.len() {
                assert(self.slots@.drop_last() =~= slots);
            } else {
                Self::lemma_population(slots, position as int, Some(entry));
            }
            assert(Self::wakers(self.slots@) =~= Self::wakers(slots));
            assert(self.memory() == first.with_entry(addr, opcode, is_sync));
            reveal(WaitQueue::aligned);
            first.lemma_entry(addr, opcode, is_sync);
        }
        addr
    }

    fn discard(&mut self, entry: usize) {
        let ghost first = self.memory();
        let position: usize = self.position(entry);
        let ghost slots = self.slots@;
        self.slots.set(position, None);
        self.mine = Ghost(self.mine@.remove(entry));
        self.received = Ghost(first.without_entry(entry).received);
        proof {
            assert(Self::nodes(self.slots@) =~= Self::nodes(slots).remove(entry));
            assert(Self::nodes(self.slots@).dom() =~= Self::nodes(slots).dom().remove(entry));
            assert(Self::wakers(self.slots@) =~= Self::wakers(slots).remove(entry));
            assert(self.memory() == first.without_entry(entry));
            first.lemma_no_entry(entry);
            Self::lemma_population(slots, position as int, None);
        }
    }

    fn next_entry(&self, entry: usize) -> (r: usize) {
        let position: usize = self.position(entry);
        match &self.slots[position] {
            Some(entry) => entry.next_entry(),
            None => 0,
        }
    }

    fn prev_entry(&self, entry: usize) -> (r: usize) {
        let position: usize = self.position(entry);
        match &self.slots[position] {
            Some(entry) => entry.prev_entry(),
            None => 0,
        }
    }

    fn opcode(&self, entry: usize) -> (r: Opcode) {
        let position: usize = self.position(entry);
        match &self.slots[position] {
            Some(entry) => entry.opcode(),
            None => Opcode::Exclusive,
        }
    }

    fn try_acknowledge_result(&mut self, entry: usize) -> (r: Option<u8>) {
        let ghost first = self.memory();
        let mut slot: Entry = self.at(entry);
        let result: Option<u8> = slot.try_acknowledge_result();
        self.replace(entry, slot);
        proof {
            self.lemma_same_wakers(first, entry);
            assert(self.memory().nodes =~= first.nodes);
        }
        result
    }

    fn update_next_entry(&mut self, entry: usize, next: usize) {
        let ghost first = self.memory();
        let mut slot: Entry = self.at(entry);
        slot.update_next_entry(next);
        self.replace(entry, slot);
        proof {
            self.lemma_same_wakers(first, entry);
        }
        let ghost new = first.with_next(entry, next);
        self.mine = Ghost(new.mine);
        proof {
            assert(self.memory() == new);
        }
    }

    fn update_prev_entry(&mut self, entry: usize, prev: usize) {
        let ghost first = self.memory();
        let mut slot: Entry = self.at(entry);
        slot.update_prev_entry(prev);
        self.replace(entry, slot);
        proof {
            self.lemma_same_wakers(first, entry);
            assert(self.memory() == first.with_prev(entry, prev));
            first.lemma_prev(entry, prev);
        }
    }

    fn set_result(&mut self, entry: usize, result: u8) {
        let ghost first = self.memory();
        let mut slot: Entry = self.at(entry);
        let woken: Option<u64> = slot.set_result(result);
        self.replace(entry, slot);
        let ghost new = first.with_result(entry, result);
        self.mine = Ghost(new.mine);
        self.spare = Ghost(new.spare);
        self.log.record(woken, Ghost(new.delivered.last()));
        proof {
            self.lemma_same_wakers(first, entry);
            assert(self.memory() == new);
            first.lemma_result(entry, result);
        }
    }

    fn enqueued(&mut self, entry: usize) {
        let ghost first = self.memory();
        let mut slot: Entry = self.at(entry);
        slot.enqueued();
        self.replace(entry, slot);
        proof {
            self.lemma_same_wakers(first, entry);
            assert(self.memory().nodes =~= first.nodes);
        }
    }
}

} // verus!
