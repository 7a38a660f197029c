//! Define base operations for synchronization primitives.
use std::sync::atomic::Ordering;

use vstd::prelude::*;

use crate::memory::Discipline;
use crate::memory::Entries;
use crate::memory::Memory;
use crate::memory::Room;
use crate::memory::Tally;
use crate::memory::Turns;
use crate::opcode::Opcode;
use crate::wait_queue::WaitQueue;

verus! {

/// The outcome of serving waiting entries once.
pub struct Round {
    /// All the entries were served and the wait queue was reset.
    pub unlocked: bool,
    /// The wait queue could not be reset because the state has changed.
    pub reset_failed: bool,
    /// The number of resources transferred to the served entries.
    pub transferred: usize,
    /// The newest entry that was served.
    pub resolved: usize,
    /// The oldest entry that was not served.
    pub head: usize,
    /// The number of entries that were served.
    pub number: Ghost<int>,
}

/// The outcome of an attempt to acquire resources.
#[derive(Clone, Copy, Debug, Eq, PartialEq, Structural)]
pub enum Acquisition {
    /// The resources were acquired, or refused for good if it is `false`.
    Done(bool),
    /// The task has to wait; the wait queue entry will be handed the result.
    Waiting(usize),
}

impl Acquisition {
    /// The entries that are marked after the attempt, out of those that were marked before: the
    /// entry of a task that has to wait becomes one of them.
    pub open spec fn marks(self, before: Entries) -> Entries {
        match self {
            Acquisition::Done(_) => before,
            Acquisition::Waiting(entry) => before.insert(entry),
        }
    }

    /// The number of entries that can be created after the attempt, out of those that could be
    /// created before: the entry of a task that has to wait takes the place of one of them.
    pub open spec fn room(self, before: Room) -> Room {
        match self {
            Acquisition::Done(_) => before,
            Acquisition::Waiting(_) => before - 1,
        }
    }
}

/// Define base operations for synchronization primitives.
///
/// An implementor gives one task access to the state word and the wait queue entries of a
/// primitive. Other tasks may intervene before each access to the state word or to the result of an
/// entry, in any way that [`Memory::rely`] describes; [`SyncPrimitive::pending`] bounds how often
/// they still do. Wait queue entries are identified by the address that is stored in the state
/// word.
pub trait SyncPrimitive: Sized {
    /// The memory of the primitive as the task sees it.
    spec fn memory(&self) -> Memory;

    /// The number of times other tasks may still intervene.
    spec fn pending(&self) -> Turns;

    /// The number of wait queue entries that can still be created.
    spec fn room(&self) -> Room;

    /// The entries that the task has marked as pushed into the wait queue.
    ///
    /// Such an entry has to be cleaned up if it is dropped before its result is acknowledged.
    spec fn marks(&self) -> Entries;

    /// Checks if another wait queue entry can be created.
    fn can_construct(&self) -> (r: bool)
        ensures
            r == (self.room() > 0),
    ;

    /// Returns the maximum number of shared owners.
    fn max_shared_owners(&self) -> (r: usize)
        ensures
            self.memory().discipline matches Discipline::Limited { limit, .. } ==> r == limit,
    ;

    /// Reads the state word without synchronizing with anything that follows.
    fn peek(&self, mo: Ordering) -> (r: usize)
        requires
            self.memory().ok(self.pending()),
        ensures
            exists|mid: Memory| #[trigger]
                self.memory().rely(mid) && r == mid.word && (self.pending() == 0 ==> mid
                    == self.memory()),
    ;

    /// Reads the state word.
    fn load(&mut self) -> (r: usize)
        requires
            old(self).memory().ok(old(self).pending()),
        ensures
            final(self).memory().ok(final(self).pending()),
            r == final(self).memory().word,
            old(self).memory().rely(final(self).memory()),
            final(self).pending() <= old(self).pending(),
            final(self).memory() != old(self).memory() ==> final(self).pending() < old(
                self,
            ).pending(),
            final(self).room() == old(self).room(),
            final(self).marks() == old(self).marks(),
    ;

    /// Replaces the state word with `new` if it is `current`.
    fn compare_exchange(&mut self, current: usize, new: usize) -> (r: Result<usize, usize>)
        requires
            old(self).memory().ok(old(self).pending()),
            forall|mid: Memory| #[trigger]
                old(self).memory().rely(mid) && mid.word == current ==> mid.may_swap(new),
        ensures
            final(self).memory().ok(final(self).pending()),
            r matches Ok(word) ==> {
                let mid = Memory {
                    word: current,
                    nodes: final(self).memory().nodes,
                    ..old(self).memory()
                };
                &&& word == current
                &&& old(self).memory().rely(mid)
                &&& final(self).memory() == mid.swapped(new)
                &&& mid != old(self).memory() ==> final(self).pending() < old(self).pending()
            },
            r matches Err(word) ==> {
                &&& word != current
                &&& word == final(self).memory().word
                &&& old(self).memory().rely(final(self).memory())
                &&& final(self).memory() != old(self).memory() ==> final(self).pending() < old(
                    self,
                ).pending()
            },
            final(self).pending() <= old(self).pending(),
            final(self).room() == old(self).room(),
            final(self).marks() == old(self).marks(),
    ;

    /// Adds `value` to the state word.
    fn fetch_add(&mut self, value: usize) -> (r: usize)
        requires
            old(self).memory().ok(old(self).pending()),
            forall|mid: Memory| #[trigger]
                old(self).memory().rely(mid) ==> mid.word + value <= usize::MAX && mid.may_swap(
                    (mid.word + value) as usize,
                ),
        ensures
            final(self).memory().ok(final(self).pending()),
            ({
                let mid = Memory {
                    word: r,
                    nodes: final(self).memory().nodes,
                    ..old(self).memory()
                };
                &&& old(self).memory().rely(mid)
                &&& final(self).memory() == mid.swapped((r + value) as usize)
                &&& mid != old(self).memory() ==> final(self).pending() < old(self).pending()
            }),
            final(self).pending() <= old(self).pending(),
            final(self).room() == old(self).room(),
            final(self).marks() == old(self).marks(),
    ;

    /// Lets other tasks run.
    fn yield_now(&mut self)
        requires
            old(self).memory().ok(old(self).pending()),
        ensures
            final(self).memory().ok(final(self).pending()),
            old(self).memory().rely(final(self).memory()),
            old(self).pending() > 0 ==> final(self).pending() < old(self).pending(),
            old(self).pending() == 0 ==> final(self).memory() == old(self).memory()
                && final(self).pending() == 0,
            final(self).room() == old(self).room(),
            final(self).marks() == old(self).marks(),
    ;

    /// Creates a wait queue entry.
    fn construct(&mut self, opcode: Opcode, is_sync: bool) -> (entry: usize)
        requires
            old(self).memory().ok(old(self).pending()),
            old(self).room() > 0,
            opcode.valid(),
        ensures
            final(self).memory().ok(final(self).pending()),
            final(self).memory() == old(self).memory().with_entry(entry, opcode, is_sync),
            !old(self).memory().mine.contains(entry),
            !old(self).memory().own.contains(entry),
            !old(self).memory().queue().contains(entry),
            final(self).memory().queue() == old(self).memory().queue(),
            final(self).pending() == old(self).pending(),
            final(self).room() == old(self).room() - 1,
            !old(self).marks().contains(entry),
            final(self).marks() == old(self).marks(),
    ;

    /// Destroys a wait queue entry that is not in use.
    fn discard(&mut self, entry: usize)
        requires
            old(self).memory().ok(old(self).pending()),
            old(self).memory().own.contains(entry),
            !old(self).memory().queue().contains(entry),
            old(self).memory().mine.contains(entry) || old(self).memory().nodes[entry].result is Some,
        ensures
            final(self).memory().ok(final(self).pending()),
            final(self).memory() == old(self).memory().without_entry(entry),
            final(self).memory().queue() == old(self).memory().queue(),
            final(self).pending() == old(self).pending(),
            final(self).room() == old(self).room() + 1,
            final(self).marks() == old(self).marks().remove(entry),
    ;

    /// Returns the entry that was pushed right before this entry.
    fn next_entry(&self, entry: usize) -> (r: usize)
        requires
            self.memory().ok(self.pending()),
            self.memory().accessible(entry),
        ensures
            r == self.memory().nodes[entry].next,
    ;

    /// Returns the entry that was pushed right after this entry.
    fn prev_entry(&self, entry: usize) -> (r: usize)
        requires
            self.memory().ok(self.pending()),
            self.memory().accessible(entry),
        ensures
            r == self.memory().nodes[entry].prev,
    ;

    /// Returns the operation code of the entry.
    fn opcode(&self, entry: usize) -> (r: Opcode)
        requires
            self.memory().ok(self.pending()),
            self.memory().nodes.dom().contains(entry),
        ensures
            r == self.memory().nodes[entry].opcode,
    ;

    /// Returns the result that the entry has been handed, and acknowledges it.
    fn try_acknowledge_result(&mut self, entry: usize) -> (r: Option<u8>)
        requires
            old(self).memory().ok(old(self).pending()),
            old(self).memory().own.contains(entry),
        ensures
            final(self).memory().ok(final(self).pending()),
            r == final(self).memory().nodes[entry].result,
            old(self).memory().rely(final(self).memory()),
            final(self).pending() <= old(self).pending(),
            final(self).memory() != old(self).memory() ==> final(self).pending() < old(
                self,
            ).pending(),
            final(self).room() == old(self).room(),
            final(self).marks() == old(self).marks(),
    ;

    /// Updates the link to the entry that was pushed right before this entry.
    fn update_next_entry(&mut self, entry: usize, next: usize)
        requires
            old(self).memory().ok(old(self).pending()),
            old(self).memory().may_link(entry, next),
        ensures
            final(self).memory().ok(final(self).pending()),
            final(self).memory() == old(self).memory().with_next(entry, next),
            final(self).pending() == old(self).pending(),
            final(self).room() == old(self).room(),
            final(self).marks() == old(self).marks(),
    ;

    /// Updates the link to the entry that was pushed right after this entry.
    fn update_prev_entry(&mut self, entry: usize, prev: usize)
        requires
            old(self).memory().ok(old(self).pending()),
            old(self).memory().accessible(entry),
            entry == old(self).memory().tail() ==> prev == 0,
        ensures
            final(self).memory().ok(final(self).pending()),
            final(self).memory() == old(self).memory().with_prev(entry, prev),
            final(self).memory().queue() == old(self).memory().queue(),
            final(self).pending() == old(self).pending(),
            final(self).room() == old(self).room(),
            final(self).marks() == old(self).marks(),
    ;

    /// Hands a result to the task waiting in the entry.
    fn set_result(&mut self, entry: usize, result: u8)
        requires
            old(self).memory().ok(old(self).pending()),
            old(self).memory().may_deliver(entry, result),
        ensures
            final(self).memory().ok(final(self).pending()),
            final(self).memory() == old(self).memory().with_result(entry, result),
            final(self).memory().queue() == old(self).memory().queue(),
            final(self).pending() == old(self).pending(),
            final(self).room() == old(self).room(),
            final(self).marks() == old(self).marks(),
    ;

    /// Marks the entry as one that has been pushed into the wait queue.
    fn enqueued(&mut self, entry: usize)
        requires
            old(self).memory().ok(old(self).pending()),
            old(self).memory().nodes.dom().contains(entry),
        ensures
            final(self).memory().ok(final(self).pending()),
            final(self).memory() == old(self).memory(),
            final(self).pending() == old(self).pending(),
            final(self).room() == old(self).room(),
            final(self).marks() == old(self).marks().insert(entry),
    ;

    /// Tries to push a wait queue entry into the wait queue.
    ///
    /// Returns the callback if the state has changed, otherwise it is invoked.
    #[verifier::spinoff_prover]
    #[verifier::rlimit(100)]
    fn try_push_wait_queue_entry<F: FnOnce()>(
        &mut self,
        entry: usize,
        seen: usize,
        begin_wait: F,
    ) -> (r: Option<F>)
        requires
            old(self).memory().ok(old(self).pending()),
            old(self).memory().mine.contains(entry),
            old(self).memory().own.contains(entry),
            old(self).memory().nodes[entry].prev == 0,
            old(self).memory().may_wait(old(self).memory().nodes[entry].opcode, seen),
            begin_wait.requires(()),
        ensures
            final(self).memory().ok(final(self).pending()),
            final(self).room() == old(self).room(),
            final(self).marks() == (if r is None {
                old(self).marks().insert(entry)
            } else {
                old(self).marks()
            }),
            final(self).pending() <= old(self).pending(),
            r is None ==> {
                &&& begin_wait.ensures((), ())
                &&& old(self).memory().pushes(
                    final(self).memory(),
                    entry,
                    seen,
                    final(self).pending() == old(self).pending(),
                )
            },
            r matches Some(returned) ==> {
                &&& returned == begin_wait
                &&& old(self).memory().misses(
                    final(self).memory(),
                    entry,
                    seen,
                    final(self).pending() == old(self).pending(),
                )
            },
    {
        let ghost first = self.memory();
        let next: usize = WaitQueue::addr(seen);
        proof {
            first.lemma_next_outside(entry, next);
        }
        self.update_next_entry(entry, next);
        let next_state: usize = WaitQueue::with_addr(seen, entry);
        let ghost start = self.memory();
        proof {
            start.lemma_may_push_all(seen, next_state, entry);
            reveal(Memory::pushes);
            reveal(Memory::misses);
            reveal(WaitQueue::aligned);
        }
        if self.compare_exchange(seen, next_state).is_ok() {
            // The entry cannot be dropped until the result is acknowledged.
            self.enqueued(entry);
            begin_wait();
            None
        } else {
            Some(begin_wait)
        }
    }

    /// Starts to wait for the desired resources.
    ///
    /// Returns the wait queue entry that will be handed the result, or the callback if the state
    /// has changed.
    #[verifier::spinoff_prover]
    #[verifier::rlimit(100)]
    fn wait_resources<F: FnOnce()>(
        &mut self,
        seen: usize,
        mode: Opcode,
        is_sync: bool,
        begin_wait: F,
    ) -> (r: Result<usize, F>)
        requires
            old(self).memory().ok(old(self).pending()),
            old(self).room() > 0,
            !old(self).memory().held,
            old(self).memory().may_wait(mode, seen),
            mode.valid(),
            begin_wait.requires(()),
        ensures
            final(self).memory().ok(final(self).pending()),
            final(self).pending() <= old(self).pending(),
            final(self).room() == (match r {
                Ok(_) => old(self).room() - 1,
                Err(_) => old(self).room(),
            }),
            final(self).marks() == (match r {
                Ok(entry) => old(self).marks().insert(entry),
                Err(_) => old(self).marks(),
            }),
            r matches Ok(entry) ==> {
                &&& !old(self).marks().contains(entry)
                &&& begin_wait.ensures((), ())
                &&& final(self).memory().nodes[entry].is_sync == is_sync
                &&& old(self).memory().enqueues(
                    final(self).memory(),
                    entry,
                    mode,
                    seen,
                    final(self).pending() == old(self).pending(),
                )
            },
            r matches Err(returned) ==> {
                &&& returned == begin_wait
                &&& old(self).memory().rely(final(self).memory())
                &&& final(self).memory().word != seen
                &&& final(self).memory().word == old(self).memory().word || final(self).pending()
                    < old(self).pending()
            },
    {
        let ghost first = self.memory();
        let entry: usize = self.construct(mode, is_sync);
        let ghost made = self.memory();
        match self.try_push_wait_queue_entry(entry, seen, begin_wait) {
            Some(returned) => {
                let ghost then = self.memory();
                proof {
                    first.lemma_entry_undone(
                        entry,
                        mode,
                        is_sync,
                        seen,
                        then,
                        self.pending() == old(self).pending(),
                    );
                }
                self.discard(entry);
                Err(returned)
            },
            None => {
                proof {
                    first.lemma_enqueues(
                        entry,
                        mode,
                        is_sync,
                        seen,
                        self.memory(),
                        self.pending() == old(self).pending(),
                    );
                }
                Ok(entry)
            },
        }
    }

    /// Hands the result of an attempt to acquire resources to an entry that was not pushed yet, or
    /// tries to push it.
    ///
    /// Returns `false` if the state has changed.
    #[verifier::spinoff_prover]
    #[verifier::rlimit(60)]
    fn try_register(
        &mut self,
        entry: usize,
        result: u8,
        seen: usize,
        Ghost(first): Ghost<Memory>,
        Ghost(alone): Ghost<bool>,
    ) -> (r: bool)
        requires
            old(self).memory().ok(old(self).pending()),
            first.wf(),
            first.discipline is Limited,
            first.spare == Tally::none(),
            old(self).memory().tried(
                first,
                entry,
                old(self).memory().nodes[entry].opcode,
                result,
                seen,
                alone,
            ),
        ensures
            final(self).memory().ok(final(self).pending()),
            final(self).room() == old(self).room(),
            final(self).marks() == (if r && result == 1 {
                old(self).marks().insert(entry)
            } else {
                old(self).marks()
            }),
            r ==> (result == 1 <==> final(self).memory().nodes[entry].result is None),
            final(self).pending() <= old(self).pending(),
            final(self).memory().nodes[entry].is_sync == old(self).memory().nodes[entry].is_sync,
            final(self).memory().held == first.held,
            final(self).memory().discipline == first.discipline,
            r ==> first.registers(
                final(self).memory(),
                entry,
                old(self).memory().nodes[entry].opcode,
                alone && final(self).pending() == old(self).pending(),
            ),
            !r ==> {
                &&& first.prepares(
                    final(self).memory(),
                    entry,
                    old(self).memory().nodes[entry].opcode,
                )
                &&& final(self).memory().added == first.added
                &&& final(self).memory().received == first.received
                &&& final(self).memory().delivered == first.delivered
                &&& final(self).pending() < old(self).pending()
            },
    {
        let ghost opcode = self.memory().nodes[entry].opcode;
        let ghost tried = self.memory();
        proof {
            assert(tried.mine.contains(entry));
        }
        if result != 1 {
            self.set_result(entry, result);
            proof {
                first.lemma_registers_result(tried, entry, opcode, result, alone);
            }
            return true;
        }
        if self.try_push_wait_queue_entry(entry, seen, || {  }).is_none() {
            proof {
                first.lemma_registers_push(
                    tried,
                    self.memory(),
                    entry,
                    opcode,
                    seen,
                    self.pending() == old(self).pending(),
                    alone && self.pending() == old(self).pending(),
                );
            }
            true
        } else {
            proof {
                first.lemma_prepares_missed(
                    tried,
                    self.memory(),
                    entry,
                    opcode,
                    seen,
                    self.pending() == old(self).pending(),
                    alone && self.pending() == old(self).pending(),
                );
            }
            false
        }
    }

    /// Links each waiting entry to the one that was pushed right after it, and returns the oldest.
    fn link_entries(&mut self, tail: usize) -> (head: usize)
        requires
            old(self).memory().ok(old(self).pending()),
            old(self).memory().held,
            tail == old(self).memory().tail(),
        ensures
            final(self).memory().ok(final(self).pending()),
            final(self).pending() == old(self).pending(),
            final(self).room() == old(self).room(),
            final(self).marks() == old(self).marks(),
            old(self).memory().differs_in_prev(final(self).memory()),
            final(self).memory().backlinked(final(self).memory().queue().len() - 1),
            head == final(self).memory().queue()[0],
    {
        let ghost first = self.memory();
        let ghost queue = first.queue();
        let mut entry: usize = tail;
        let ghost mut index: int = queue.len() - 1;
        loop
            invariant
                self.memory().ok(self.pending()),
                self.pending() == old(self).pending(),
                self.room() == old(self).room(),
                self.marks() == old(self).marks(),
                first.wf(),
                first.held,
                queue == first.queue(),
                first.differs_in_prev(self.memory()),
                0 <= index < queue.len(),
                entry == queue[index],
                forall|i: int|
                    #![trigger queue[i]]
                    index <= i < queue.len() - 1 ==> self.memory().nodes[queue[i]].prev == queue[i
                        + 1],
                first == old(self).memory(),
            decreases index,
        {
            let ghost now = self.memory();
            let next: usize = self.next_entry(entry);
            if next == 0 {
                proof {
                    if index > 0 {
                        assert(now.nodes[queue[index]].next == queue[index - 1]);
                    }
                    assert(now.nodes[queue.last()].prev == 0);
                }
                return entry;
            }
            proof {
                if index > 0 {
                    assert(now.nodes[queue[index]].next == queue[index - 1]);
                }
                assert(queue.contains(queue[index - 1]));
                assert(queue[index - 1] != queue[queue.len() - 1]);
            }
            proof {
                first.lemma_differs_in_prev(now, next, entry);
            }
            self.update_prev_entry(next, entry);
            entry = next;
            proof {
                index = index - 1;
            }
        }
    }

    /// Sets a pointer to the previous entry on each entry that does not have one yet.
    fn set_prev_ptr(&mut self, tail: usize, Ghost(number): Ghost<int>)
        requires
            old(self).memory().ok(old(self).pending()),
            old(self).memory().held,
            old(self).memory().backlinked(number),
            tail == old(self).memory().tail(),
        ensures
            final(self).memory().ok(final(self).pending()),
            final(self).pending() == old(self).pending(),
            final(self).room() == old(self).room(),
            final(self).marks() == old(self).marks(),
            old(self).memory().differs_in_prev(final(self).memory()),
            final(self).memory().backlinked(final(self).memory().queue().len() - 1),
    {
        let ghost first = self.memory();
        let ghost queue = first.queue();
        let mut entry: usize = tail;
        let ghost mut index: int = queue.len() - 1;
        loop
            invariant
                self.memory().ok(self.pending()),
                self.pending() == old(self).pending(),
                self.room() == old(self).room(),
                self.marks() == old(self).marks(),
                first.wf(),
                first.held,
                first.backlinked(number),
                queue == first.queue(),
                first.differs_in_prev(self.memory()),
                0 <= index < queue.len(),
                entry == queue[index],
                forall|i: int|
                    #![trigger queue[i]]
                    index <= i < queue.len() - 1 ==> self.memory().nodes[queue[i]].prev == queue[i
                        + 1],
                forall|i: int|
                    #![trigger queue[i]]
                    0 <= i < index ==> self.memory().nodes[queue[i]] == first.nodes[queue[i]],
                first == old(self).memory(),
            decreases index,
        {
            let ghost now = self.memory();
            let next: usize = self.next_entry(entry);
            proof {
                if index > 0 {
                    assert(now.nodes[queue[index]].next == queue[index - 1]);
                    assert(queue.contains(queue[index - 1]));
                    assert(queue[index - 1] != queue[queue.len() - 1]);
                }
                assert(now.nodes[queue.last()].prev == 0);
            }
            if next == 0 || self.prev_entry(next) != 0 {
                return;
            }
            proof {
                first.lemma_differs_in_prev(now, next, entry);
            }
            self.update_prev_entry(next, entry);
            entry = next;
            proof {
                index = index - 1;
            }
        }
    }

    /// Hands a result to each entry reachable from `tail`, and returns the number of entries.
    fn deliver(&mut self, tail: usize, result: u8, Ghost(chain): Ghost<Seq<usize>>) -> (r: usize)
        requires
            old(self).memory().ok(old(self).pending()),
            crate::memory::linked(old(self).memory().nodes, tail, chain),
            forall|i: int|
                #![trigger chain[i]]
                0 <= i < chain.len() ==> old(self).memory().mine.contains(chain[i]),
            result == 0 && old(self).memory().discipline is Limited ==> old(
                self,
            ).memory().spare.minus(
                crate::memory::load(
                    old(self).memory().discipline,
                    old(self).memory().nodes,
                    chain,
                    chain.len() as int,
                ),
            ).valid(),
        ensures
            final(self).memory().ok(final(self).pending()),
            final(self).pending() == old(self).pending(),
            final(self).room() == old(self).room(),
            final(self).marks() == old(self).marks(),
            old(self).memory().delivers(final(self).memory(), chain, result),
            r == chain.len(),
    {
        let ghost first = self.memory();
        let mut entry: usize = tail;
        let mut number: usize = 0;
        proof {
            crate::memory::lemma_chain_len(first.nodes, tail, chain);
            first.lemma_delivers_none(result);
            assert(chain.skip(chain.len() as int) =~= Seq::empty());
        }
        while entry != 0
            invariant
                self.memory().ok(self.pending()),
                self.pending() == old(self).pending(),
                self.room() == old(self).room(),
                self.marks() == old(self).marks(),
                first == old(self).memory(),
                first.wf(),
                crate::memory::linked(first.nodes, tail, chain),
                forall|i: int|
                    #![trigger chain[i]]
                    0 <= i < chain.len() ==> first.mine.contains(chain[i]),
                result == 0 && first.discipline is Limited ==> first.spare.minus(
                    crate::memory::load(
                        first.discipline,
                        first.nodes,
                        chain,
                        chain.len() as int,
                    ),
                ).valid(),
                chain.len() <= usize::MAX,
                number <= chain.len(),
                entry == 0 <==> number == chain.len(),
                number < chain.len() ==> entry == chain[chain.len() - 1 - number],
                first.delivers(self.memory(), chain.skip(chain.len() - number), result),
            decreases chain.len() - number,
        {
            let ghost now = self.memory();
            let ghost index: int = chain.len() - 1 - number;
            proof {
                first.lemma_delivers(now, chain, index, result);
                if index > 0 {
                    assert(first.nodes[chain[index]].next == chain[index - 1]);
                }
            }
            // The entry can be dropped by its owner once the result is set.
            let next: usize = self.next_entry(entry);
            self.set_result(entry, result);
            entry = next;
            number = number + 1;
        }
        proof {
            assert(chain.skip(0) =~= chain);
        }
        number
    }

    /// Empties the wait queue and stops processing it, unless the state has changed.
    fn try_reset(&mut self, seen: usize, next_state: usize) -> (r: bool)
        requires
            old(self).memory().ok(old(self).pending()),
            old(self).memory().held,
            old(self).memory().discipline is Limited,
            old(self).memory().word == seen,
            next_state < 64,
            Tally::gain(old(self).memory().discipline, seen, next_state).valid(),
        ensures
            final(self).memory().ok(final(self).pending()),
            final(self).pending() <= old(self).pending(),
            final(self).room() == old(self).room(),
            final(self).marks() == old(self).marks(),
            r ==> {
                let mid = Memory { nodes: final(self).memory().nodes, ..old(self).memory() };
                &&& old(self).memory().rely(mid)
                &&& mid != old(self).memory() ==> final(self).pending() < old(self).pending()
                &&& final(self).memory() == (Memory {
                    held: false,
                    mine: old(self).memory().mine.union(old(self).memory().queue().to_set()),
                    ..mid.counted(next_state)
                })
                &&& final(self).memory().queue() == Seq::<usize>::empty()
            },
            !r ==> {
                &&& old(self).memory().rely(final(self).memory())
                &&& final(self).pending() < old(self).pending()
            },
    {
        let ghost first = self.memory();
        proof {
            assert forall|mid: Memory| #[trigger]
                first.rely(mid) && mid.word == seen implies mid.may_swap(
                next_state,
            ) && mid.queue() == first.queue() && mid.swapped(next_state).queue() == Seq::<
                usize,
            >::empty() && mid.swapped(next_state).mine == mid.mine.union(mid.queue().to_set())
                && !mid.swapped(next_state).held by {
                first.lemma_rely_same_tail(mid);
                mid.lemma_may_reset(next_state);
            }
        }
        self.compare_exchange(seen, next_state).is_ok()
    }

    /// Finds the oldest entries that can be served.
    ///
    /// Returns `(transferred, resolved, entry, all)` where `transferred` is the number of resources
    /// that the entries older than `entry` will hold, `resolved` is the newest of them, and `all`
    /// tells whether `entry` is the newest entry and can be served, too.
    fn find_servable(&self, seen: usize, head: usize) -> (r: (
        usize,
        usize,
        usize,
        bool,
        Ghost<int>,
    ))
        requires
            self.memory().ok(self.pending()),
            self.memory().held,
            self.memory().discipline is Limited,
            self.memory().word == seen,
            self.memory().backlinked(self.memory().queue().len() - 1),
            head == self.memory().queue()[0],
        ensures
            ({
                let memory = self.memory();
                let queue = memory.queue();
                let limit = memory.discipline->limit;
                let number = r.4@;
                &&& crate::memory::fits(limit, memory.data(), memory.nodes, queue, number)
                &&& number < queue.len()
                &&& r.0 == crate::memory::demand(memory.nodes, queue, number)
                &&& memory.data() + r.0 <= 63
                &&& r.1 == (if number == 0 { 0 } else { queue[number - 1] })
                &&& r.2 == queue[number]
                &&& r.3 ==> {
                    &&& number == queue.len() - 1
                    &&& crate::memory::fits(limit, memory.data(), memory.nodes, queue, number + 1)
                    &&& memory.data() + crate::memory::demand(memory.nodes, queue, number + 1) <= 63
                }
                &&& !r.3 ==> crate::memory::greedy(
                    limit,
                    memory.data(),
                    memory.nodes,
                    queue,
                    number,
                )
            }),
    {
        let ghost memory = self.memory();
        let ghost queue = memory.queue();
        let ghost limit: nat = memory.discipline->limit;
        let data: usize = WaitQueue::data(seen);
        let max: usize = self.max_shared_owners();
        let mut transferred: usize = 0;
        let mut resolved: usize = 0;
        let mut entry: usize = head;
        let ghost mut number: int = 0;
        loop
            invariant
                memory == self.memory(),
                memory.ok(self.pending()),
                memory.held,
                memory.discipline is Limited,
                limit == memory.discipline->limit,
                max == limit,
                memory.word == seen,
                memory.backlinked(queue.len() - 1),
                queue == memory.queue(),
                data == memory.data(),
                0 <= number < queue.len(),
                entry == queue[number],
                resolved == (if number == 0 { 0 } else { queue[number - 1] }),
                transferred == crate::memory::demand(memory.nodes, queue, number),
                data + transferred <= 63,
                crate::memory::fits(limit, data as nat, memory.nodes, queue, number),
            decreases queue.len() - number,
        {
            proof {
                assert(queue.contains(queue[number]));
                assert(memory.nodes[queue[number]].opcode.valid());
                assert(crate::memory::demand(memory.nodes, queue, number + 1)
                    == crate::memory::demand(memory.nodes, queue, number)
                    + memory.nodes[queue[number]].opcode.held());
            }
            let prev: usize = self.prev_entry(entry);
            let opcode: Opcode = self.opcode(entry);
            let desired: usize = opcode.desired_count();
            let acquired: usize = opcode.release_count();
            if (data + transferred != 0 || desired > WaitQueue::DATA_MASK) && data + transferred
                + desired > max {
                return (transferred, resolved, entry, false, Ghost(number));
            }
            // The entry can inherit ownership.
            if prev == 0 {
                return (transferred, resolved, entry, true, Ghost(number));
            }
            transferred = transferred + acquired;
            resolved = entry;
            entry = prev;
            proof {
                number = number + 1;
            }
        }
    }

    /// Takes the entries that can be served out of the wait queue.
    fn serve(&mut self, seen: usize, head: usize) -> (r: Round)
        requires
            old(self).memory().ok(old(self).pending()),
            old(self).memory().held,
            old(self).memory().discipline is Limited,
            old(self).memory().word == seen,
            old(self).memory().backlinked(old(self).memory().queue().len() - 1),
            head == old(self).memory().queue()[0],
        ensures
            final(self).memory().ok(final(self).pending()),
            final(self).pending() <= old(self).pending(),
            final(self).room() == old(self).room(),
            final(self).marks() == old(self).marks(),
            old(self).memory().serves(final(self).memory(), r),
            r.reset_failed ==> final(self).pending() < old(self).pending(),
            old(self).pending() == 0 ==> !r.reset_failed && crate::memory::same_bodies(
                old(self).memory().nodes,
                final(self).memory().nodes,
            ),
    {
        let ghost first = self.memory();
        let ghost queue = first.queue();
        let (transferred, resolved, entry, all, Ghost(number)) = self.find_servable(seen, head);
        let mut reset_failed: bool = false;
        if all {
            // This is the tail of the wait queue: try to reset.
            let data: usize = WaitQueue::data(seen);
            let opcode: Opcode = self.opcode(entry);
            let acquired: usize = opcode.release_count();
            proof {
                assert(crate::memory::demand(first.nodes, queue, number + 1)
                    == crate::memory::demand(first.nodes, queue, number)
                    + first.nodes[queue[number]].opcode.held());
                crate::memory::lemma_load_gain(
                    first.discipline,
                    first.data(),
                    first.data(),
                    first.nodes,
                    queue,
                    number + 1,
                );
                let next_state = (data + transferred + acquired) as usize;
                WaitQueue::lemma_compose(next_state, 0, false, next_state as nat);
                reveal(Tally::gain);
            }
            if self.try_reset(seen, data + transferred + acquired) {
                // The wait queue was reset.
                let round: Round = Round {
                    unlocked: true,
                    reset_failed: false,
                    transferred: transferred + acquired,
                    resolved: entry,
                    head: 0,
                    number: Ghost(number + 1),
                };
                proof {
                    first.lemma_serves_all(self.memory(), round);
                }
                return round;
            }
            // This entry will be processed on a retry.
            reset_failed = true;
        } else {
            proof {
                first.lemma_rely_reflexive();
            }
        }
        // Unlink those that have succeeded in acquiring shared ownership.
        let ghost now = self.memory();
        proof {
            assert(now.queue()[number] == queue[number]);
            now.lemma_may_cut(number);
            assert forall|e: usize| #[trigger]
                now.queue().skip(number).contains(e) implies now.queue().contains(
                e,
            ) by {
                let i = now.queue().skip(number).index_of(e);
                assert(now.queue()[i + number] == e);
            }
        }
        self.update_next_entry(entry, 0);
        let round: Round = Round {
            unlocked: false,
            reset_failed,
            transferred,
            resolved,
            head: entry,
            number: Ghost(number),
        };
        proof {
            first.lemma_serves(now, round);
        }
        round
    }

    /// Hands over the resources and stops processing the wait queue, unless resources have been
    /// released in the meantime.
    fn try_finish(&mut self, data: usize, transferred: usize) -> (r: bool)
        requires
            old(self).memory().ok(old(self).pending()),
            old(self).memory().held,
            old(self).memory().discipline is Limited,
            old(self).memory().data() == data,
            data + transferred <= 63,
            !crate::memory::admits(
                old(self).memory().discipline->limit,
                (data + transferred) as nat,
                old(self).memory().nodes[old(self).memory().queue()[0]].opcode,
            ),
            Tally::of(old(self).memory().discipline, (data + transferred) as nat).minus(
                Tally::of(old(self).memory().discipline, data as nat),
            ).valid(),
        ensures
            final(self).memory().ok(final(self).pending()),
            final(self).pending() <= old(self).pending(),
            final(self).room() == old(self).room(),
            final(self).marks() == old(self).marks(),
            r ==> {
                let mid = Memory {
                    word: (final(self).memory().word + 64 - transferred) as usize,
                    nodes: final(self).memory().nodes,
                    ..old(self).memory()
                };
                &&& old(self).memory().rely(mid)
                &&& mid != old(self).memory() ==> final(self).pending() < old(self).pending()
                &&& final(self).memory() == (Memory { held: false, ..mid.counted(final(self).memory().word) })
                &&& final(self).memory().queue() == mid.queue()
                &&& mid.data() == data
                &&& final(self).memory().data() == data + transferred
                &&& !WaitQueue::flagged(final(self).memory().word)
            },
            !r ==> {
                &&& old(self).memory().rely(final(self).memory())
                &&& final(self).pending() < old(self).pending()
            },
    {
        let ghost first = self.memory();
        let mut current: usize = self.load();
        loop
            invariant
                self.memory().ok(self.pending()),
                self.pending() <= old(self).pending(),
                self.room() == old(self).room(),
                self.marks() == old(self).marks(),
                first == old(self).memory(),
                first.wf(),
                first.held,
                first.discipline is Limited,
                first.data() == data,
                data + transferred <= 63,
                !crate::memory::admits(
                    first.discipline->limit,
                    (data + transferred) as nat,
                    first.nodes[first.queue()[0]].opcode,
                ),
                Tally::of(first.discipline, (data + transferred) as nat).minus(
                    Tally::of(first.discipline, data as nat),
                ).valid(),
                first.rely(self.memory()),
                self.memory() != first ==> self.pending() < old(self).pending(),
                current == self.memory().word,
            decreases self.pending(),
        {
            if WaitQueue::data(current) != data {
                return false;
            }
            let tail: usize = WaitQueue::addr(current);
            let ghost now = self.memory();
            proof {
                WaitQueue::lemma_split(current);
            }
            let next_state: usize = tail + data + transferred;
            proof {
                WaitQueue::lemma_compose(next_state, tail, false, (data + transferred) as nat);
                assert(Tally::gain(first.discipline, current, next_state).valid()) by {
                    reveal(Tally::gain);
                }
                assert forall|mid: Memory| #[trigger]
                    now.rely(mid) && mid.word == current implies mid.may_swap(
                    next_state,
                ) && mid.swapped(next_state) == (Memory { held: false, ..mid.counted(next_state) })
                    && mid.swapped(next_state).queue() == mid.queue() by {
                    first.lemma_rely_transitive(now, mid);
                    assert(first.queue().len() > 0);
                    assert(mid.queue()[0] == first.queue()[0]);
                    assert(mid.nodes[first.queue()[0]] == first.nodes[first.queue()[0]]);
                    mid.lemma_may_unlock(next_state);
                }
            }
            match self.compare_exchange(current, next_state) {
                Ok(_) => {
                    proof {
                        let mid = Memory { word: current, nodes: self.memory().nodes, ..now };
                        first.lemma_rely_transitive(now, mid);
                        assert(mid == Memory { word: current, nodes: self.memory().nodes, ..first });
                    }
                    return true;
                },
                Err(new_state) => {
                    proof {
                        first.lemma_rely_transitive(now, self.memory());
                    }
                    current = new_state;
                },
            }
        }
    }

    /// Adds the resources of the served entries, and stops processing the wait queue if nobody
    /// else can be served.
    ///
    /// Returns `(unlocked, seen)`.
    #[verifier::spinoff_prover]
    #[verifier::rlimit(80)]
    fn conclude(&mut self, seen: usize, round: &Round, Ghost(ready): Ghost<Memory>) -> (r: (
        bool,
        usize,
    ))
        requires
            old(self).memory().ok(old(self).pending()),
            ready.wf(),
            ready.held,
            ready.discipline is Limited,
            ready.word == seen,
            ready.serves(old(self).memory(), *round),
        ensures
            final(self).memory().ok(final(self).pending()),
            final(self).pending() <= old(self).pending(),
            final(self).room() == old(self).room(),
            final(self).marks() == old(self).marks(),
            ready.concludes(final(self).memory(), *round, r.0),
            !r.0 ==> final(self).memory().word == r.1,
            !r.0 && !round.reset_failed ==> final(self).pending() < old(self).pending(),
            old(self).pending() == 0 && !round.reset_failed && crate::memory::same_bodies(
                ready.nodes,
                old(self).memory().nodes,
            ) ==> ready.concludes_alone(final(self).memory(), *round),
    {
        let ghost taken = self.memory();
        if round.unlocked {
            proof {
                ready.lemma_concludes_all(taken, *round);
            }
            return (true, seen);
        }
        proof {
            ready.lemma_serves_rest(taken, *round);
            taken.lemma_rely_reflexive();
        }
        if !round.reset_failed {
            let data: usize = WaitQueue::data(seen);
            proof {
                crate::memory::lemma_load_gain(
                    ready.discipline,
                    ready.data(),
                    ready.data(),
                    ready.nodes,
                    ready.queue(),
                    round.number@,
                );
            }
            if self.try_finish(data, round.transferred) {
                proof {
                    let mid = Memory {
                        word: (self.memory().word + 64 - round.transferred) as usize,
                        nodes: self.memory().nodes,
                        ..taken
                    };
                    ready.lemma_concludes_rest(taken, mid, self.memory(), *round, true);
                }
                return (true, seen);
            }
        }
        let ghost now = self.memory();
        proof {
            assert forall|mid: Memory| #[trigger] now.rely(mid) implies {
                let word = (mid.word + round.transferred) as usize;
                &&& mid.word + round.transferred <= usize::MAX
                &&& mid.may_swap(word)
                &&& mid.swapped(word) == mid.counted(word)
                &&& mid.swapped(word).queue() == mid.queue()
                &&& mid.swapped(word).data() == mid.data() + round.transferred
                &&& WaitQueue::flagged(word)
            } by {
                WaitQueue::lemma_raise(mid.word, round.transferred);
                crate::memory::lemma_load_gain(
                    ready.discipline,
                    ready.data(),
                    mid.data(),
                    ready.nodes,
                    ready.queue(),
                    round.number@,
                );
                assert(Tally::gain(
                    mid.discipline,
                    mid.word,
                    (mid.word + round.transferred) as usize,
                ).valid()) by {
                    reveal(Tally::gain);
                }
                mid.lemma_may_add((mid.word + round.transferred) as usize);
            }
        }
        let before: usize = self.fetch_add(round.transferred);
        proof {
            let mid = Memory { word: before, nodes: self.memory().nodes, ..now };
            taken.lemma_rely_transitive(now, mid);
            ready.lemma_concludes_rest(taken, mid, self.memory(), *round, false);
        }
        (false, before + round.transferred)
    }

    /// Serves waiting entries once, and stops processing the wait queue if nobody else can be
    /// served.
    ///
    /// Returns `(unlocked, seen, head)`.
    fn process_once(&mut self, seen: usize, head: usize, Ghost(linked): Ghost<int>) -> (r: (
        bool,
        usize,
        usize,
        Ghost<int>,
    ))
        requires
            old(self).memory().ok(old(self).pending()),
            old(self).memory().held,
            old(self).memory().discipline is Limited,
            old(self).memory().word == seen,
            head != 0 ==> head == old(self).memory().queue()[0] && old(self).memory().backlinked(
                linked,
            ),
        ensures
            final(self).memory().ok(final(self).pending()),
            final(self).pending() <= old(self).pending(),
            final(self).room() == old(self).room(),
            final(self).marks() == old(self).marks(),
            exists|served: Seq<usize>| #[trigger]
                old(self).memory().progresses(final(self).memory(), served),
            r.0 ==> {
                &&& !final(self).memory().held
                &&& !WaitQueue::flagged(final(self).memory().word)
                &&& old(self).pending() == 0 ==> exists|number: int| #[trigger]
                    old(self).memory().hands_off(final(self).memory(), number)
            },
            !r.0 ==> {
                &&& final(self).memory().held
                &&& final(self).memory().word == r.1
                &&& final(self).memory().queue()[0] == r.2
                &&& final(self).memory().backlinked(r.3@)
                &&& final(self).pending() < old(self).pending()
            },
    {
        let ghost start = self.memory();
        let tail: usize = WaitQueue::addr(seen);
        let mut head: usize = head;
        if head == 0 {
            head = self.link_entries(tail);
        } else {
            self.set_prev_ptr(tail, Ghost(linked));
        }
        let ghost ready = self.memory();
        let round: Round = self.serve(seen, head);
        let ghost chain = ready.queue().take(round.number@);
        proof {
            ready.lemma_serves_owns(self.memory(), round);
        }
        let (unlocked, seen) = self.conclude(seen, &round, Ghost(ready));
        let ghost end = self.memory();
        proof {
            ready.lemma_concludes_owns(end, round, unlocked);
        }
        self.deliver(round.resolved, 0, Ghost(chain));
        let ghost new = self.memory();
        proof {
            ready.lemma_progresses(end, new, round, unlocked);
            start.lemma_progresses_prev(ready, new, chain);
            if unlocked && old(self).pending() == 0 {
                ready.lemma_hands_off(end, new, round);
                start.lemma_hands_off_prev(ready, new, round.number@);
            }
            if !unlocked {
                end.lemma_backlinked_delivers(
                    new,
                    chain,
                    ready.queue().len() - 1 - round.number@,
                );
            }
        }
        (unlocked, seen, round.head, Ghost(ready.queue().len() - 1 - round.number@))
    }

    /// Processes the wait queue.
    fn process_wait_queue(&mut self, seen: usize)
        requires
            old(self).memory().ok(old(self).pending()),
            old(self).memory().held,
            old(self).memory().discipline is Limited,
            old(self).memory().word == seen,
        ensures
            final(self).memory().ok(final(self).pending()),
            final(self).pending() <= old(self).pending(),
            final(self).room() == old(self).room(),
            final(self).marks() == old(self).marks(),
            !final(self).memory().held,
            !WaitQueue::flagged(final(self).memory().word),
            exists|served: Seq<usize>| #[trigger]
                old(self).memory().progresses(final(self).memory(), served),
            old(self).pending() == 0 ==> exists|number: int| #[trigger]
                old(self).memory().hands_off(final(self).memory(), number),
    {
        let ghost first = self.memory();
        let mut seen: usize = seen;
        let mut head: usize = 0;
        let mut unlocked: bool = false;
        let mut linked: Ghost<int> = Ghost(0);
        proof {
            let none = Seq::<usize>::empty();
            assert(none + first.queue() =~= first.queue());
            assert(first.calls(first)) by {
                reveal(Memory::calls);
            }
            assert(first.progresses(first, none));
        }
        while !unlocked
            invariant
                self.memory().ok(self.pending()),
                self.pending() <= old(self).pending(),
                self.room() == old(self).room(),
                self.marks() == old(self).marks(),
                first == old(self).memory(),
                first.discipline is Limited,
                exists|served: Seq<usize>| #[trigger] first.progresses(self.memory(), served),
                !unlocked ==> {
                    &&& self.memory().held
                    &&& self.memory().word == seen
                    &&& head != 0 ==> head == self.memory().queue()[0] && self.memory().backlinked(
                        linked@,
                    )
                },
                unlocked ==> !self.memory().held && !WaitQueue::flagged(self.memory().word),
                old(self).pending() == 0 && !unlocked ==> self.memory() == first,
                old(self).pending() == 0 && unlocked ==> exists|number: int| #[trigger]
                    first.hands_off(self.memory(), number),
            decreases self.pending(), (if unlocked { 0int } else { 1 }),
        {
            let ghost start = self.memory();
            let ghost before = choose|served: Seq<usize>| #[trigger]
                first.progresses(start, served);
            let (new_unlocked, new_state, new_head, new_linked) = self.process_once(
                seen,
                head,
                linked,
            );
            unlocked = new_unlocked;
            seen = new_state;
            head = new_head;
            linked = new_linked;
            proof {
                let after = choose|served: Seq<usize>| #[trigger]
                    start.progresses(self.memory(), served);
                first.lemma_progresses_transitive(start, self.memory(), before, after);
            }
        }
    }

    /// Releases resources represented by the supplied operation mode.
    ///
    /// Returns `false` if the resource cannot be released.
    fn release_loop(&mut self, seen: usize, mode: Opcode) -> (r: bool)
        requires
            old(self).memory().ok(old(self).pending()),
            old(self).memory().discipline is Limited,
            !old(self).memory().held,
            old(self).memory().word == seen,
        ensures
            final(self).memory().ok(final(self).pending()),
            final(self).pending() <= old(self).pending(),
            final(self).room() == old(self).room(),
            final(self).marks() == old(self).marks(),
            r ==> exists|mid: Memory| #[trigger]
                old(self).memory().rely(mid) && mid.releases(
                    final(self).memory(),
                    mode,
                    old(self).pending() == 0,
                ) && (old(self).pending() == 0 ==> mid == old(self).memory()),
            !r ==> {
                &&& old(self).memory().rely(final(self).memory())
                &&& !mode.releasable(final(self).memory().data())
                &&& old(self).pending() == 0 ==> final(self).memory() == old(self).memory()
            },
    {
        let ghost first = self.memory();
        let mut seen: usize = seen;
        let number: usize = mode.release_count();
        proof {
            first.lemma_rely_reflexive();
        }
        while mode.can_release(seen)
            invariant
                self.memory().ok(self.pending()),
                self.pending() <= old(self).pending(),
                self.room() == old(self).room(),
                self.marks() == old(self).marks(),
                first == old(self).memory(),
                first.wf(),
                first.discipline is Limited,
                !first.held,
                number == mode.held(),
                seen == self.memory().word,
                first.rely(self.memory()),
                self.memory() != first ==> self.pending() < old(self).pending(),
            decreases self.pending(),
        {
            let ghost now = self.memory();
            if WaitQueue::addr(seen) == 0 || WaitQueue::locked(seen) {
                // Release the resource in-place.
                let next_state: usize = seen - number;
                proof {
                    assert forall|mid: Memory| #[trigger]
                        now.rely(mid) && mid.word == seen implies mid.may_swap(next_state)
                        && mid.swapped(next_state) == mid.counted(next_state) by {
                        mid.lemma_may_release(next_state);
                    }
                }
                match self.compare_exchange(seen, next_state) {
                    Ok(_) => {
                        proof {
                            let mid = Memory { word: seen, nodes: self.memory().nodes, ..now };
                            first.lemma_rely_transitive(now, mid);
                            assert(mid.releases(self.memory(), mode, old(self).pending() == 0));
                        }
                        return true;
                    },
                    Err(new_state) => {
                        proof {
                            first.lemma_rely_transitive(now, self.memory());
                        }
                        seen = new_state;
                    },
                }
            } else {
                // The wait queue is not empty and not being processed.
                let locked_state: usize = WaitQueue::with_locked(seen);
                let next_state: usize = locked_state - number;
                proof {
                    WaitQueue::lemma_reduce(locked_state, next_state);
                    assert forall|mid: Memory| #[trigger]
                        now.rely(mid) && mid.word == seen implies mid.may_swap(next_state)
                        && mid.swapped(next_state) == (Memory { held: true, ..mid.counted(next_state) }) by {
                        mid.lemma_may_lock(next_state);
                    }
                }
                match self.compare_exchange(seen, next_state) {
                    Ok(_) => {
                        let ghost mid = Memory { word: seen, nodes: self.memory().nodes, ..now };
                        let ghost locked = self.memory();
                        self.process_wait_queue(next_state);
                        proof {
                            first.lemma_rely_transitive(now, mid);
                            assert(locked == Memory { held: true, ..mid.counted(next_state) });
                            assert(mid.releases(self.memory(), mode, old(self).pending() == 0));
                        }
                        return true;
                    },
                    Err(new_state) => {
                        proof {
                            first.lemma_rely_transitive(now, self.memory());
                        }
                        seen = new_state;
                    },
                }
            }
        }
        false
    }

    /// Releases resources represented by the supplied operation mode, which is easy if nobody waits
    /// and nobody else holds any resources.
    ///
    /// Returns `false` if the resource cannot be released.
    fn release_mode(&mut self, mode: Opcode) -> (r: bool)
        requires
            old(self).memory().ok(old(self).pending()),
            old(self).memory().discipline is Limited,
            !old(self).memory().held,
            mode.held() <= 63,
            mode is Shared || mode is Exclusive || mode is Semaphore,
        ensures
            final(self).memory().ok(final(self).pending()),
            final(self).pending() <= old(self).pending(),
            final(self).room() == old(self).room(),
            final(self).marks() == old(self).marks(),
            !final(self).memory().held,
            final(self).memory().discipline == old(self).memory().discipline,
            r ==> exists|mid: Memory| #[trigger]
                old(self).memory().rely(mid) && mid.releases(
                    final(self).memory(),
                    mode,
                    old(self).pending() == 0,
                ) && (old(self).pending() == 0 ==> mid == old(self).memory()),
            !r ==> {
                &&& old(self).memory().rely(final(self).memory())
                &&& !mode.releasable(final(self).memory().data())
                &&& old(self).pending() == 0 ==> final(self).memory() == old(self).memory()
            },
            old(self).pending() == 0 ==> r == mode.releasable(old(self).memory().data()),
    {
        let ghost first = self.memory();
        let held: usize = mode.release_count();
        proof {
            WaitQueue::lemma_compose(held, 0, false, mode.held());
            assert forall|mid: Memory| #[trigger]
                first.rely(mid) && mid.word == held implies mid.may_swap(
                0,
            ) && mid.swapped(0) == mid.counted(0) by {
                mid.lemma_may_release(0);
            }
        }
        match self.compare_exchange(held, 0) {
            Ok(_) => {
                proof {
                    let mid = Memory { word: held, nodes: self.memory().nodes, ..first };
                    assert(first.rely(mid));
                    assert(mid.releases(self.memory(), mode, old(self).pending() == 0));
                }
                true
            },
            Err(seen) => {
                let ghost now = self.memory();
                let released: bool = self.release_loop(seen, mode);
                proof {
                    let alone = old(self).pending() == 0;
                    if released {
                        let mid = choose|mid: Memory| #[trigger]
                            now.rely(mid) && mid.releases(self.memory(), mode, alone) && (alone
                                ==> mid == now);
                        first.lemma_rely_transitive(now, mid);
                        assert(first.rely(mid) && mid.releases(self.memory(), mode, alone));
                        mid.lemma_releases_continues(self.memory(), mode, alone);
                    } else {
                        first.lemma_rely_transitive(now, self.memory());
                    }
                }
                released
            },
        }
    }

    /// Looks for an entry in the wait queue, and links it to its neighbours.
    fn find_entry(&mut self, tail: usize, target: usize) -> (r: bool)
        requires
            old(self).memory().ok(old(self).pending()),
            old(self).memory().held,
            tail == old(self).memory().tail(),
        ensures
            final(self).memory().ok(final(self).pending()),
            final(self).pending() == old(self).pending(),
            final(self).room() == old(self).room(),
            final(self).marks() == old(self).marks(),
            old(self).memory().differs_in_prev(final(self).memory()),
            r == old(self).memory().queue().contains(target),
            r ==> {
                let queue = old(self).memory().queue();
                let index = queue.index_of(target);
                final(self).memory().nodes[target].prev == (if index == queue.len() - 1 {
                    0
                } else {
                    queue[index + 1]
                })
            },
    {
        let ghost first = self.memory();
        let ghost queue = first.queue();
        let mut entry: usize = tail;
        let ghost mut index: int = queue.len() - 1;
        while entry != 0
            invariant
                self.memory().ok(self.pending()),
                self.pending() == old(self).pending(),
                self.room() == old(self).room(),
                self.marks() == old(self).marks(),
                first == old(self).memory(),
                first.wf(),
                first.held,
                queue == first.queue(),
                first.differs_in_prev(self.memory()),
                -1 <= index < queue.len(),
                entry == (if index < 0 { 0 } else { queue[index] }),
                0 <= index < queue.len() - 1 ==> self.memory().nodes[queue[index]].prev
                    == queue[index + 1],
                forall|i: int|
                    #![trigger queue[i]]
                    index < i < queue.len() ==> queue[i] != target,
            decreases index + 1,
        {
            let ghost now = self.memory();
            proof {
                assert(queue.contains(queue[index]));
                assert(now.nodes[queue.last()].prev == 0);
            }
            let next: usize = self.next_entry(entry);
            proof {
                if index > 0 {
                    assert(now.nodes[queue[index]].next == queue[index - 1]);
                    assert(queue.contains(queue[index - 1]));
                    assert(queue[index - 1] != queue[queue.len() - 1]);
                }
            }
            if next != 0 {
                proof {
                    first.lemma_differs_in_prev(now, next, entry);
                }
                self.update_prev_entry(next, entry);
            }
            if entry == target {
                proof {
                    assert(queue.index_of(target) == index);
                }
                return true;
            }
            entry = next;
            proof {
                index = index - 1;
            }
        }
        proof {
            if queue.contains(target) {
                let i = queue.index_of(target);
                assert(queue[i] == target);
            }
        }
        false
    }

    /// Removes a wait queue entry from the wait queue, unless the state has changed.
    #[verifier::spinoff_prover]
    #[verifier::rlimit(60)]
    fn try_remove_wait_queue_entry(&mut self, seen: usize, target: usize, refund: usize) -> (r:
        Result<(usize, bool), usize>)
        requires
            old(self).memory().ok(old(self).pending()),
            old(self).memory().held,
            old(self).memory().word == seen,
            old(self).memory().may_remove(target, refund as nat),
        ensures
            final(self).memory().ok(final(self).pending()),
            final(self).pending() <= old(self).pending(),
            final(self).room() == old(self).room(),
            final(self).marks() == old(self).marks(),
            r matches Ok((word, removed)) ==> {
                &&& final(self).memory().word == word
                &&& removed ==> old(self).memory().removes(
                    final(self).memory(),
                    target,
                    old(self).pending() == 0,
                )
                &&& !removed ==> {
                    &&& !old(self).memory().queue().contains(target)
                    &&& old(self).memory().differs_in_prev(final(self).memory())
                }
            },
            r matches Err(word) ==> {
                &&& old(self).memory().queue().contains(target)
                &&& old(self).memory().drifts(final(self).memory())
                &&& final(self).memory().word == word
                &&& final(self).pending() < old(self).pending()
            },
    {
        let ghost first = self.memory();
        let tail: usize = WaitQueue::addr(seen);
        proof {
            first.lemma_drifts_reflexive();
        }
        if !self.find_entry(tail, target) {
            return Ok((seen, false));
        }
        let ghost found = self.memory();
        let ghost queue = found.queue();
        let ghost index = queue.index_of(target);
        proof {
            first.lemma_drifts_prev(first, found);
            first.lemma_same_bodies_prev(found);
            assert(queue[index] == target);
            assert(found.nodes.dom().contains(target));
        }
        let prev: usize = self.prev_entry(target);
        let next: usize = self.next_entry(target);
        proof {
            if index > 0 {
                assert(found.nodes[queue[index]].next == queue[index - 1]);
                assert(queue.contains(queue[index - 1]));
                assert(queue[index - 1] != queue[queue.len() - 1]);
                first.lemma_differs_in_prev(found, queue[index - 1], prev);
            }
        }
        if next != 0 {
            self.update_prev_entry(next, prev);
        }
        let ghost ready = self.memory();
        proof {
            first.lemma_drifts_prev(first, ready);
            first.lemma_same_bodies_prev(ready);
            assert(ready.nodes[target] == found.nodes[target]);
        }
        if prev != 0 {
            proof {
                assert(queue.contains(queue[index + 1]));
                ready.lemma_may_bypass(index);
                first.lemma_removes_bypass(ready, target, index);
                crate::memory::lemma_remove_contains(ready.queue(), index);
            }
            self.update_next_entry(prev, next);
            return Ok((seen, true));
        }
        let next_state: usize = if next != 0 {
            proof {
                assert(WaitQueue::aligned(next)) by {
                    assert(ready.queue()[index - 1] == next);
                }
            }
            WaitQueue::with_addr(seen, next)
        } else {
            proof {
                if first.discipline is Barrier {
                    assert(crate::memory::demand(first.nodes, queue, 1) == crate::memory::demand(
                        first.nodes,
                        queue,
                        0,
                    ) + first.nodes[queue[0]].opcode.held());
                }
            }
            WaitQueue::data(seen) + refund
        };
        proof {
            assert(index == queue.len() - 1);
            assert forall|mid: Memory| #[trigger] ready.rely(mid) && mid.word == seen implies {
                &&& mid.may_swap(next_state)
                &&& mid.swapped(next_state).word == next_state
                &&& first.removes(mid.swapped(next_state), target, false)
                &&& mid == ready ==> first.removes(mid.swapped(next_state), target, true)
            } by {
                first.lemma_removes_last(ready, mid, next_state, target, refund as nat);
            }
        }
        match self.compare_exchange(seen, next_state) {
            Ok(_) => Ok((next_state, true)),
            Err(new_state) => {
                proof {
                    first.lemma_drifts_rely(ready, self.memory());
                }
                Err(new_state)
            },
        }
    }

    /// Removes a wait queue entry from the wait queue.
    ///
    /// `refund` resources are added if the wait queue becomes empty.
    fn remove_wait_queue_entry(&mut self, seen: usize, target: usize, refund: usize) -> (r: (
        usize,
        bool,
    ))
        requires
            old(self).memory().ok(old(self).pending()),
            old(self).memory().held,
            old(self).memory().word == seen,
            old(self).memory().may_remove(target, refund as nat),
        ensures
            final(self).memory().ok(final(self).pending()),
            final(self).pending() <= old(self).pending(),
            final(self).room() == old(self).room(),
            final(self).marks() == old(self).marks(),
            final(self).memory().word == r.0,
            r.1 ==> old(self).memory().removes(
                final(self).memory(),
                target,
                old(self).pending() == 0,
            ),
            !r.1 ==> {
                &&& !old(self).memory().queue().contains(target)
                &&& old(self).memory().differs_in_prev(final(self).memory())
            },
    {
        let ghost first = self.memory();
        let mut seen: usize = seen;
        proof {
            first.lemma_drifts_reflexive();
        }
        loop
            invariant
                self.memory().ok(self.pending()),
                self.pending() <= old(self).pending(),
                self.room() == old(self).room(),
                self.marks() == old(self).marks(),
                first == old(self).memory(),
                first.wf(),
                first.held,
                first.may_remove(target, refund as nat),
                first.drifts(self.memory()),
                self.memory().word == seen,
                self.memory() != first ==> {
                    &&& self.pending() < old(self).pending()
                    &&& first.queue().contains(target)
                },
            decreases self.pending(),
        {
            let ghost start = self.memory();
            proof {
                first.lemma_drifts_contains(start, target, refund as nat);
            }
            match self.try_remove_wait_queue_entry(seen, target, refund) {
                Ok((new_state, removed)) => {
                    proof {
                        if removed && start != first {
                            first.lemma_removes_drift(start, self.memory(), target);
                        }
                    }
                    return (new_state, removed);
                },
                Err(new_state) => {
                    proof {
                        first.lemma_drifts_transitive(start, self.memory());
                    }
                    seen = new_state;
                },
            }
        }
    }

    /// Withdraws an entry from the wait queue.
    ///
    /// Returns `false` if the entry had already left the wait queue.
    fn withdraw(&mut self, entry: usize) -> (r: bool)
        requires
            old(self).memory().ok(old(self).pending()),
            old(self).memory().discipline is Limited,
            !old(self).memory().held,
            old(self).memory().own.contains(entry),
            !old(self).memory().mine.contains(entry),
        ensures
            final(self).memory().ok(final(self).pending()),
            final(self).pending() <= old(self).pending(),
            final(self).room() == old(self).room(),
            final(self).marks() == old(self).marks(),
            r ==> exists|mid: Memory| #[trigger]
                old(self).memory().rely(mid) && mid.withdraws(
                    final(self).memory(),
                    entry,
                    old(self).pending() == 0,
                ) && (old(self).pending() == 0 ==> mid == old(self).memory()),
            r ==> {
                &&& final(self).memory().mine == old(self).memory().mine.insert(entry)
                &&& final(self).memory().own == old(self).memory().own
                &&& !final(self).memory().held
            },
            !r ==> {
                &&& old(self).memory().continues(final(self).memory())
                &&& !final(self).memory().queue().contains(entry)
                &&& old(self).pending() == 0 ==> {
                    &&& !old(self).memory().queue().contains(entry)
                    &&& old(self).memory().same_state(final(self).memory())
                }
            },
    {
        let ghost first = self.memory();
        let mut seen: usize = self.load();
        loop
            invariant
                self.memory().ok(self.pending()),
                self.pending() <= old(self).pending(),
                self.room() == old(self).room(),
                self.marks() == old(self).marks(),
                first == old(self).memory(),
                first.wf(),
                first.discipline is Limited,
                !first.held,
                first.own.contains(entry),
                !first.mine.contains(entry),
                first.rely(self.memory()),
                self.memory().word == seen,
                self.memory() != first ==> self.pending() < old(self).pending(),
            decreases self.pending(),
        {
            let ghost now = self.memory();
            if WaitQueue::addr(seen) == 0 {
                // The wait queue is empty.
                return false;
            }
            if WaitQueue::locked(seen) {
                // Another thread is processing the wait queue.
                self.yield_now();
                proof {
                    first.lemma_rely_transitive(now, self.memory());
                }
                let ghost then = self.memory();
                seen = self.load();
                proof {
                    first.lemma_rely_transitive(then, self.memory());
                }
                continue;
            }
            let next_state: usize = WaitQueue::with_locked(seen);
            proof {
                assert forall|mid: Memory| #[trigger]
                    now.rely(mid) && mid.word == seen implies mid.may_swap(
                    next_state,
                ) && mid.swapped(next_state) == (Memory { held: true, ..mid.counted(next_state) })
                    && mid.swapped(next_state).queue() == mid.queue() by {
                    mid.lemma_may_lock(next_state);
                }
            }
            match self.compare_exchange(seen, next_state) {
                Ok(_) => {
                    let ghost mid = Memory { word: seen, nodes: self.memory().nodes, ..now };
                    let ghost locked = self.memory();
                    proof {
                        first.lemma_rely_transitive(now, mid);
                        assert(locked == Memory { held: true, ..mid.counted(next_state) });
                    }
                    let (new_state, removed) = self.remove_wait_queue_entry(next_state, entry, 0);
                    let ghost gone = self.memory();
                    if WaitQueue::locked(new_state) {
                        // Need to process the wait queue if it is still locked.
                        self.process_wait_queue(new_state);
                    }
                    proof {
                        if removed {
                            assert(locked.removes(gone, entry, old(self).pending() == 0));
                            assert(mid.withdraws(self.memory(), entry, old(self).pending() == 0));
                        } else {
                            assert(gone.held);
                            let served = choose|served: Seq<usize>| #[trigger]
                                gone.progresses(self.memory(), served);
                            mid.lemma_withdraw_failed(gone, self.memory(), served, next_state);
                            if old(self).pending() == 0 {
                                let number = choose|number: int| #[trigger]
                                    gone.hands_off(self.memory(), number);
                                mid.lemma_settled_hands_off(gone, self.memory(), number);
                            }
                        }
                    }
                    return removed;
                },
                Err(new_state) => {
                    proof {
                        first.lemma_rely_transitive(now, self.memory());
                    }
                    seen = new_state;
                },
            }
        }
    }

    /// Cleans up a wait queue entry that was pushed into the wait queue, but whose result was not
    /// acknowledged.
    ///
    /// Returns the result that the entry had been handed before it could be withdrawn.
    fn cleanup_wait_queue(&mut self, entry: usize) -> (r: Option<u8>)
        requires
            old(self).memory().ok(old(self).pending()),
            old(self).memory().discipline is Limited,
            !old(self).memory().held,
            old(self).memory().own.contains(entry),
            !old(self).memory().mine.contains(entry),
        ensures
            final(self).memory().ok(final(self).pending()),
            final(self).pending() <= old(self).pending(),
            final(self).room() == old(self).room(),
            final(self).marks() == old(self).marks(),
            !final(self).memory().held,
            final(self).memory().own == old(self).memory().own,
            !final(self).memory().queue().contains(entry),
            r is None ==> final(self).memory().mine == old(self).memory().mine.insert(entry),
            r is None ==> exists|mid: Memory| #[trigger]
                old(self).memory().rely(mid) && mid.withdraws(
                    final(self).memory(),
                    entry,
                    old(self).pending() == 0,
                ) && (old(self).pending() == 0 ==> mid == old(self).memory()),
            r matches Some(result) ==> {
                &&& final(self).memory().mine == old(self).memory().mine
                &&& final(self).memory().nodes[entry].result == Some(result)
                &&& exists|mid: Memory| #[trigger]
                    old(self).memory().continues(mid) && mid.wf() && mid.nodes[entry].result == Some(result)
                        && mid.forgoes(
                        final(self).memory(),
                        old(self).memory().nodes[entry].opcode,
                        result,
                        old(self).pending() == 0,
                    ) && (old(self).pending() == 0 ==> old(self).memory().same_state(mid))
            },
            old(self).pending() == 0 ==> (r is None <==> old(self).memory().queue().contains(entry)),
            old(self).pending() == 0 && r is Some ==> r == old(self).memory().nodes[entry].result,
    {
        let ghost first = self.memory();
        if self.withdraw(entry) {
            proof {
                assert(self.memory().mine.contains(entry));
                let mid = choose|mid: Memory| #[trigger]
                    first.rely(mid) && mid.withdraws(
                        self.memory(),
                        entry,
                        old(self).pending() == 0,
                    ) && (old(self).pending() == 0 ==> mid == first);
                assert(mid.withdraws(self.memory(), entry, old(self).pending() == 0));
            }
            return None;
        }
        // The entry was removed from another thread, so will be completed.
        let ghost failed = self.memory();
        let mut result: Option<u8> = self.try_acknowledge_result(entry);
        proof {
            first.lemma_continues(failed, self.memory());
        }
        while result.is_none()
            invariant
                self.memory().ok(self.pending()),
                self.pending() <= old(self).pending(),
                self.room() == old(self).room(),
                self.marks() == old(self).marks(),
                first == old(self).memory(),
                first.own.contains(entry),
                !first.mine.contains(entry),
                first.continues(self.memory()),
                !self.memory().queue().contains(entry),
                result == self.memory().nodes[entry].result,
                old(self).pending() == 0 ==> self.memory() == failed,
            decreases self.pending(),
        {
            let ghost now = self.memory();
            proof {
                assert(now.own.contains(entry));
                assert(now.nodes.dom().contains(entry));
            }
            self.yield_now();
            let ghost then = self.memory();
            proof {
                first.lemma_continues(now, then);
            }
            result = self.try_acknowledge_result(entry);
            proof {
                first.lemma_continues(then, self.memory());
            }
        }
        let opcode: Opcode = self.opcode(entry);
        match result {
            Some(0) => {
                let ghost now = self.memory();
                let seen: usize = self.load();
                let ghost mid = self.memory();
                proof {
                    first.lemma_continues(now, mid);
                    assert(now.own.contains(entry));
                    assert(mid.own.contains(entry));
                }
                let released: bool = self.release_loop(seen, opcode);
                proof {
                    let new = self.memory();
                    let alone = old(self).pending() == 0;
                    if released {
                        let at = choose|at: Memory| #[trigger]
                            mid.rely(at) && at.releases(new, opcode, self.pending() == 0 && alone)
                                && (alone ==> at == mid);
                        first.lemma_continues(mid, at);
                        at.lemma_releases_continues(new, opcode, alone);
                        assert(at.own.contains(entry));
                        assert(at.forgoes(new, opcode, 0, alone));
                    } else {
                        first.lemma_continues(mid, new);
                        mid.lemma_continues(mid, new);
                        assert(mid.forgoes(new, opcode, 0, alone));
                    }
                }
            },
            _ => {
                proof {
                    assert(self.memory().forgoes(
                        self.memory(),
                        opcode,
                        result->0,
                        old(self).pending() == 0,
                    ));
                }
            },
        }
        result
    }

    /// Cleans up a wait queue entry whose result was not acknowledged, and destroys it.
    fn force_remove_wait_queue_entry(&mut self, entry: usize)
        requires
            old(self).memory().ok(old(self).pending()),
            old(self).memory().discipline is Limited,
            !old(self).memory().held,
            old(self).memory().own.contains(entry),
            !old(self).memory().mine.contains(entry),
        ensures
            final(self).memory().ok(final(self).pending()),
            final(self).pending() <= old(self).pending(),
            !final(self).memory().held,
            final(self).memory().discipline == old(self).memory().discipline,
            final(self).memory().own == old(self).memory().own.remove(entry),
            final(self).room() == old(self).room() + 1,
            final(self).marks() == old(self).marks().remove(entry),
            old(self).memory().cleans_up(final(self).memory(), entry, old(self).pending() == 0),
    {
        let ghost first = self.memory();
        let result: Option<u8> = self.cleanup_wait_queue(entry);
        let ghost done = self.memory();
        self.discard(entry);
        proof {
            assert(done.without_entry(entry) == self.memory());
        }
    }
}

} // verus!
