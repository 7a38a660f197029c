//! [`Barrier`] is a synchronization primitive that enables multiple tasks to start execution at the
//! same time.
use std::sync::atomic::Ordering;

use vstd::prelude::*;

use crate::arena::Arena;
use crate::arena::Policy;
use crate::memory::Entries;
use crate::memory::Memory;
use crate::memory::Room;
use crate::opcode::Opcode;
use crate::pager;
use crate::pager::Pager;
use crate::pager::PagerHost;
use crate::pager::SyncResult;
use crate::sync_primitive::Acquisition;
use crate::sync_primitive::SyncPrimitive;
use crate::wait_queue::WaitQueue;

verus! {

/// [`Barrier`] is a synchronization primitive that enables multiple tasks to start execution at the
/// same time.
///
/// The resource count of the state word is the number of tasks that are still missing. Once the
/// last of them arrives, all the waiting tasks are released, and the [`Barrier`] can be used again.
pub struct Barrier<S: SyncPrimitive = Arena> {
    /// [`Barrier`] state.
    pub primitive: S,
}

/// What is known of a [`Barrier`] at a moment, for diagnostic purposes.
#[derive(Clone, Copy, Debug, Eq, PartialEq, Structural)]
pub struct Status {
    /// State word.
    pub state: usize,
    /// The number of tasks that have to arrive before the waiting ones are released.
    pub missing: usize,
    /// The wait queue is being processed.
    pub wait_queue_being_processed: bool,
    /// Address of the newest wait queue entry.
    pub wait_queue_tail_addr: usize,
}

impl Barrier {
    /// Maximum number of tasks to block.
    pub const MAX_TASKS: usize = 63;

    /// Creates a new [`Barrier`] that can block the given number of tasks.
    ///
    /// The maximum number of tasks to block is defined by [`MAX_TASKS`](Self::MAX_TASKS), and if a
    /// value greater than or equal to [`MAX_TASKS`](Self::MAX_TASKS) is provided, it will be set to
    /// [`MAX_TASKS`](Self::MAX_TASKS).
    #[must_use]
    pub fn with_count(tasks: usize) -> (r: Self)
        ensures
            r.wf(),
            r.pending() == 0,
            r.tasks() == (if tasks < 63 {
                tasks as nat
            } else {
                63
            }),
            r.missing() == r.tasks(),
            r.memory().queue() == Seq::<usize>::empty(),
            r.memory().word == r.tasks(),
            r.memory() == Memory::fresh(r.memory().word, r.memory().discipline),
            r.primitive.room() == usize::MAX / 128,
            r.primitive.room() > 0,
            r.primitive.marks() == Set::<usize>::empty(),
    {
        let adjusted: usize = if tasks < Self::MAX_TASKS {
            tasks
        } else {
            Self::MAX_TASKS
        };
        Barrier { primitive: Arena::new(Policy::Barrier(adjusted as u8), adjusted) }
    }
}

impl Default for Barrier {
    /// The default number of tasks to block is [`MAX_TASKS`](Barrier::MAX_TASKS).
    fn default() -> (r: Self)
        ensures
            r.wf(),
            r.pending() == 0,
            r.tasks() == 63,
            r.missing() == 63,
            r.memory().queue() == Seq::<usize>::empty(),
            r.memory().word == r.tasks(),
            r.memory() == Memory::fresh(r.memory().word, r.memory().discipline),
            r.primitive.room() == usize::MAX / 128,
            r.primitive.room() > 0,
            r.primitive.marks() == Set::<usize>::empty(),
    {
        Barrier::with_count(Barrier::MAX_TASKS)
    }
}

impl<S: SyncPrimitive> Barrier<S> {
    /// The barrier is consistent, and its wait queue is not being processed by the current task.
    pub open spec fn wf(&self) -> bool {
        &&& self.primitive.memory().ok(self.primitive.pending())
        &&& self.primitive.memory().discipline is Barrier
        &&& self.primitive.memory().discipline->total <= 63
        &&& !self.primitive.memory().held
    }

    /// The memory of the barrier.
    pub open spec fn memory(&self) -> Memory {
        self.primitive.memory()
    }

    /// The number of times other tasks may still intervene.
    pub open spec fn pending(&self) -> nat {
        self.primitive.pending()
    }

    /// The number of tasks to block.
    pub open spec fn tasks(&self) -> nat {
        self.memory().discipline->total
    }

    /// The number of tasks that have to arrive before the waiting ones are released.
    pub open spec fn missing(&self) -> nat {
        self.memory().data()
    }

    /// Returns the number of tasks that have to arrive before the waiting ones are released.
    pub fn count(&self, mo: Ordering) -> (r: usize)
        requires
            self.wf(),
        ensures
            r <= 63,
            exists|mid: Memory| #[trigger]
                self.memory().rely(mid) && (self.pending() == 0 ==> mid == self.memory())
                    && r == mid.data(),
    {
        WaitQueue::data(self.primitive.peek(mo))
    }

    /// Adds up the tasks that the waiting entries stand for.
    fn arrived(&self, tail: usize) -> (r: usize)
        requires
            self.memory().ok(self.pending()),
            self.memory().held,
            tail == self.memory().tail(),
            self.memory().total() <= 63,
        ensures
            self.memory().data() + r == self.memory().total(),
    {
        let ghost memory = self.memory();
        let ghost queue = memory.queue();
        let ghost mut left: int = queue.len() as int;
        let mut entry: usize = tail;
        let mut sum: usize = 0;
        while entry != 0
            invariant
                memory == self.memory(),
                queue == memory.queue(),
                memory.ok(self.pending()),
                memory.held,
                memory.total() <= 63,
                0 <= left <= queue.len(),
                entry == (if left == 0 {
                    0
                } else {
                    queue[left - 1]
                }),
                sum + crate::memory::demand(memory.nodes, queue, left) == crate::memory::demand(
                    memory.nodes,
                    queue,
                    queue.len() as int,
                ),
            decreases left,
        {
            proof {
                assert(queue.contains(queue[left - 1]));
            }
            sum = sum + self.primitive.opcode(entry).release_count();
            entry = self.primitive.next_entry(entry);
            proof {
                left = left - 1;
            }
        }
        sum
    }

    /// Releases all the waiting tasks, and makes the barrier ready for the next ones.
    fn trip(&mut self, seen: usize)
        requires
            old(self).memory().ok(old(self).pending()),
            old(self).memory().discipline is Barrier,
            old(self).memory().held,
            old(self).memory().word == seen,
            old(self).memory().total() == old(self).memory().discipline->total,
            old(self).memory().total() <= 63,
        ensures
            final(self).wf(),
            exists|mid: Memory| #[trigger]
                old(self).memory().rely(mid) && mid.dismisses(
                    final(self).memory(),
                    old(self).memory().total() as usize,
                    0,
                ) && (final(self).pending() == old(self).pending() ==> mid == old(self).memory()),
            final(self).pending() <= old(self).pending(),
            final(self).primitive.room() == old(self).primitive.room(),
            final(self).primitive.marks() == old(self).primitive.marks(),
    {
        let ghost first = self.memory();
        let tail: usize = WaitQueue::to_anchor_ptr(seen);
        let total: usize = WaitQueue::data(seen) + self.arrived(tail);
        proof {
            WaitQueue::lemma_compose(total, 0, false, total as nat);
            assert forall|mid: Memory| #[trigger] first.rely(mid) implies {
                &&& mid.word == seen
                &&& mid.may_swap(total)
                &&& mid.swapped(total) == mid.emptied(total)
                &&& mid.swapped(total).queue() == Seq::<usize>::empty()
                &&& mid.swapped(total).owns(mid.tail(), mid.queue())
            } by {
                first.lemma_rely_held_barrier(mid);
                mid.lemma_may_empty(total);
            }
        }
        let reset: bool = self.primitive.compare_exchange(seen, total).is_ok();
        assert(reset);
        let ghost mid = Memory { word: seen, nodes: self.memory().nodes, ..first };
        self.primitive.deliver(tail, 0, Ghost(mid.queue()));
        proof {
            mid.lemma_dismisses(self.memory(), total, 0);
        }
    }

    /// The operation of a task that stands for the given number of tasks.
    pub open spec fn arrival(weight: u8) -> Opcode {
        Opcode::Semaphore(weight)
    }

    /// The memory becomes `new` when a task arrives: it waits if others are missing, and everybody
    /// is released otherwise.
    ///
    /// Which of the two happens depends on what the task finds when it arrives, after other tasks
    /// have intervened.
    pub open spec fn joins(
        memory: Memory,
        new: Memory,
        entry: usize,
        weight: u8,
        alone: bool,
    ) -> bool {
        &&& memory.installs(new, entry, Self::arrival(weight))
        &&& Self::finds(memory, memory, new, entry, weight, alone)
    }

    /// The task of `entry` arrives at a moment which is not before `now`.
    pub open spec fn finds(
        memory: Memory,
        now: Memory,
        new: Memory,
        entry: usize,
        weight: u8,
        alone: bool,
    ) -> bool {
        exists|mid: Memory| #[trigger]
            memory.prepares(mid, entry, Self::arrival(weight)) && mid.wf() && !WaitQueue::flagged(
                mid.word,
            ) && (alone ==> now.untouched(mid, entry) && Self::spares(mid, new, entry))
                && Self::arrives(memory, mid, new, entry, weight)
    }

    /// Only `entry` and the waiting entries are affected when the memory `mid` becomes `new`.
    pub open spec fn spares(mid: Memory, new: Memory, entry: usize) -> bool {
        forall|e: usize|
            #![trigger new.nodes[e]]
            mid.nodes.dom().contains(e) && e != entry && !mid.queue().contains(e)
                ==> new.nodes[e] == mid.nodes[e]
    }

    /// The memory is `mid` when the task of `entry` arrives: if more tasks than it stands for are
    /// missing then, it is the last one to wait. Otherwise, it hands the result to each of those
    /// that wait, and all the tasks are missing again.
    pub open spec fn arrives(
        memory: Memory,
        mid: Memory,
        new: Memory,
        entry: usize,
        weight: u8,
    ) -> bool {
        if mid.data() > weight {
            &&& new.nodes[entry].result is None
            &&& new.queue() == mid.queue().push(entry)
            &&& new.data() + weight == mid.data()
            &&& mid.same_others(new, entry)
            &&& new.delivered == memory.delivered
        } else {
            &&& new.nodes[entry].result == Some(0u8)
            &&& new.queue().len() == 0
            &&& new.word == new.discipline->total
            &&& memory.calls(new)
            &&& memory.delivered.is_prefix_of(new.delivered)
            &&& new.delivered.len() == memory.delivered.len() + mid.queue().len() + 1
            &&& forall|i: int|
                #![trigger new.delivered[i]]
                memory.delivered.len() <= i < new.delivered.len() ==> new.delivered[i].result == 0
            &&& forall|e: usize| #[trigger]
                mid.queue().contains(e) ==> {
                    &&& crate::memory::handed(new.delivered, memory.delivered.len() as int, e)
                    &&& new.nodes.dom().contains(e)
                    &&& new.nodes[e].opcode == mid.nodes[e].opcode
                    &&& new.nodes[e].result == Some(0u8)
                }
        }
    }

    /// What a task finds does not depend on when it has started to arrive.
    proof fn lemma_joins(
        first: Memory,
        now: Memory,
        new: Memory,
        entry: usize,
        weight: u8,
        exact: bool,
        alone: bool,
    )
        requires
            first.installs(new, entry, Self::arrival(weight)),
            Self::finds(first, now, new, entry, weight, exact),
            alone ==> exact && first.untouched(now, entry),
        ensures
            Self::joins(first, new, entry, weight, alone),
    {
        let mid = choose|mid: Memory| #[trigger]
            first.prepares(mid, entry, Self::arrival(weight)) && mid.wf() && !WaitQueue::flagged(
                mid.word,
            ) && (exact ==> now.untouched(mid, entry) && Self::spares(mid, new, entry))
                && Self::arrives(first, mid, new, entry, weight);
        if alone {
            assert(first.untouched(mid, entry)) by {
                assert forall|e: usize|
                    #![trigger mid.nodes[e]]
                    #![trigger mid.nodes.dom().contains(e)]
                    first.nodes.dom().contains(e) && e != entry implies mid.nodes.dom().contains(e)
                    && mid.nodes[e] == first.nodes[e] by {
                    assert(now.nodes.dom().contains(e));
                }
            }
        }
    }

    /// Tries to append an entry to the wait queue.
    ///
    /// Returns the callback if the state has changed, otherwise it is invoked.
    fn try_push<F: FnOnce()>(
        &mut self,
        entry: usize,
        seen: usize,
        weight: u8,
        begin_wait: F,
        Ghost(first): Ghost<Memory>,
    ) -> (r: Option<F>)
        requires
            old(self).wf(),
            first.wf(),
            !first.held,
            first.discipline is Barrier,
            first.prepares(old(self).memory(), entry, Self::arrival(weight)),
            old(self).memory().word == seen,
            !WaitQueue::flagged(seen),
            old(self).memory().delivered == first.delivered,
            old(self).memory().data() > weight,
            begin_wait.requires(()),
        ensures
            final(self).wf(),
            final(self).memory().nodes[entry].is_sync == old(self).memory().nodes[entry].is_sync,
            r matches Some(returned) ==> {
                &&& returned == begin_wait
                &&& first.prepares(final(self).memory(), entry, Self::arrival(weight))
                &&& final(self).memory().delivered == old(self).memory().delivered
                &&& final(self).pending() < old(self).pending()
            },
            r is None ==> {
                &&& begin_wait.ensures((), ())
                &&& first.installs(final(self).memory(), entry, Self::arrival(weight))
                &&& final(self).memory().nodes[entry].result is None
                &&& Self::finds(
                    first,
                    old(self).memory(),
                    final(self).memory(),
                    entry,
                    weight,
                    final(self).pending() == old(self).pending(),
                )
            },
            final(self).pending() <= old(self).pending(),
            final(self).primitive.room() == old(self).primitive.room(),
            final(self).primitive.marks() == (if r is None {
                old(self).primitive.marks().insert(entry)
            } else {
                old(self).primitive.marks()
            }),
    {
        let ghost opcode = Self::arrival(weight);
        let ghost now = self.memory();
        let tail: usize = WaitQueue::addr(seen);
        proof {
            assert(now.mine.contains(entry));
            first.lemma_prepares_next(now, tail, entry, opcode);
        }
        self.primitive.update_next_entry(entry, tail);
        let ghost ready = self.memory();
        let next_state: usize = WaitQueue::with_addr(seen, entry) - weight as usize;
        proof {
            WaitQueue::lemma_reduce((next_state + weight) as usize, next_state);
            assert forall|mid: Memory| #[trigger] ready.rely(mid) && mid.word == seen implies {
                &&& first.prepares(mid, entry, opcode)
                &&& mid.may_swap(next_state)
                &&& mid.swapped(next_state).queue() == mid.queue().push(entry)
                &&& mid.swapped(next_state).mine == mid.mine.remove(entry)
                &&& mid.swapped(next_state).held == mid.held
            } by {
                assert(ready.mine.contains(entry));
                first.lemma_prepares_rely(ready, mid, entry, opcode);
                mid.lemma_may_push(next_state, entry);
            }
        }
        if self.primitive.compare_exchange(seen, next_state).is_ok() {
            proof {
                let mid = Memory { word: seen, nodes: self.memory().nodes, ..ready };
                first.lemma_installs_push(mid, self.memory(), entry, opcode);
            }
            assert(Self::finds(
                first,
                now,
                self.memory(),
                entry,
                weight,
                self.pending() == old(self).pending(),
            ));
            // The entry cannot be dropped until the result is acknowledged.
            self.primitive.enqueued(entry);
            begin_wait();
            None
        } else {
            proof {
                first.lemma_prepares_rely(ready, self.memory(), entry, opcode);
            }
            Some(begin_wait)
        }
    }

    /// Releases everybody if nobody is missing but the task of `entry`.
    ///
    /// Returns `false` if the state has changed.
    fn try_trip(
        &mut self,
        entry: usize,
        seen: usize,
        weight: u8,
        Ghost(first): Ghost<Memory>,
    ) -> (r: bool)
        requires
            old(self).wf(),
            first.wf(),
            !first.held,
            first.discipline is Barrier,
            first.prepares(old(self).memory(), entry, Self::arrival(weight)),
            old(self).memory().word == seen,
            !WaitQueue::flagged(seen),
            old(self).memory().delivered == first.delivered,
            old(self).memory().data() <= weight,
        ensures
            final(self).wf(),
            final(self).memory().nodes[entry].is_sync == old(self).memory().nodes[entry].is_sync,
            !r ==> {
                &&& first.prepares(final(self).memory(), entry, Self::arrival(weight))
                &&& final(self).memory().delivered == old(self).memory().delivered
                &&& final(self).pending() < old(self).pending()
            },
            r ==> {
                &&& first.installs(final(self).memory(), entry, Self::arrival(weight))
                &&& final(self).memory().nodes[entry].result == Some(0u8)
                &&& Self::finds(
                    first,
                    old(self).memory(),
                    final(self).memory(),
                    entry,
                    weight,
                    final(self).pending() == old(self).pending(),
                )
            },
            final(self).pending() <= old(self).pending(),
            final(self).primitive.room() == old(self).primitive.room(),
            final(self).primitive.marks() == old(self).primitive.marks(),
    {
        let ghost opcode = Self::arrival(weight);
        let ghost now = self.memory();
        proof {
            WaitQueue::lemma_split(seen);
            assert(now.mine.contains(entry));
        }
        if WaitQueue::addr(seen) == 0 {
            // Nobody waits, so there is nobody else to release.
            self.primitive.set_result(entry, 0);
            proof {
                assert(now.queue() =~= Seq::<usize>::empty());
                reveal(Memory::calls);
                first.lemma_installs_result(now, entry, opcode, 0);
            }
            return true;
        }
        let next_state: usize = WaitQueue::with_locked(seen);
        proof {
            assert forall|mid: Memory| #[trigger] now.rely(mid) && mid.word == seen implies {
                &&& mid.may_swap(next_state)
                &&& mid.swapped(next_state) == (Memory { held: true, ..mid.counted(next_state) })
                &&& mid.swapped(next_state).queue() == mid.queue()
            } by {
                mid.lemma_may_lock(next_state);
            }
        }
        if self.primitive.compare_exchange(seen, next_state).is_err() {
            proof {
                first.lemma_prepares_rely(now, self.memory(), entry, opcode);
            }
            return false;
        }
        let ghost mid = Memory { word: seen, nodes: self.memory().nodes, ..now };
        let ghost locked = self.memory();
        proof {
            first.lemma_prepares_rely(now, mid, entry, opcode);
        }
        self.trip(next_state);
        let ghost tripped = self.memory();
        let ghost end = choose|end: Memory| #[trigger]
            locked.rely(end) && end.dismisses(tripped, locked.total() as usize, 0) && (
            self.pending() == old(self).pending() ==> end == locked);
        proof {
            Self::lemma_tripped(first, mid, locked, end, tripped, entry, opcode);
            assert(tripped.mine.contains(entry));
        }
        self.primitive.set_result(entry, 0);
        proof {
            first.lemma_installs_result(tripped, entry, opcode, 0);
            Self::lemma_released(first, mid, locked, end, tripped, self.memory(), entry, weight);
            assert(Self::finds(
                first,
                now,
                self.memory(),
                entry,
                weight,
                self.pending() == old(self).pending(),
            ));
        }
        true
    }

    /// The last task hands the result to everybody.
    proof fn lemma_released(
        first: Memory,
        mid: Memory,
        locked: Memory,
        end: Memory,
        tripped: Memory,
        new: Memory,
        entry: usize,
        weight: u8,
    )
        requires
            mid.wf(),
            locked.wf(),
            locked.discipline is Barrier,
            locked.total() == locked.discipline->total,
            locked.total() <= 63,
            mid.data() <= weight,
            first.delivered == mid.delivered,
            first.roster == mid.roster,
            mid.mine.contains(entry),
            locked == (Memory { held: true, ..mid.counted(locked.word) }),
            locked.queue() == mid.queue(),
            locked.rely(end),
            end.dismisses(tripped, locked.total() as usize, 0),
            new == tripped.with_result(entry, 0),
            new.queue() == tripped.queue(),
        ensures
            Self::arrives(first, mid, new, entry, weight),
    {
        locked.lemma_rely_held_barrier(end);
        reveal(Memory::calls);
        let number = first.delivered.len() as int;
        assert forall|e: usize| #[trigger] mid.queue().contains(e) implies {
            &&& crate::memory::handed(new.delivered, number, e)
            &&& new.nodes.dom().contains(e)
            &&& new.nodes[e].opcode == mid.nodes[e].opcode
            &&& new.nodes[e].result == Some(0u8)
        } by {
            assert(end.queue().contains(e));
            assert(crate::memory::handed(tripped.delivered, number, e));
            let i = choose|i: int|
                number <= i < tripped.delivered.len() && (#[trigger] tripped.delivered[i]).entry == e;
            assert(new.delivered[i].entry == e);
            let k = locked.queue().index_of(e);
            assert(locked.queue()[k] == e);
            assert(end.queue()[k] == e);
            assert(end.nodes[e] == locked.nodes[e]);
        }
    }

    /// The entry of the last task is not affected when all the others are released.
    proof fn lemma_tripped(
        first: Memory,
        mid: Memory,
        locked: Memory,
        end: Memory,
        tripped: Memory,
        entry: usize,
        opcode: Opcode,
    )
        requires
            first.wf(),
            !first.held,
            first.prepares(mid, entry, opcode),
            mid.wf(),
            locked.wf(),
            locked == (Memory { held: true, ..mid.counted(locked.word) }),
            locked.queue() == mid.queue(),
            locked.rely(end),
            end.dismisses(tripped, locked.total() as usize, 0),
        ensures
            first.prepares(tripped, entry, opcode),
    {
        assert(locked.mine.contains(entry));
        let open = Memory { held: false, ..end };
        assert(open.queue() == end.queue());
        assert(first.prepares(open, entry, opcode)) by {
            assert forall|e: usize| #[trigger] first.mine.contains(e) implies open.nodes[e]
                == first.nodes[e] by {
                assert(locked.mine.contains(e));
            }
            assert forall|e: usize| #[trigger] first.own.contains(e) implies {
                &&& open.nodes[e].opcode == first.nodes[e].opcode
                &&& open.nodes[e].is_sync == first.nodes[e].is_sync
                &&& first.nodes[e].result is Some ==> open.nodes[e] == first.nodes[e]
                &&& !first.queue().contains(e) ==> !open.queue().contains(e)
            } by {
                assert(locked.own.contains(e));
            }
        }
        first.lemma_prepares_dismissed(
            end,
            tripped,
            locked.total() as usize,
            0,
            entry,
            opcode,
        );
    }

    /// Lets a task arrive whose entry was not pushed yet.
    ///
    /// Returns `true` if everybody is released, and `false` if the task has to wait.
    fn arrive<F: FnOnce()>(
        &mut self,
        entry: usize,
        weight: u8,
        begin_wait: F,
        Ghost(first): Ghost<Memory>,
    ) -> (r: bool)
        requires
            old(self).wf(),
            first.wf(),
            !first.held,
            first.discipline is Barrier,
            first.prepares(old(self).memory(), entry, Self::arrival(weight)),
            first.untouched(old(self).memory(), entry),
            first.delivered == old(self).memory().delivered,
            old(self).pending() > 0 || first.data() > weight ==> begin_wait.requires(()),
        ensures
            final(self).wf(),
            final(self).memory().nodes[entry].is_sync == old(self).memory().nodes[entry].is_sync,
            Self::joins(
                first,
                final(self).memory(),
                entry,
                weight,
                final(self).pending() == old(self).pending(),
            ),
            r == final(self).memory().nodes[entry].result is Some,
            !r ==> begin_wait.ensures((), ()),
            final(self).primitive.marks() == (if r {
                old(self).primitive.marks()
            } else {
                old(self).primitive.marks().insert(entry)
            }),
            final(self).primitive.room() == old(self).primitive.room(),
            final(self).pending() <= old(self).pending(),
    {
        let ghost opcode = Self::arrival(weight);
        let mut callback: F = begin_wait;
        loop
            invariant
                self.wf(),
                opcode == Self::arrival(weight),
                first.wf(),
                !first.held,
                first.discipline is Barrier,
                first.prepares(self.memory(), entry, opcode),
                self.memory().nodes[entry].is_sync == old(self).memory().nodes[entry].is_sync,
                self.memory().delivered == first.delivered,
                self.primitive.room() == old(self).primitive.room(),
                self.primitive.marks() == old(self).primitive.marks(),
                callback == begin_wait,
                old(self).pending() > 0 || first.data() > weight ==> begin_wait.requires(()),
                self.pending() <= old(self).pending(),
                self.pending() == old(self).pending() ==> first.untouched(self.memory(), entry),
            decreases self.pending(),
        {
            let ghost now = self.memory();
            let seen: usize = self.primitive.load();
            proof {
                assert(now.mine.contains(entry));
                first.lemma_prepares_rely(now, self.memory(), entry, opcode);
                assert(self.memory().mine.contains(entry));
            }
            let ghost loaded = self.memory();
            let ghost before = self.pending();
            if WaitQueue::locked(seen) {
                // A task is being cancelled, or the waiting tasks are being released.
                self.primitive.yield_now();
                proof {
                    first.lemma_prepares_rely(loaded, self.memory(), entry, opcode);
                }
            } else if WaitQueue::data(seen) > weight as usize {
                match self.try_push(entry, seen, weight, callback, Ghost(first)) {
                    Some(returned) => {
                        callback = returned;
                    },
                    None => {
                        proof {
                            Self::lemma_joins(
                                first,
                                loaded,
                                self.memory(),
                                entry,
                                weight,
                                self.pending() == before,
                                self.pending() == old(self).pending(),
                            );
                        }
                        return false;
                    },
                }
            } else if self.try_trip(entry, seen, weight, Ghost(first)) {
                proof {
                    Self::lemma_joins(
                        first,
                        loaded,
                        self.memory(),
                        entry,
                        weight,
                        self.pending() == before,
                        self.pending() == old(self).pending(),
                    );
                }
                return true;
            }
        }
    }

    /// The memory becomes `new` when a task waits for the others.
    pub open spec fn waits(memory: Memory, new: Memory, outcome: Acquisition, alone: bool) -> bool {
        match outcome {
            Acquisition::Done(released) => {
                &&& released
                &&& exists|joined: Memory, entry: usize| #[trigger]
                    joined.without_entry(entry) == new && Self::joins(
                        memory,
                        joined,
                        entry,
                        1,
                        alone,
                    ) && joined.nodes[entry].result is Some
            },
            Acquisition::Waiting(entry) => {
                &&& Self::joins(memory, new, entry, 1, alone)
                &&& new.nodes[entry].result is None
            },
        }
    }

    /// Waits until the other tasks have arrived.
    fn wait_with<F: FnOnce()>(&mut self, is_sync: bool, begin_wait: F) -> (r: Acquisition)
        requires
            old(self).wf(),
            old(self).primitive.room() > 0,
            old(self).pending() > 0 || old(self).missing() > 1 ==> begin_wait.requires(()),
        ensures
            final(self).wf(),
            Self::waits(
                old(self).memory(),
                final(self).memory(),
                r,
                final(self).pending() == old(self).pending(),
            ),
            final(self).pending() == old(self).pending() ==> if old(self).memory().word % 64 > 1 {
                &&& r is Waiting
                &&& final(self).memory().word % 64 == old(self).memory().word % 64 - 1
            } else {
                &&& r == Acquisition::Done(true)
                &&& final(self).memory().word == old(self).memory().discipline->total
            },
            r is Waiting ==> begin_wait.ensures((), ()),
            r matches Acquisition::Waiting(entry) ==> final(self).memory().nodes[entry].is_sync
                == is_sync,
            final(self).primitive.room() == r.room(old(self).primitive.room()),
            final(self).primitive.marks() == r.marks(old(self).primitive.marks()),
            final(self).pending() <= old(self).pending(),
    {
        let ghost first = self.memory();
        let entry: usize = self.primitive.construct(Opcode::Semaphore(1), is_sync);
        proof {
            first.lemma_prepares(entry, Self::arrival(1), is_sync);
        }
        if self.arrive(entry, 1, begin_wait, Ghost(first)) {
            let ghost joined = self.memory();
            self.primitive.discard(entry);
            proof {
                assert(joined.without_entry(entry) == self.memory());
            }
            Acquisition::Done(true)
        } else {
            Acquisition::Waiting(entry)
        }
    }

    /// Waits asynchronously until the other tasks have arrived.
    ///
    /// It is done if everybody has been released; otherwise, the task waits for the others.
    pub fn wait_async(&mut self) -> (r: Acquisition)
        requires
            old(self).wf(),
            old(self).primitive.room() > 0,
        ensures
            final(self).wf(),
            Self::waits(
                old(self).memory(),
                final(self).memory(),
                r,
                final(self).pending() == old(self).pending(),
            ),
            final(self).pending() == old(self).pending() ==> if old(self).memory().word % 64 > 1 {
                &&& r is Waiting
                &&& final(self).memory().word % 64 == old(self).memory().word % 64 - 1
            } else {
                &&& r == Acquisition::Done(true)
                &&& final(self).memory().word == old(self).memory().discipline->total
            },
            r matches Acquisition::Waiting(entry) ==> !final(self).memory().nodes[entry].is_sync,
            final(self).primitive.room() == r.room(old(self).primitive.room()),
            final(self).primitive.marks() == r.marks(old(self).primitive.marks()),
            final(self).pending() <= old(self).pending(),
    {
        self.wait_async_with(|| {  })
    }

    /// Waits asynchronously until the other tasks have arrived with a wait callback.
    ///
    /// The callback is invoked when the task starts waiting for the others.
    pub fn wait_async_with<F: FnOnce()>(&mut self, begin_wait: F) -> (r: Acquisition)
        requires
            old(self).wf(),
            old(self).primitive.room() > 0,
            old(self).pending() > 0 || old(self).missing() > 1 ==> begin_wait.requires(()),
        ensures
            final(self).wf(),
            Self::waits(
                old(self).memory(),
                final(self).memory(),
                r,
                final(self).pending() == old(self).pending(),
            ),
            final(self).pending() == old(self).pending() ==> if old(self).memory().word % 64 > 1 {
                &&& r is Waiting
                &&& final(self).memory().word % 64 == old(self).memory().word % 64 - 1
            } else {
                &&& r == Acquisition::Done(true)
                &&& final(self).memory().word == old(self).memory().discipline->total
            },
            r is Waiting ==> begin_wait.ensures((), ()),
            r matches Acquisition::Waiting(entry) ==> !final(self).memory().nodes[entry].is_sync,
            final(self).primitive.room() == r.room(old(self).primitive.room()),
            final(self).primitive.marks() == r.marks(old(self).primitive.marks()),
            final(self).pending() <= old(self).pending(),
    {
        self.wait_with(false, begin_wait)
    }

    /// Waits synchronously until the other tasks have arrived.
    ///
    /// It is done if everybody has been released; otherwise, the task waits for the others.
    pub fn wait_sync(&mut self) -> (r: Acquisition)
        requires
            old(self).wf(),
            old(self).primitive.room() > 0,
        ensures
            final(self).wf(),
            Self::waits(
                old(self).memory(),
                final(self).memory(),
                r,
                final(self).pending() == old(self).pending(),
            ),
            final(self).pending() == old(self).pending() ==> if old(self).memory().word % 64 > 1 {
                &&& r is Waiting
                &&& final(self).memory().word % 64 == old(self).memory().word % 64 - 1
            } else {
                &&& r == Acquisition::Done(true)
                &&& final(self).memory().word == old(self).memory().discipline->total
            },
            r matches Acquisition::Waiting(entry) ==> final(self).memory().nodes[entry].is_sync,
            final(self).primitive.room() == r.room(old(self).primitive.room()),
            final(self).primitive.marks() == r.marks(old(self).primitive.marks()),
            final(self).pending() <= old(self).pending(),
    {
        self.wait_sync_with(|| {  })
    }

    /// Waits synchronously until the other tasks have arrived with a wait callback.
    ///
    /// The callback is invoked when the task starts waiting for the others.
    pub fn wait_sync_with<F: FnOnce()>(&mut self, begin_wait: F) -> (r: Acquisition)
        requires
            old(self).wf(),
            old(self).primitive.room() > 0,
            old(self).pending() > 0 || old(self).missing() > 1 ==> begin_wait.requires(()),
        ensures
            final(self).wf(),
            Self::waits(
                old(self).memory(),
                final(self).memory(),
                r,
                final(self).pending() == old(self).pending(),
            ),
            final(self).pending() == old(self).pending() ==> if old(self).memory().word % 64 > 1 {
                &&& r is Waiting
                &&& final(self).memory().word % 64 == old(self).memory().word % 64 - 1
            } else {
                &&& r == Acquisition::Done(true)
                &&& final(self).memory().word == old(self).memory().discipline->total
            },
            r is Waiting ==> begin_wait.ensures((), ()),
            r matches Acquisition::Waiting(entry) ==> final(self).memory().nodes[entry].is_sync,
            final(self).primitive.room() == r.room(old(self).primitive.room()),
            final(self).primitive.marks() == r.marks(old(self).primitive.marks()),
            final(self).pending() <= old(self).pending(),
    {
        self.wait_with(true, begin_wait)
    }

    /// Registers a [`Pager`] to allow it to wait for the other tasks remotely.
    ///
    /// The [`Pager`] stands for `count` tasks. `is_sync` indicates whether the [`Pager`] will be
    /// polled asynchronously (`false`) or synchronously (`true`).
    ///
    /// Returns `false` if the [`Pager`] was already registered, or if the count is greater than the
    /// maximum number of tasks.
    pub fn register_pager(&mut self, pager: &mut Pager, count: usize, is_sync: bool) -> (r: bool)
        requires
            old(self).wf(),
            count <= 63 && old(pager).entry() is None ==> old(self).primitive.room() > 0,
        ensures
            final(self).wf(),
            r == (count <= 63 && old(pager).entry() is None),
            !r ==> *final(pager) == *old(pager) && *final(self) == *old(self),
            r ==> {
                &&& final(pager).entry() is Some
                &&& final(pager).synchronous() == is_sync
                &&& final(pager).wf(final(self).memory())
                &&& !final(pager).acked()
                &&& !old(self).primitive.marks().contains(final(pager).entry()->0)
                &&& final(pager).marks(final(self).memory(), old(self).primitive.marks())
                    == final(self).primitive.marks()
                &&& Self::joins(
                    old(self).memory(),
                    final(self).memory(),
                    final(pager).entry()->0,
                    Self::weight(count),
                    final(self).pending() == old(self).pending(),
                )
            },
            final(self).primitive.room() == old(self).primitive.room() - (if r {
                1int
            } else {
                0
            }),
            final(self).pending() <= old(self).pending(),
    {
        if count > Barrier::MAX_TASKS || pager.is_registered() {
            return false;
        }
        let weight: u8 = Self::narrow(count);
        let ghost first = self.memory();
        let entry: usize = self.primitive.construct(Opcode::Semaphore(weight), is_sync);
        proof {
            first.lemma_prepares(entry, Self::arrival(weight), is_sync);
        }
        pager.set_entry(entry, is_sync);
        self.arrive(entry, weight, || {  }, Ghost(first));
        true
    }

    /// The weight of a task that stands for the given number of tasks.
    pub open spec fn weight(tasks: usize) -> u8 {
        tasks as u8
    }

    /// Converts a number of tasks.
    fn narrow(tasks: usize) -> (r: u8)
        requires
            tasks <= 63,
        ensures
            r == tasks,
            r == Self::weight(tasks),
    {
        tasks as u8
    }

    /// Takes an entry out of the wait queue.
    ///
    /// Returns `false` if the entry had already left the wait queue.
    fn withdraw(&mut self, entry: usize) -> (r: bool)
        requires
            old(self).wf(),
            old(self).memory().own.contains(entry),
            !old(self).memory().mine.contains(entry),
        ensures
            final(self).wf(),
            r ==> {
                &&& final(self).memory().mine == old(self).memory().mine.insert(entry)
                &&& final(self).memory().own == old(self).memory().own
                &&& !final(self).memory().queue().contains(entry)
                &&& final(self).memory().discipline == old(self).memory().discipline
                &&& old(self).pending() == 0 ==> Self::leaves(
                    old(self).memory(),
                    final(self).memory(),
                    entry,
                )
            },
            !r ==> {
                &&& old(self).memory().continues(final(self).memory())
                &&& !final(self).memory().queue().contains(entry)
                &&& old(self).pending() == 0 ==> {
                    &&& !old(self).memory().queue().contains(entry)
                    &&& old(self).memory().same_state(final(self).memory())
                }
            },
            final(self).pending() <= old(self).pending(),
            final(self).primitive.room() == old(self).primitive.room(),
            final(self).primitive.marks() == old(self).primitive.marks(),
    {
        let ghost first = self.memory();
        let weight: usize = self.primitive.opcode(entry).release_count();
        let mut seen: usize = self.primitive.load();
        loop
            invariant
                self.wf(),
                self.pending() <= old(self).pending(),
                self.primitive.room() == old(self).primitive.room(),
                self.primitive.marks() == old(self).primitive.marks(),
                first == old(self).memory(),
                first.wf(),
                !first.held,
                first.discipline is Barrier,
                first.discipline->total <= 63,
                first.own.contains(entry),
                !first.mine.contains(entry),
                weight == first.nodes[entry].opcode.held(),
                first.rely(self.memory()),
                self.memory().word == seen,
                self.memory() != first ==> self.pending() < old(self).pending(),
            decreases self.pending(),
        {
            let ghost now = self.memory();
            if WaitQueue::addr(seen) == 0 {
                // The wait queue is empty.
                proof {
                    assert(now.queue() =~= Seq::<usize>::empty());
                }
                return false;
            }
            if WaitQueue::locked(seen) {
                // Another thread is processing the wait queue.
                self.primitive.yield_now();
                let ghost then = self.memory();
                seen = self.primitive.load();
                proof {
                    first.lemma_rely_transitive(now, then);
                    first.lemma_rely_transitive(then, self.memory());
                }
                continue;
            }
            let next_state: usize = WaitQueue::with_locked(seen);
            proof {
                assert forall|mid: Memory| #[trigger] now.rely(mid) && mid.word == seen implies {
                    &&& mid.may_swap(next_state)
                    &&& mid.swapped(next_state) == (Memory { held: true, ..mid.counted(next_state) })
                    &&& mid.swapped(next_state).queue() == mid.queue()
                } by {
                    mid.lemma_may_lock(next_state);
                }
            }
            match self.primitive.compare_exchange(seen, next_state) {
                Ok(_) => {
                    let ghost mid = Memory { word: seen, nodes: self.memory().nodes, ..now };
                    let ghost locked = self.memory();
                    proof {
                        first.lemma_rely_transitive(now, mid);
                        assert(mid.own.contains(entry));
                        assert(locked.may_remove(entry, weight as nat));
                    }
                    let removed: bool = self.remove(next_state, entry, weight);
                    proof {
                        if old(self).pending() == 0 && removed {
                            assert(Self::leaves(first, self.memory(), entry));
                        }
                    }
                    return removed;
                },
                Err(new_state) => {
                    proof {
                        first.lemma_rely_transitive(now, self.memory());
                    }
                    seen = new_state;
                },
            }
        }
    }

    /// Takes an entry out of the wait queue that is being processed, and stops processing it.
    ///
    /// Returns `false` if the entry had already left the wait queue.
    #[verifier::spinoff_prover]
    #[verifier::rlimit(40)]
    fn remove(&mut self, seen: usize, entry: usize, weight: usize) -> (r: bool)
        requires
            old(self).memory().ok(old(self).pending()),
            old(self).memory().discipline is Barrier,
            old(self).memory().discipline->total <= 63,
            old(self).memory().held,
            old(self).memory().word == seen,
            old(self).memory().data() > 0,
            old(self).memory().total() == old(self).memory().discipline->total,
            old(self).memory().own.contains(entry),
            weight == old(self).memory().nodes[entry].opcode.held(),
        ensures
            final(self).wf(),
            final(self).memory().discipline == old(self).memory().discipline,
            final(self).memory().received == old(self).memory().received,
            final(self).memory().spare == old(self).memory().spare,
            old(self).memory().keeps(final(self).memory()),
            !final(self).memory().queue().contains(entry),
            r ==> {
                &&& final(self).memory().mine == old(self).memory().mine.insert(entry)
                &&& old(self).pending() == 0 ==> Self::leaves(
                    old(self).memory(),
                    final(self).memory(),
                    entry,
                )
            },
            !r ==> {
                &&& final(self).memory().mine == old(self).memory().mine
                &&& !old(self).memory().queue().contains(entry)
                &&& old(self).pending() == 0 ==> {
                    &&& final(self).memory().word + 64 == old(self).memory().word
                    &&& final(self).memory().queue() == old(self).memory().queue()
                    &&& crate::memory::same_bodies(
                        old(self).memory().nodes,
                        final(self).memory().nodes,
                    )
                }
            },
            final(self).pending() <= old(self).pending(),
            final(self).primitive.room() == old(self).primitive.room(),
            final(self).primitive.marks() == old(self).primitive.marks(),
    {
        let ghost locked = self.memory();
        proof {
            assert(locked.may_remove(entry, weight as nat));
        }
        let (new_state, removed) = self.primitive.remove_wait_queue_entry(seen, entry, weight);
        let ghost gone = self.memory();
        proof {
            Self::lemma_gone(locked, gone, entry, removed, old(self).pending() == 0);
            if !removed {
                locked.lemma_same_bodies_prev(gone);
            }
        }
        if WaitQueue::locked(new_state) {
            let refund: usize = if removed {
                weight
            } else {
                0
            };
            self.unlock(new_state, refund);
        }
        proof {
            let new = self.memory();
            assert(locked.keeps(new)) by {
                assert forall|e: usize| #[trigger] locked.mine.contains(e) implies new.nodes[e]
                    == locked.nodes[e] by {
                    assert(gone.mine.contains(e));
                    if !removed {
                        assert(locked.nodes.dom().contains(e));
                    }
                }
                assert forall|e: usize| #[trigger] locked.own.contains(e) implies {
                    &&& new.nodes[e].opcode == locked.nodes[e].opcode
                    &&& locked.nodes[e].result is Some ==> new.nodes[e] == locked.nodes[e]
                    &&& !locked.queue().contains(e) ==> !new.queue().contains(e)
                } by {
                    assert(gone.own.contains(e));
                    assert(locked.nodes.dom().contains(e));
                    if locked.queue().contains(e) {
                        let i = locked.queue().index_of(e);
                        assert(locked.queue()[i] == e);
                    }
                }
            }
            WaitQueue::lemma_split(new.word);
            WaitQueue::lemma_split(locked.word);
        }
        removed
    }

    /// What is missing after an entry was taken out of the queue.
    proof fn lemma_gone(locked: Memory, gone: Memory, entry: usize, removed: bool, alone: bool)
        requires
            locked.wf(),
            gone.wf(),
            locked.held,
            locked.discipline is Barrier,
            locked.total() == locked.discipline->total,
            locked.discipline->total <= 63,
            removed ==> locked.removes(gone, entry, alone),
            !removed ==> locked.differs_in_prev(gone),
        ensures
            gone.discipline == locked.discipline,
            removed && gone.held ==> {
                &&& gone.data() == locked.data()
                &&& gone.total() + locked.nodes[entry].opcode.held() == gone.discipline->total
            },
            !removed ==> {
                &&& gone.held
                &&& gone.data() == locked.data()
                &&& gone.total() == gone.discipline->total
            },
            removed && !gone.held && alone ==> gone.data() == locked.data()
                + locked.nodes[entry].opcode.held(),
    {
        if !removed {
            locked.lemma_total_prev(gone);
        } else if !gone.held && alone {
            let queue = locked.queue();
            let index = queue.index_of(entry);
            crate::memory::lemma_demand_remove(locked.nodes, queue, index);
            assert(queue.remove(index) =~= Seq::<usize>::empty());
            assert(gone.queue() =~= Seq::<usize>::empty());
        }
    }

    /// The memory becomes `new` when an entry leaves the queue, and its tasks are missing again.
    pub open spec fn leaves(memory: Memory, new: Memory, entry: usize) -> bool {
        &&& memory.queue().contains(entry)
        &&& new.queue() == memory.queue().remove(memory.queue().index_of(entry))
        &&& new.data() == memory.data() + memory.nodes[entry].opcode.held()
        &&& crate::memory::same_bodies(memory.nodes, new.nodes)
    }

    /// Stops processing the wait queue.
    fn unlock(&mut self, seen: usize, refund: usize)
        requires
            old(self).memory().ok(old(self).pending()),
            old(self).memory().discipline is Barrier,
            old(self).memory().held,
            old(self).memory().word == seen,
            old(self).memory().data() > 0,
            old(self).memory().total() + refund == old(self).memory().discipline->total,
            old(self).memory().discipline->total <= 63,
        ensures
            final(self).wf(),
            ({
                let mid = Memory {
                    nodes: final(self).memory().nodes,
                    ..old(self).memory()
                };
                &&& old(self).memory().rely(mid)
                &&& final(self).memory() == (Memory { held: false, ..mid.counted(final(self).memory().word) })
                &&& final(self).memory().queue() == old(self).memory().queue()
                &&& final(self).memory().data() == old(self).memory().data() + refund
                &&& mid != old(self).memory() ==> final(self).pending() < old(self).pending()
            }),
            final(self).pending() <= old(self).pending(),
            final(self).primitive.room() == old(self).primitive.room(),
            final(self).primitive.marks() == old(self).primitive.marks(),
    {
        let ghost first = self.memory();
        proof {
            WaitQueue::lemma_split(seen);
        }
        let next_state: usize = seen - WaitQueue::LOCKED_FLAG + refund;
        proof {
            WaitQueue::lemma_compose(
                next_state,
                first.tail(),
                false,
                first.data() + refund as nat,
            );
            assert forall|mid: Memory| #[trigger] first.rely(mid) implies {
                &&& mid.word == seen
                &&& mid.queue() == first.queue()
                &&& mid.may_swap(next_state)
                &&& mid.swapped(next_state) == (Memory { held: false, ..mid.counted(next_state) })
                &&& mid.swapped(next_state).queue() == mid.queue()
            } by {
                first.lemma_rely_held_barrier(mid);
                mid.lemma_may_return(next_state);
            }
        }
        let unlocked: bool = self.primitive.compare_exchange(seen, next_state).is_ok();
        assert(unlocked);
    }
}

impl<S: SyncPrimitive> Barrier<S> {
    /// Each task is either missing or waiting.
    pub proof fn law_everybody_is_accounted_for(memory: Memory)
        requires
            memory.wf(),
            memory.discipline is Barrier,
            !WaitQueue::flagged(memory.word),
        ensures
            memory.total() == memory.discipline->total,
    {
    }

    /// A task has to wait unless enough tasks have arrived with it; otherwise, everybody is
    /// released, and all the tasks are missing again.
    pub proof fn law_last_task_releases_everybody(
        memory: Memory,
        new: Memory,
        entry: usize,
        weight: u8,
    )
        requires
            memory.wf(),
            new.wf(),
            memory.discipline is Barrier,
            memory.discipline->total <= 63,
            !WaitQueue::flagged(memory.word),
            Self::joins(memory, new, entry, weight, true),
        ensures
            ({
                let arrived = crate::memory::demand(
                    memory.nodes,
                    memory.queue(),
                    memory.queue().len() as int,
                ) + weight;
                if arrived < memory.discipline->total {
                    &&& new.nodes[entry].result is None
                    &&& new.queue() == memory.queue().push(entry)
                    &&& new.data() == memory.discipline->total - arrived
                } else {
                    &&& new.nodes[entry].result == Some(0u8)
                    &&& forall|e: usize| #[trigger]
                        memory.queue().contains(e) ==> new.nodes[e].result == Some(0u8)
                    &&& new.queue().len() == 0
                    &&& new.data() == memory.discipline->total
                }
            }),
    {
        if memory.data() <= weight {
            WaitQueue::lemma_compose(new.word, 0, false, new.word as nat);
        }
    }

    /// Nobody passes early, whoever intervenes: a task that is released right away has handed the
    /// result to tasks which, together with those that it stands for, are as many as the barrier
    /// blocks.
    pub proof fn law_nobody_passes_early(
        memory: Memory,
        new: Memory,
        entry: usize,
        weight: u8,
        alone: bool,
    ) -> (released: Seq<usize>)
        requires
            memory.wf(),
            memory.discipline is Barrier,
            Self::joins(memory, new, entry, weight, alone),
            new.nodes[entry].result is Some,
        ensures
            released.no_duplicates(),
            !released.contains(entry),
            forall|i: int|
                #![trigger released[i]]
                0 <= i < released.len() ==> {
                    &&& crate::memory::handed(
                        new.delivered,
                        memory.delivered.len() as int,
                        released[i],
                    )
                    &&& new.nodes[released[i]].result == Some(0u8)
                },
            crate::memory::demand(new.nodes, released, released.len() as int) + weight
                >= memory.discipline->total,
    {
        let mid = choose|mid: Memory| #[trigger]
            memory.prepares(mid, entry, Self::arrival(weight)) && mid.wf() && !WaitQueue::flagged(
                mid.word,
            ) && (alone ==> memory.untouched(mid, entry) && Self::spares(mid, new, entry))
                && Self::arrives(memory, mid, new, entry, weight);
        let queue = mid.queue();
        assert(mid.mine.contains(entry));
        assert forall|i: int| #![trigger queue[i]] 0 <= i < queue.len() implies {
            &&& crate::memory::handed(new.delivered, memory.delivered.len() as int, queue[i])
            &&& new.nodes[queue[i]].opcode == mid.nodes[queue[i]].opcode
            &&& new.nodes[queue[i]].result == Some(0u8)
        } by {
            assert(queue.contains(queue[i]));
        }
        crate::memory::lemma_demand_frame(
            mid.nodes,
            queue,
            new.nodes,
            queue,
            queue.len() as int,
        );
        queue
    }

    /// A task that gives up waiting is missing again, and the others wait as they did before.
    pub proof fn law_cancel_undoes_arrival(
        memory: Memory,
        waiting: Memory,
        new: Memory,
        entry: usize,
        weight: u8,
    )
        requires
            memory.wf(),
            waiting.wf(),
            new.wf(),
            memory.discipline is Barrier,
            Self::joins(memory, waiting, entry, weight, true),
            waiting.nodes[entry].result is None,
            Self::drops(waiting, new, entry, true),
        ensures
            new.queue() == memory.queue(),
            new.data() == memory.data(),
    {
        assert(waiting.own.contains(entry));
        let done = choose|done: Memory| #[trigger]
            done.without_entry(entry) == new && done.wf() && !done.queue().contains(entry) && {
                ||| Self::leaves(waiting, done, entry)
                ||| done.nodes[entry].result is Some && waiting.same_state(done)
            };
        assert(Self::leaves(waiting, done, entry));
        done.lemma_no_entry(entry);
        let queue = waiting.queue();
        let index = queue.index_of(entry);
        assert(queue[queue.len() - 1] == entry);
        assert(index == queue.len() - 1);
        assert(queue.remove(index) =~= memory.queue());
    }

    /// Describes the barrier.
    pub fn status(&self) -> (r: Status)
        requires
            self.wf(),
        ensures
            r.missing == WaitQueue::data_of(r.state),
            r.wait_queue_being_processed == WaitQueue::flagged(r.state),
            r.wait_queue_tail_addr == WaitQueue::addr_of(r.state),
            exists|mid: Memory| #[trigger]
                self.memory().rely(mid) && (self.pending() == 0 ==> mid == self.memory())
                    && r.state == mid.word,
    {
        let state: usize = self.primitive.peek(Ordering::Relaxed);
        Status {
            state,
            missing: WaitQueue::data(state),
            wait_queue_being_processed: WaitQueue::locked(state),
            wait_queue_tail_addr: WaitQueue::addr(state),
        }
    }
}

impl<S: SyncPrimitive> SyncResult for Barrier<S> {
    type Result = Result<(), pager::Error>;

    open spec fn interpret(value: u8, pager_error: Option<pager::Error>) -> Self::Result {
        match pager_error {
            Some(error) => Err(error),
            None => Ok(()),
        }
    }

    fn to_result(_value: u8, pager_error: Option<pager::Error>) -> (r: Self::Result) {
        match pager_error {
            Some(error) => Err(error),
            None => Ok(()),
        }
    }
}

impl<S: SyncPrimitive> PagerHost for Barrier<S> {
    open spec fn sound(&self) -> bool {
        self.wf()
    }

    open spec fn shared(&self) -> Memory {
        self.memory()
    }

    open spec fn turns(&self) -> nat {
        self.pending()
    }

    open spec fn marks(&self) -> Entries {
        self.primitive.marks()
    }

    open spec fn room(&self) -> Room {
        self.primitive.room()
    }

    open spec fn drops(memory: Memory, new: Memory, entry: usize, alone: bool) -> bool {
        exists|done: Memory| #[trigger]
            done.without_entry(entry) == new && done.wf() && !done.queue().contains(entry) && {
                ||| {
                    &&& done.mine == memory.mine.insert(entry)
                    &&& done.own == memory.own
                    &&& alone ==> Self::leaves(memory, done, entry)
                }
                ||| {
                    &&& done.nodes[entry].result is Some
                    &&& memory.continues(done)
                    &&& alone ==> memory.same_state(done)
                }
            }
    }

    proof fn lemma_sound(&self) {
    }

    fn acknowledge(&mut self, entry: usize) -> (r: Option<u8>) {
        self.primitive.try_acknowledge_result(entry)
    }

    fn discard(&mut self, entry: usize) {
        self.primitive.discard(entry);
    }

    fn drop_wait_queue_entry(&mut self, entry: usize) {
        let ghost first = self.memory();
        if !self.withdraw(entry) {
            // The entry was removed from another thread, so will be completed.
            let ghost failed = self.memory();
            let mut result: Option<u8> = self.acknowledge(entry);
            proof {
                first.lemma_continues(failed, self.memory());
            }
            while result.is_none()
                invariant
                    self.wf(),
                    self.primitive.room() == old(self).primitive.room(),
                    self.primitive.marks() == old(self).primitive.marks(),
                    self.pending() <= old(self).pending(),
                    first == old(self).memory(),
                    first.own.contains(entry),
                    !first.mine.contains(entry),
                    first.continues(self.memory()),
                    !self.memory().queue().contains(entry),
                    result == self.memory().nodes[entry].result,
                    old(self).pending() == 0 ==> self.memory() == failed,
                decreases self.pending(),
            {
                let ghost now = self.memory();
                proof {
                    assert(now.own.contains(entry));
                    assert(now.nodes.dom().contains(entry));
                }
                self.primitive.yield_now();
                let ghost then = self.memory();
                proof {
                    first.lemma_continues(now, then);
                }
                result = self.acknowledge(entry);
                proof {
                    first.lemma_continues(then, self.memory());
                }
            }
        }
        let ghost done = self.memory();
        self.primitive.discard(entry);
        proof {
            assert(done.without_entry(entry) == self.memory());
        }
    }
}

} // verus!
