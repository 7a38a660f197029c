//! What holds of every primitive: what its tasks may do to each other, and what a single operation
//! amounts to.
use vstd::prelude::*;

use crate::memory::Memory;
use crate::memory::Tally;
use crate::opcode::Opcode;
use crate::wait_queue::WaitQueue;

verus! {

impl Memory {
    /// The two views belong to different tasks that share the same memory.
    pub open spec fn shares(self, other: Memory) -> bool {
        &&& self.wf()
        &&& other.wf()
        &&& other.word == self.word
        &&& other.nodes == self.nodes
        &&& other.discipline == self.discipline
        &&& !(self.held && other.held)
        &&& self.mine.disjoint(other.mine)
        &&& self.own.disjoint(other.own)
    }

    /// What a task does to the memory is passed on to the view of another task.
    pub open spec fn passed_on(self, new: Memory) -> Memory {
        Memory { word: new.word, nodes: new.nodes, ..self }
    }

    /// When a task replaces the state word, the other tasks are prepared for it, and no two of them
    /// will ever have access to the same entry.
    pub proof fn law_swap_is_expected(self, other: Memory, word: usize)
        requires
            self.shares(other),
            self.may_swap(word),
        ensures
            other.rely(other.passed_on(self.swapped(word))),
            self.swapped(word).shares(other.passed_on(self.swapped(word))),
    {
        let new = self.swapped(word);
        let seen = other.passed_on(new);
        assert(other.queue() == self.queue());
        seen.lemma_queue(new.queue());
        let queue = new.queue();
        assert forall|e: usize| #[trigger] other.mine.contains(e) implies !queue.contains(e) by {
            if queue.contains(e) {
                assert(!other.queue().contains(e));
                assert(self.mine.contains(e));
            }
        }
    }

    /// When a task replaces the link of an entry to an older one, the other tasks are prepared for
    /// it.
    pub proof fn law_link_is_expected(self, other: Memory, entry: usize, next: usize)
        requires
            self.shares(other),
            self.may_link(entry, next),
        ensures
            other.rely(other.passed_on(self.with_next(entry, next))),
            self.with_next(entry, next).shares(other.passed_on(self.with_next(entry, next))),
    {
        let new = self.with_next(entry, next);
        let seen = other.passed_on(new);
        assert(other.queue() == self.queue());
        if self.mine.contains(entry) {
            self.lemma_next_outside(entry, next);
        } else {
            let i = self.queue().index_of(entry);
            assert(self.queue()[i] == entry);
        }
        seen.lemma_queue(new.queue());
        assert forall|e: usize| #[trigger] other.mine.contains(e) implies seen.nodes[e]
            == other.nodes[e] && !seen.queue().contains(e) by {
            assert(!other.queue().contains(e));
        }
        let queue = other.queue();
        assert forall|i: int|
            #![trigger queue[i]]
            0 <= i < queue.len() && other.held implies seen.nodes[queue[i]]
            == other.nodes[queue[i]] by {
            assert(queue.contains(queue[i]));
        }
        crate::memory::lemma_demand_frame(
            new.nodes,
            new.queue(),
            seen.nodes,
            seen.queue(),
            new.queue().len() as int,
        );
    }

    /// When a task replaces the link of an entry to a newer one, the other tasks are prepared for
    /// it.
    pub proof fn law_back_link_is_expected(self, other: Memory, entry: usize, prev: usize)
        requires
            self.shares(other),
            self.accessible(entry),
            entry == self.tail() ==> prev == 0,
        ensures
            other.rely(other.passed_on(self.with_prev(entry, prev))),
            self.with_prev(entry, prev).shares(other.passed_on(self.with_prev(entry, prev))),
    {
        self.lemma_prev(entry, prev);
        let new = self.with_prev(entry, prev);
        let seen = other.passed_on(new);
        assert(other.queue() == self.queue());
        seen.lemma_queue(new.queue());
        if !self.mine.contains(entry) {
            let i = self.queue().index_of(entry);
            assert(self.queue()[i] == entry);
        }
        let queue = other.queue();
        assert forall|i: int|
            #![trigger queue[i]]
            0 <= i < queue.len() && other.held implies seen.nodes[queue[i]]
            == other.nodes[queue[i]] by {
            assert(queue.contains(queue[i]));
        }
    }

    /// When a task hands out a result, the other tasks are prepared for it.
    pub proof fn law_result_is_expected(self, other: Memory, entry: usize, result: u8)
        requires
            self.shares(other),
            self.mine.contains(entry),
        ensures
            other.rely(other.passed_on(self.with_result(entry, result))),
            self.with_result(entry, result).shares(
                other.passed_on(self.with_result(entry, result)),
            ),
    {
        self.lemma_result(entry, result);
        let new = self.with_result(entry, result);
        let seen = other.passed_on(new);
        assert(other.queue() == self.queue());
        seen.lemma_queue(new.queue());
        let queue = other.queue();
        assert forall|i: int| #![trigger queue[i]] 0 <= i < queue.len() implies seen.nodes[queue[i]]
            == other.nodes[queue[i]] by {
            assert(queue.contains(queue[i]));
        }
    }

    /// When a task creates an entry, the other tasks are prepared for it.
    pub proof fn law_creation_is_expected(
        self,
        other: Memory,
        entry: usize,
        opcode: Opcode,
        is_sync: bool,
    )
        requires
            self.shares(other),
            entry != 0,
            WaitQueue::aligned(entry),
            opcode.valid(),
            !self.nodes.dom().contains(entry),
        ensures
            other.rely(other.passed_on(self.with_entry(entry, opcode, is_sync))),
            self.with_entry(entry, opcode, is_sync).shares(
                other.passed_on(self.with_entry(entry, opcode, is_sync)),
            ),
    {
        let queue = other.queue();
        assert(other.queue() == self.queue());
        assert(!queue.contains(entry));
        self.lemma_entry(entry, opcode, is_sync);
        let new = self.with_entry(entry, opcode, is_sync);
        let seen = other.passed_on(new);
        seen.lemma_queue(new.queue());
        assert forall|i: int| #![trigger queue[i]] 0 <= i < queue.len() implies seen.nodes[queue[i]]
            == other.nodes[queue[i]] by {
            assert(queue.contains(queue[i]));
        }
        assert(!other.mine.contains(entry));
        assert(!other.own.contains(entry));
    }

    /// When a task destroys an entry of its own, the other tasks are prepared for it.
    pub proof fn law_destruction_is_expected(self, other: Memory, entry: usize)
        requires
            self.shares(other),
            self.own.contains(entry),
            !self.queue().contains(entry),
            self.mine.contains(entry) || self.nodes[entry].result is Some,
        ensures
            other.rely(other.passed_on(self.without_entry(entry))),
            self.without_entry(entry).shares(other.passed_on(self.without_entry(entry))),
    {
        self.lemma_no_entry(entry);
        let new = self.without_entry(entry);
        let seen = other.passed_on(new);
        assert(other.queue() == self.queue());
        seen.lemma_queue(new.queue());
        let queue = other.queue();
        assert forall|i: int| #![trigger queue[i]] 0 <= i < queue.len() implies seen.nodes[queue[i]]
            == other.nodes[queue[i]] by {
            assert(queue.contains(queue[i]));
        }
        assert(!other.mine.contains(entry));
        assert(!other.own.contains(entry));
    }

    /// Nobody who could be served is left waiting once nobody is processing the queue.
    pub proof fn law_nobody_waits_in_vain(self)
        requires
            self.wf(),
            self.discipline is Limited,
            !WaitQueue::flagged(self.word),
            self.queue().len() > 0,
        ensures
            !crate::memory::admits(self.discipline->limit, self.data(), self.nodes[self.queue()[0]].opcode),
    {
    }

    /// A task that waits for more resources than there are is never handed a result, whoever
    /// intervenes while the queue is processed.
    pub proof fn law_too_much_is_never_handed_out(
        self,
        new: Memory,
        served: Seq<usize>,
        index: int,
    )
        requires
            self.wf(),
            self.discipline is Limited,
            self.progresses(new, served),
            self.delivered.len() <= index < new.delivered.len(),
        ensures
            new.delivered[index].opcode.desired() <= 63,
    {
    }

    /// Nobody overtakes a task that waits: as long as somebody does, nothing is acquired right
    /// away.
    pub proof fn law_nobody_jumps_the_queue(self, new: Memory, opcode: Opcode)
        requires
            self.wf(),
            self.queue().len() > 0,
        ensures
            !self.takes(new, opcode),
    {
    }

    /// Waiting tasks are served in the order in which they started to wait, whoever intervenes
    /// while the queue is processed.
    #[verifier::spinoff_prover]
    #[verifier::rlimit(60)]
    pub proof fn law_first_come_first_served(
        self,
        new: Memory,
        served: Seq<usize>,
        older: int,
        newer: int,
    )
        requires
            self.wf(),
            self.progresses(new, served),
            0 <= older < newer < self.queue().len(),
            crate::memory::handed(
                new.delivered,
                self.delivered.len() as int,
                self.queue()[newer],
            ),
        ensures
            crate::memory::handed(
                new.delivered,
                self.delivered.len() as int,
                self.queue()[older],
            ),
            served[older] == self.queue()[older],
            served[newer] == self.queue()[newer],
    {
        let queue = self.queue();
        let all = served + new.queue();
        assert(served.contains(queue[newer]));
        let k = served.index_of(queue[newer]);
        assert(served[k] == queue[newer]);
        if newer >= served.len() {
            assert(all[k] == served[k]);
            assert(queue[k] == all[k]);
        }
        assert(all[older] == served[older] && queue[older] == all[older]);
        assert(all[newer] == served[newer] && queue[newer] == all[newer]);
        assert(served.contains(queue[older]));
    }

    /// If nobody intervenes while the queue is processed, the tasks that leave it are the oldest
    /// ones, and each of them has been served.
    #[verifier::spinoff_prover]
    #[verifier::rlimit(60)]
    pub proof fn law_undisturbed_service_keeps_the_order(
        self,
        new: Memory,
        number: int,
        older: int,
        newer: int,
    )
        requires
            self.wf(),
            self.hands_off(new, number),
            0 <= older < newer < self.queue().len(),
            !new.queue().contains(self.queue()[newer]),
        ensures
            !new.queue().contains(self.queue()[older]),
            new.nodes[self.queue()[older]].result == Some(0u8),
            new.nodes[self.queue()[newer]].result == Some(0u8),
    {
        let queue = self.queue();
        if newer >= number {
            assert(new.queue()[newer - number] == queue[newer]);
        }
        assert(queue.take(number)[older] == queue[older]);
        assert(queue.take(number)[newer] == queue[newer]);
        if new.queue().contains(queue[older]) {
            let i = new.queue().index_of(queue[older]);
            assert(queue[i + number] == queue[older]);
        }
    }

    /// A task is served only if the resources that others still use afterwards allow it, whoever
    /// intervenes while the queue is processed: exclusive ownership is handed out when there are no
    /// other owners, and shared ownership is never handed out beyond the limit.
    pub proof fn law_served_tasks_fit(self, new: Memory, served: Seq<usize>, index: int)
        requires
            self.wf(),
            new.wf(),
            self.discipline is Limited,
            self.progresses(new, served),
            self.delivered.len() <= index < new.delivered.len(),
        ensures
            ({
                let others = new.data() + crate::memory::acquired(self.delivered)
                    - crate::memory::acquired(new.delivered);
                let opcode = new.delivered[index].opcode;
                &&& opcode is Exclusive && self.discipline->limit < 63 ==> others <= 0
                &&& opcode is Shared && self.discipline->limit > 0 ==> others
                    < self.discipline->limit
                &&& opcode is Semaphore && others > 0 ==> others + opcode.held()
                    <= self.discipline->limit
            }),
    {
    }

    /// If nobody intervenes while the queue is processed, a task is served only if it fits with the
    /// resources in use and those that the tasks served before it hold.
    #[verifier::spinoff_prover]
    #[verifier::rlimit(60)]
    pub proof fn law_undisturbed_service_fits(self, new: Memory, number: int, index: int)
        requires
            self.wf(),
            self.hands_off(new, number),
            0 <= index < number,
        ensures
            ({
                let before = self.data() + crate::memory::demand(self.nodes, self.queue(), index);
                let opcode = self.nodes[self.queue()[index]].opcode;
                &&& opcode is Exclusive && self.discipline->limit < 63 ==> before == 0
                &&& opcode is Shared && self.discipline->limit > 0 ==> before
                    < self.discipline->limit
                &&& before + opcode.held() <= 63
            }),
    {
        let opcode = self.nodes[self.queue()[index]].opcode;
        assert(crate::memory::admits(
            self.discipline->limit,
            self.data() + crate::memory::demand(self.nodes, self.queue(), index),
            opcode,
        ));
        assert(self.queue().contains(self.queue()[index]));
    }

    /// Resources are conserved if nobody intervenes: what is released is in use no longer, or has
    /// been handed to tasks that had been waiting for it.
    ///
    /// [`Memory::law_released_is_not_held`] states what holds whoever intervenes.
    #[verifier::spinoff_prover]
    #[verifier::rlimit(60)]
    pub proof fn law_resources_are_conserved(self, new: Memory, opcode: Opcode)
        requires
            self.wf(),
            new.wf(),
            self.discipline is Limited,
            !self.held,
            !WaitQueue::flagged(self.word),
            self.releases(new, opcode, true),
        ensures
            new.data() + opcode.held() + crate::memory::demand(
                self.nodes,
                new.queue(),
                new.queue().len() as int,
            ) == self.data() + crate::memory::demand(self.nodes, self.queue(), self.queue().len() as int),
    {
        if self.tail() == 0 {
            WaitQueue::lemma_reduce(self.word, new.word);
            assert(new.queue() =~= Seq::<usize>::empty());
            assert(self.queue() =~= Seq::<usize>::empty());
        } else {
            let locked = Memory { held: true, ..self.counted((self.word + 64 - opcode.held()) as usize) };
            WaitQueue::lemma_lock(self.word, opcode.held());
            locked.lemma_queue(self.queue());
            let number = choose|number: int| #[trigger] locked.hands_off(new, number);
            crate::memory::lemma_demand_split(self.nodes, self.queue(), number);
        }
    }

    /// Releasing what was acquired right away leaves the primitive as it was.
    pub proof fn law_release_undoes_acquisition(self, taken: Memory, new: Memory, opcode: Opcode)
        requires
            self.wf(),
            taken.wf(),
            opcode.valid(),
            opcode is Exclusive || opcode is Shared || opcode is Semaphore,
            self.takes(taken, opcode),
            taken.releases(new, opcode, true),
        ensures
            new == self,
    {
        reveal(Tally::gain);
        WaitQueue::lemma_split(self.word);
        assert(opcode.held() == opcode.desired());
        WaitQueue::lemma_raise(self.word, opcode.held() as usize);
    }

    /// What was acquired can be released.
    pub proof fn law_acquired_is_releasable(self, taken: Memory, opcode: Opcode)
        requires
            self.wf(),
            opcode.valid(),
            opcode is Exclusive || opcode is Semaphore || opcode is Shared && 0
                < self.discipline->limit < 63,
            self.takes(taken, opcode),
        ensures
            opcode.releasable(taken.data()),
    {
        WaitQueue::lemma_split(self.word);
        assert(opcode.held() == opcode.desired());
        WaitQueue::lemma_raise(self.word, opcode.held() as usize);
    }

    /// While an exclusive lock is held, nobody else acquires anything.
    pub proof fn law_exclusive_lock_excludes_everybody(self, new: Memory, opcode: Opcode)
        requires
            self.wf(),
            self.data() == 63,
            self.discipline is Limited,
            opcode is Exclusive || opcode is Shared,
        ensures
            !self.takes(new, opcode),
            !crate::memory::admits(self.discipline->limit, self.data(), opcode),
    {
    }

    /// While shared locks are held, nobody acquires an exclusive lock.
    pub proof fn law_shared_locks_exclude_exclusive_locks(self, new: Memory)
        requires
            self.wf(),
            self.data() > 0,
            self.discipline is Limited,
        ensures
            !self.takes(new, Opcode::Exclusive),
            !crate::memory::admits(self.discipline->limit, self.data(), Opcode::Exclusive),
    {
    }

    /// A poisoned lock turns everybody away: nobody waits, and nothing can be acquired or released.
    pub proof fn law_poisoned_lock_turns_everybody_away(self, new: Memory, opcode: Opcode)
        requires
            self.wf(),
            self.word == 64,
        ensures
            self.queue().len() == 0,
            !self.takes(new, opcode),
            !Opcode::Exclusive.releasable(self.data()),
            !Opcode::Shared.releasable(self.data()),
            !self.may_wait(opcode, self.word),
            !self.available(self.word, opcode),
    {
        WaitQueue::lemma_compose(64, 0, true, 0);
        assert(self.queue() =~= Seq::<usize>::empty());
    }

    /// Each task that waits when a lock is poisoned is told so.
    pub proof fn law_poison_reaches_everybody(self, new: Memory, entry: usize)
        requires
            self.wf(),
            self.poisons(new),
            self.queue().contains(entry),
        ensures
            new.nodes[entry].result == Some(2u8),
            !new.queue().contains(entry),
            new.data() == 0,
    {
        let i = self.queue().index_of(entry);
        assert(self.queue()[i] == entry);
    }

    /// A task that waits for a lock without acquiring it takes nothing, whether it has to wait or
    /// not.
    pub proof fn law_waiting_takes_nothing(self, new: Memory, entry: usize, opcode: Opcode)
        requires
            self.wf(),
            new.wf(),
            self.discipline is Limited,
            opcode is Wait,
            self.registers(new, entry, opcode, true),
        ensures
            new.data() == self.data(),
    {
        WaitQueue::lemma_split(self.word);
        WaitQueue::lemma_split(new.word);
    }

    /// A task that gives up waiting leaves no trace: the others wait as they did before, and
    /// nothing has been acquired or released.
    #[verifier::spinoff_prover]
    #[verifier::rlimit(60)]
    pub proof fn law_cancel_undoes_waiting(
        self,
        waiting: Memory,
        new: Memory,
        entry: usize,
        opcode: Opcode,
    )
        requires
            self.wf(),
            waiting.wf(),
            self.discipline is Limited,
            !self.held,
            !WaitQueue::flagged(self.word),
            self.registers(waiting, entry, opcode, true),
            waiting.nodes[entry].result is None,
            waiting.cleans_up(new, entry, true),
        ensures
            new.queue() == self.queue(),
            new.data() == self.data(),
    {
        WaitQueue::lemma_split(self.word);
        WaitQueue::lemma_split(waiting.word);
        assert(waiting.queue() == self.queue().push(entry));
        assert(waiting.data() == self.data() && !WaitQueue::flagged(waiting.word));
        let done = choose|done: Memory| #[trigger]
            done.without_entry(entry) == new && done.wf() && !done.queue().contains(entry)
                && waiting.withdraws(done, entry, true);
        self.lemma_withdrawn(waiting, done, entry);
        done.lemma_no_entry(entry);
    }

    /// Withdrawing the entry that was pushed last serves nobody.
    proof fn lemma_withdrawn(self, waiting: Memory, done: Memory, entry: usize)
        requires
            self.wf(),
            waiting.wf(),
            self.discipline is Limited,
            !WaitQueue::flagged(self.word),
            !WaitQueue::flagged(waiting.word),
            waiting.discipline == self.discipline,
            waiting.queue() == self.queue().push(entry),
            waiting.data() == self.data(),
            !self.queue().contains(entry),
            self.same_others(waiting, entry),
            waiting.withdraws(done, entry, true),
        ensures
            done.queue() == self.queue(),
            done.data() == self.data(),
    {
        let locked = Memory { held: true, ..waiting.counted((waiting.word + 64) as usize) };
        WaitQueue::lemma_lock(waiting.word, 0);
        locked.lemma_queue(waiting.queue());
        let queue = waiting.queue();
        let index = queue.index_of(entry);
        assert(queue[queue.len() - 1] == entry);
        assert(index == queue.len() - 1);
        assert(queue.remove(index) =~= self.queue());
        let gone = choose|gone: Memory| #[trigger]
            locked.removes(gone, entry, true) && (if gone.held {
                exists|number: int| #[trigger] gone.hands_off(done, number)
            } else {
                done == gone
            });
        if gone.held {
            let number = choose|number: int| #[trigger] gone.hands_off(done, number);
            let head = self.queue()[0];
            assert(self.nodes.dom().contains(head) && head != entry) by {
                assert(self.queue().contains(head));
            }
            assert(waiting.nodes[head] == self.nodes[head]);
            assert(gone.nodes[head].opcode == locked.nodes[head].opcode);
            assert(number == 0) by {
                if number > 0 {
                    assert(gone.queue()[0] == head);
                    assert(gone.nodes[gone.queue()[0]].opcode == self.nodes[head].opcode);
                }
            }
            assert(gone.queue().skip(0) =~= gone.queue());
        }
    }
}

} // verus!
