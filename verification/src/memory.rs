//! Mathematical model of the memory shared through a synchronization primitive.
use vstd::prelude::*;

use crate::opcode::Opcode;
use crate::sync_primitive::Acquisition;
use crate::sync_primitive::Round;
use crate::wait_queue::WaitQueue;

verus! {

/// The number of times other tasks may still intervene.
pub type Turns = nat;

/// A number of wait queue entries that can still be created.
pub type Room = int;

/// Wait queue entries.
pub type Entries = Set<usize>;

/// How the waiting tasks of a primitive are served.
pub enum Discipline {
    /// The oldest task is served as soon as it fits under the limit on shared owners.
    ///
    /// A primitive that can be poisoned turns all the tasks away once it is.
    Limited { limit: nat, poisonable: bool },
    /// All the tasks are served together by an explicit call.
    Gate,
    /// All the tasks are served together when the last of them arrives.
    Barrier { total: nat },
}

/// A wait queue entry.
pub struct Node {
    /// The entry that was pushed right before this entry.
    pub next: usize,
    /// The entry that was pushed right after this entry.
    pub prev: usize,
    /// Operation type.
    pub opcode: Opcode,
    /// The result is waited for synchronously.
    pub is_sync: bool,
    /// The result handed to the waiting task.
    pub result: Option<u8>,
}

/// A result handed to a waiting task.
pub struct Delivery {
    /// The entry of the task.
    pub entry: usize,
    /// The operation that the task was waiting for.
    pub opcode: Opcode,
    /// The result.
    pub result: u8,
    /// The task that has to be resumed, if the task that hands out the result knows of it.
    pub waker: Option<u64>,
}

/// Who has to be resumed when results are handed out.
pub struct Roster {
    /// The tasks to resume once the entries of the current task are handed a result.
    pub wakers: Map<usize, u64>,
    /// The number of results handed out by the current task whose tasks have been resumed.
    pub resumed: nat,
}

/// An amount of resources.
pub struct Tally {
    /// The number of times that all the resources are taken together by an exclusive owner.
    pub whole: int,
    /// The number of resources that are taken one by one.
    pub parts: int,
}

impl Tally {
    /// No resources.
    pub open spec fn none() -> Tally {
        Tally { whole: 0, parts: 0 }
    }

    /// The amount that `data` resources in use, or handed out together, amount to.
    ///
    /// If the limit on shared owners leaves one resource out, taking it means to take all of them.
    pub open spec fn of(discipline: Discipline, data: nat) -> Tally {
        if discipline is Limited && discipline->limit < 63 && data == 63 {
            Tally { whole: 1, parts: 0 }
        } else {
            Tally { whole: 0, parts: data as int }
        }
    }

    /// What is added to the resources in use when a state word is replaced with another one.
    #[verifier::opaque]
    pub open spec fn gain(discipline: Discipline, word: usize, new: usize) -> Tally {
        Tally::of(discipline, WaitQueue::data_of(new)).minus(
            Tally::of(discipline, WaitQueue::data_of(word)),
        )
    }

    /// The sum of two amounts.
    pub open spec fn plus(self, other: Tally) -> Tally {
        Tally { whole: self.whole + other.whole, parts: self.parts + other.parts }
    }

    /// The difference of two amounts.
    pub open spec fn minus(self, other: Tally) -> Tally {
        Tally { whole: self.whole - other.whole, parts: self.parts - other.parts }
    }

    /// Nothing is owed.
    pub open spec fn valid(self) -> bool {
        self.whole >= 0 && self.parts >= 0
    }
}

/// The memory of a primitive as it appears to one of the tasks sharing the primitive.
pub struct Memory {
    /// State word.
    pub word: usize,
    /// The current task is processing the wait queue.
    pub held: bool,
    /// Entries that only the current task may access.
    pub mine: Set<usize>,
    /// Entries that the current task has created.
    pub own: Set<usize>,
    /// Wait queue entries.
    pub nodes: Map<usize, Node>,
    /// Results that the current task has handed out so far.
    pub delivered: Seq<Delivery>,
    /// The resources that the current task has added to those in use, less those it has removed.
    pub added: Tally,
    /// The resources that came with the results of entries which the current task has destroyed.
    pub received: Tally,
    /// The resources that the current task has added to those in use on behalf of waiting tasks,
    /// and has not handed to them yet.
    pub spare: Tally,
    /// Who has to be resumed when results are handed out.
    pub roster: Roster,
    /// How waiting tasks are served.
    pub discipline: Discipline,
}

/// `queue` lists, from the oldest to the newest, the entries reachable from `tail`.
pub open spec fn linked(nodes: Map<usize, Node>, tail: usize, queue: Seq<usize>) -> bool {
    &&& queue.len() == 0 <==> tail == 0
    &&& queue.len() > 0 ==> queue.last() == tail && nodes[queue[0]].next == 0
    &&& forall|i: int|
        0 <= i < queue.len() ==> nodes.dom().contains(#[trigger] queue[i]) && queue[i] != 0
            && WaitQueue::aligned(queue[i])
    &&& forall|i: int|
        #![trigger nodes[queue[i]]]
        0 < i < queue.len() ==> nodes[queue[i]].next == queue[i - 1]
    &&& queue.no_duplicates()
}

/// The resources that the first `number` entries of `queue` will hold.
pub open spec fn demand(nodes: Map<usize, Node>, queue: Seq<usize>, number: int) -> nat
    decreases number,
{
    if number <= 0 {
        0
    } else {
        demand(nodes, queue, number - 1) + nodes[queue[number - 1]].opcode.held()
    }
}

/// The resources that the tasks which were handed a result hold.
pub open spec fn acquired(delivered: Seq<Delivery>) -> nat
    decreases delivered.len(),
{
    if delivered.len() == 0 {
        0
    } else {
        acquired(delivered.drop_last()) + delivered.last().opcode.held()
    }
}

/// The resources that came with the results that were handed out.
pub open spec fn gifts(discipline: Discipline, delivered: Seq<Delivery>) -> Tally
    decreases delivered.len(),
{
    if delivered.len() == 0 {
        Tally::none()
    } else {
        gifts(discipline, delivered.drop_last()).plus(
            if delivered.last().result == 0 {
                Tally::of(discipline, delivered.last().opcode.held())
            } else {
                Tally::none()
            },
        )
    }
}

/// The amount that the first `number` entries of `queue` will hold.
pub open spec fn load(
    discipline: Discipline,
    nodes: Map<usize, Node>,
    queue: Seq<usize>,
    number: int,
) -> Tally
    decreases number,
{
    if number <= 0 {
        Tally::none()
    } else {
        load(discipline, nodes, queue, number - 1).plus(
            Tally::of(discipline, nodes[queue[number - 1]].opcode.held()),
        )
    }
}

/// One of the results handed out since there were `number` of them went to `entry`.
pub open spec fn handed(delivered: Seq<Delivery>, number: int, entry: usize) -> bool {
    exists|i: int| number <= i < delivered.len() && (#[trigger] delivered[i]).entry == entry
}

/// A task waiting for `opcode` can be served while `data` resources are in use.
///
/// One that waits for more than there can ever be is never served.
pub open spec fn admits(limit: nat, data: nat, opcode: Opcode) -> bool {
    data == 0 && opcode.desired() <= 63 || data + opcode.desired() <= limit
}

/// The entries agree on everything except their links.
pub open spec fn same_bodies(a: Map<usize, Node>, b: Map<usize, Node>) -> bool {
    &&& a.dom() == b.dom()
    &&& forall|e: usize|
        #![trigger b[e]]
        a.dom().contains(e) ==> b[e].opcode == a[e].opcode && b[e].is_sync == a[e].is_sync
            && b[e].result == a[e].result
}

/// Serving the oldest entries one after another, `number` of them fit.
pub open spec fn fits(
    limit: nat,
    data: nat,
    nodes: Map<usize, Node>,
    queue: Seq<usize>,
    number: int,
) -> bool {
    &&& 0 <= number <= queue.len()
    &&& forall|i: int|
        #![trigger nodes[queue[i]]]
        0 <= i < number ==> admits(limit, data + demand(nodes, queue, i), nodes[queue[i]].opcode)
}

/// Serving the oldest entries one after another, `number` of them fit and the next one does not.
pub open spec fn greedy(
    limit: nat,
    data: nat,
    nodes: Map<usize, Node>,
    queue: Seq<usize>,
    number: int,
) -> bool {
    &&& fits(limit, data, nodes, queue, number)
    &&& number < queue.len() ==> !admits(
        limit,
        data + demand(nodes, queue, number),
        nodes[queue[number]].opcode,
    )
}

impl Memory {
    /// The resources in use.
    pub open spec fn data(self) -> nat {
        WaitQueue::data_of(self.word)
    }

    /// The address of the newest waiting entry.
    pub open spec fn tail(self) -> usize {
        WaitQueue::addr_of(self.word)
    }

    /// Some task is processing the wait queue.
    pub open spec fn busy(self) -> bool {
        WaitQueue::flagged(self.word) && self.tail() != 0
    }

    /// The waiting entries, from the oldest to the newest.
    pub open spec fn queue(self) -> Seq<usize> {
        choose|queue: Seq<usize>| linked(self.nodes, self.tail(), queue)
    }

    /// Nobody who could be served is left waiting.
    pub open spec fn settled(self) -> bool {
        match self.discipline {
            Discipline::Limited { limit, .. } => {
                self.queue().len() > 0 ==> !admits(
                    limit,
                    self.data(),
                    self.nodes[self.queue()[0]].opcode,
                )
            },
            Discipline::Gate => {
                &&& self.data() <= 2
                &&& self.queue().len() > 0 ==> self.data() == 0
            },
            Discipline::Barrier { total } => {
                &&& self.data() + demand(self.nodes, self.queue(), self.queue().len() as int)
                    == total
                &&& self.queue().len() > 0 ==> self.data() > 0
            },
        }
    }

    /// The memory is consistent.
    pub open spec fn wf(self) -> bool {
        let queue = self.queue();
        &&& linked(self.nodes, self.tail(), queue)
        &&& queue.len() > 0 ==> self.nodes[queue.last()].prev == 0
        &&& forall|i: int|
            #![trigger queue[i]]
            0 <= i < queue.len() ==> self.nodes[queue[i]].result is None
                && self.nodes[queue[i]].opcode.valid()
        &&& forall|e: usize| #[trigger]
            self.mine.contains(e) ==> {
                &&& self.nodes.dom().contains(e)
                &&& e != 0
                &&& WaitQueue::aligned(e)
                &&& self.nodes[e].result is None
                &&& self.nodes[e].opcode.valid()
                &&& !queue.contains(e)
            }
        &&& self.own.subset_of(self.nodes.dom())
        &&& self.roster.wakers.dom().subset_of(self.own)
        &&& self.held ==> self.busy()
        &&& WaitQueue::flagged(self.word) && !self.busy() ==> self.word == 64
            && self.discipline is Limited && self.discipline->poisonable
        &&& self.discipline is Gate ==> !WaitQueue::flagged(self.word)
        &&& self.discipline matches Discipline::Limited { limit, .. } ==> limit <= 63
        &&& !WaitQueue::flagged(self.word) ==> self.settled()
    }

    /// Nobody else has anything left to do.
    pub open spec fn quiet(self) -> bool {
        &&& self.busy() ==> self.held
        &&& forall|e: usize| #[trigger]
            self.nodes.dom().contains(e) ==> {
                ||| self.mine.contains(e)
                ||| self.queue().contains(e)
                ||| self.nodes[e].result is Some
            }
    }

    /// The memory is consistent, and no other task is in the middle of anything unless it will
    /// intervene again.
    pub open spec fn ok(self, pending: nat) -> bool {
        &&& self.wf()
        &&& self.spare.valid()
        &&& pending == 0 ==> self.quiet()
    }

    /// The entries of the current task are left alone, except that one of them that is waiting may
    /// be handed a result.
    pub open spec fn keeps(self, new: Memory) -> bool {
        &&& forall|e: usize| #[trigger] self.mine.contains(e) ==> new.nodes[e] == self.nodes[e]
        &&& new.own == self.own
        &&& new.roster == self.roster
        &&& forall|e: usize| #[trigger]
            self.own.contains(e) ==> {
                &&& new.nodes[e].opcode == self.nodes[e].opcode
                &&& new.nodes[e].is_sync == self.nodes[e].is_sync
                &&& self.nodes[e].result is Some ==> new.nodes[e] == self.nodes[e]
                &&& !self.queue().contains(e) ==> !new.queue().contains(e)
            }
    }

    /// The other tasks may turn the memory into `new`.
    pub open spec fn rely(self, new: Memory) -> bool {
        let queue = self.queue();
        &&& new.wf()
        &&& new.held == self.held
        &&& new.mine == self.mine
        &&& new.delivered == self.delivered
        &&& new.added == self.added
        &&& new.received == self.received
        &&& new.spare == self.spare
        &&& new.discipline == self.discipline
        &&& self.keeps(new)
        &&& self.held ==> {
            &&& queue.is_prefix_of(new.queue())
            &&& forall|i: int|
                #![trigger queue[i]]
                0 <= i < queue.len() ==> new.nodes[queue[i]] == self.nodes[queue[i]]
            &&& forall|i: int|
                #![trigger new.queue()[i]]
                queue.len() <= i < new.queue().len() ==> new.nodes[new.queue()[i]].prev == 0
            &&& self.discipline is Limited ==> new.data() <= self.data()
            &&& self.discipline is Barrier ==> new.word == self.word
        }
    }

    /// Entries that leave the queue belong to the task that removed them, and entries that enter
    /// it no longer do.
    pub open spec fn relinked(self, new: Memory) -> Memory {
        Memory {
            mine: self.mine.union(self.queue().to_set()).difference(new.queue().to_set()),
            ..new
        }
    }

    /// The memory after the current task has replaced the state word, and what it has added to the
    /// resources in use is counted.
    ///
    /// What is added while the queue is processed is meant for waiting tasks.
    pub open spec fn counted(self, word: usize) -> Memory {
        Memory {
            word,
            added: self.added.plus(Tally::gain(self.discipline, self.word, word)),
            spare: if self.held && self.discipline is Limited {
                self.spare.plus(Tally::gain(self.discipline, self.word, word))
            } else {
                self.spare
            },
            ..self
        }
    }

    /// The current task has added to the resources in use what it has handed out in the meantime,
    /// and nothing else.
    pub open spec fn balances(self, new: Memory) -> bool {
        &&& new.discipline == self.discipline
        &&& new.received == self.received
        &&& new.spare == self.spare
        &&& new.added.plus(gifts(self.discipline, self.delivered)) == self.added.plus(
            gifts(self.discipline, new.delivered),
        )
    }

    /// The memory after the current task has replaced the state word.
    pub open spec fn swapped(self, word: usize) -> Memory {
        let new = self.counted(word);
        self.relinked(Memory { held: new.busy() && (self.held || !self.busy()), ..new })
    }

    /// The current task may replace the state word.
    pub open spec fn may_swap(self, word: usize) -> bool {
        let new = self.swapped(word);
        &&& new.wf()
        &&& forall|e: usize| #[trigger]
            new.queue().contains(e) ==> self.queue().contains(e) || self.mine.contains(e)
                && self.own.contains(e)
        &&& self.busy() && !self.held ==> {
            &&& new.busy()
            &&& self.queue().is_prefix_of(new.queue())
            &&& forall|i: int|
                #![trigger new.queue()[i]]
                self.queue().len() <= i < new.queue().len() ==> new.nodes[new.queue()[i]].prev == 0
            &&& self.discipline is Limited ==> new.data() <= self.data()
            &&& self.discipline is Barrier ==> new.word == self.word
        }
        &&& self.held && self.discipline is Limited ==> Tally::gain(
            self.discipline,
            self.word,
            word,
        ).valid()
    }

    /// The current task may hand the result to the task waiting in the entry: it has added to the
    /// resources in use what comes with the result zero, unless the entry is its own.
    pub open spec fn may_deliver(self, entry: usize, result: u8) -> bool {
        &&& self.mine.contains(entry)
        &&& result == 0 && self.discipline is Limited && !self.own.contains(entry)
            ==> self.spare.minus(
            Tally::of(self.discipline, self.nodes[entry].opcode.held()),
        ).valid()
    }

    /// What is left of the resources added on behalf of waiting tasks once the entry is handed the
    /// result.
    ///
    /// A task that has not added any hands its own resources to an entry of its own.
    pub open spec fn left(self, entry: usize, result: u8) -> Tally {
        let rest = self.spare.minus(
            Tally::of(self.discipline, self.nodes[entry].opcode.held()),
        );
        if result != 0 || !(self.discipline is Limited) || (self.own.contains(entry)
            && !rest.valid()) {
            self.spare
        } else {
            rest
        }
    }

    /// The current task may replace the `next` link of an entry: no entry enters the queue by that.
    pub open spec fn may_link(self, entry: usize, next: usize) -> bool {
        let new = self.with_next(entry, next);
        &&& self.accessible(entry)
        &&& new.wf()
        &&& forall|e: usize| #[trigger] new.queue().contains(e) ==> self.queue().contains(e)
    }

    /// The current task has exclusive access to the entry.
    pub open spec fn accessible(self, entry: usize) -> bool {
        self.mine.contains(entry) || (self.held && self.queue().contains(entry))
    }

    /// The memory differs from `new` at most in the links towards newer entries of the queue.
    pub open spec fn differs_in_prev(self, new: Memory) -> bool {
        &&& new == Memory { nodes: new.nodes, ..self }
        &&& new.queue() == self.queue()
        &&& new.nodes.dom() == self.nodes.dom()
        &&& forall|e: usize|
            #![trigger new.nodes[e]]
            self.nodes.dom().contains(e) ==> new.nodes[e] == (Node {
                prev: new.nodes[e].prev,
                ..self.nodes[e]
            }) && (!self.queue().contains(e) ==> new.nodes[e] == self.nodes[e])
    }

    /// The `number` oldest entries, and no others, are linked to the entry after them.
    pub open spec fn backlinked(self, number: int) -> bool {
        let queue = self.queue();
        &&& 0 <= number < queue.len()
        &&& forall|i: int|
            #![trigger queue[i]]
            0 <= i < number ==> self.nodes[queue[i]].prev == queue[i + 1]
        &&& forall|i: int|
            #![trigger queue[i]]
            number <= i < queue.len() ==> self.nodes[queue[i]].prev == 0
    }

    /// The memory becomes `new` when each entry of `chain` is handed a result.
    #[verifier::opaque]
    pub open spec fn delivers(self, new: Memory, chain: Seq<usize>, result: u8) -> bool {
        &&& new == Memory {
            nodes: new.nodes,
            mine: new.mine,
            delivered: new.delivered,
            spare: new.spare,
            ..self
        }
        &&& new.spare == (if result == 0 && self.discipline is Limited {
            self.spare.minus(load(self.discipline, self.nodes, chain, chain.len() as int))
        } else {
            self.spare
        })
        &&& new.queue() == self.queue()
        &&& new.mine == self.mine.difference(chain.to_set())
        &&& new.nodes.dom() == self.nodes.dom()
        &&& forall|e: usize|
            #![trigger new.nodes[e]]
            self.nodes.dom().contains(e) ==> new.nodes[e] == (if chain.contains(e) {
                Node { result: Some(result), ..self.nodes[e] }
            } else {
                self.nodes[e]
            })
        &&& self.delivered.is_prefix_of(new.delivered)
        &&& new.delivered.len() == self.delivered.len() + chain.len()
        &&& forall|i: int|
            #![trigger new.delivered[i]]
            self.delivered.len() <= i < new.delivered.len() ==> new.delivered[i] == (Delivery {
                entry: chain[new.delivered.len() - 1 - i],
                opcode: self.nodes[chain[new.delivered.len() - 1 - i]].opcode,
                result,
                waker: self.waker(chain[new.delivered.len() - 1 - i]),
            })
        &&& gifts(self.discipline, new.delivered) == gifts(self.discipline, self.delivered).plus(
            if result == 0 {
                load(self.discipline, self.nodes, chain, chain.len() as int)
            } else {
                Tally::none()
            },
        )
        &&& acquired(new.delivered) == acquired(self.delivered) + demand(
            self.nodes,
            chain,
            chain.len() as int,
        )
    }

    /// The memory becomes `new` when the entries that can be served are taken out of the queue.
    #[verifier::opaque]
    pub open spec fn serves(self, new: Memory, round: Round) -> bool {
        let queue = self.queue();
        let number = round.number@;
        let limit = self.discipline->limit;
        &&& fits(limit, self.data(), self.nodes, queue, number)
        &&& round.transferred == demand(self.nodes, queue, number)
        &&& self.data() + round.transferred <= 63
        &&& round.resolved == (if number == 0 { 0 } else { queue[number - 1] })
        &&& new.mine == self.mine.union(queue.take(number).to_set())
        &&& new.delivered == self.delivered
        &&& new.added == (if round.unlocked {
            self.added.plus(load(self.discipline, self.nodes, queue, number))
        } else {
            self.added
        })
        &&& new.spare == (if round.unlocked {
            self.spare.plus(load(self.discipline, self.nodes, queue, number))
        } else {
            self.spare
        })
        &&& new.received == self.received
        &&& new.discipline == self.discipline
        &&& self.keeps(new)
        &&& linked(new.nodes, round.resolved, queue.take(number))
        &&& forall|i: int|
            #![trigger queue[i]]
            0 <= i < number ==> new.nodes[queue[i]].opcode == self.nodes[queue[i]].opcode
        &&& if round.unlocked {
            &&& !round.reset_failed
            &&& number == queue.len()
            &&& new.word == self.data() + round.transferred
            &&& new.queue() == Seq::<usize>::empty()
            &&& !new.held
        } else {
            &&& new.held
            &&& number < queue.len()
            &&& round.head == queue[number]
            &&& queue.skip(number).is_prefix_of(new.queue())
            &&& new.backlinked(queue.len() - 1 - number)
            &&& new.data() <= self.data()
            &&& !round.reset_failed ==> {
                &&& greedy(limit, self.data(), self.nodes, queue, number)
                &&& new.word == self.word
                &&& new.queue() == queue.skip(number)
                &&& new.nodes[queue[number]].opcode == self.nodes[queue[number]].opcode
            }
        }
    }

    /// The current task has exclusive access to `chain`, the entries reachable from `tail`.
    pub open spec fn owns(self, tail: usize, chain: Seq<usize>) -> bool {
        &&& linked(self.nodes, tail, chain)
        &&& forall|i: int|
            #![trigger chain[i]]
            0 <= i < chain.len() ==> self.mine.contains(chain[i])
    }

    /// The resources of the served entries were added, and processing the queue either stopped or
    /// has to go on.
    #[verifier::opaque]
    pub open spec fn concludes(self, new: Memory, round: Round, unlocked: bool) -> bool {
        let queue = self.queue();
        let number = round.number@;
        &&& queue.is_prefix_of(queue.take(number) + new.queue())
        &&& fits(self.discipline->limit, self.data(), self.nodes, queue, number)
        &&& new.data() <= self.data() + round.transferred
        &&& new.mine == self.mine.union(queue.take(number).to_set())
        &&& new.delivered == self.delivered
        &&& new.added == self.added.plus(load(new.discipline, new.nodes, queue.take(number), number))
        &&& new.spare == self.spare.plus(load(new.discipline, new.nodes, queue.take(number), number))
        &&& new.received == self.received
        &&& forall|i: int|
            #![trigger queue[i]]
            0 <= i < number ==> new.nodes[queue[i]].opcode == self.nodes[queue[i]].opcode
        &&& new.discipline == self.discipline
        &&& self.keeps(new)
        &&& new.owns(round.resolved, queue.take(number))
        &&& demand(new.nodes, queue.take(number), number) == round.transferred
        &&& if unlocked {
            &&& !new.held
            &&& !WaitQueue::flagged(new.word)
        } else {
            &&& new.held
            &&& number < queue.len()
            &&& new.queue()[0] == round.head
            &&& new.backlinked(queue.len() - 1 - number)
        }
    }

    /// Nobody interfered, so exactly the entries that fit were served.
    pub open spec fn concludes_alone(self, new: Memory, round: Round) -> bool {
        let queue = self.queue();
        let number = round.number@;
        &&& greedy(self.discipline->limit, self.data(), self.nodes, queue, number)
        &&& new.queue() == queue.skip(number)
        &&& new.data() == self.data() + round.transferred
        &&& same_bodies(self.nodes, new.nodes)
    }

    /// The entries of `served` left the queue in the order in which they had entered it, they and
    /// nobody else were handed a result, which was zero, and exactly the resources that came with
    /// the results were added to those in use.
    ///
    /// Each of them was admitted when it was served: it fits with the resources in use at the end
    /// that none of them was given.
    pub open spec fn progresses(self, new: Memory, served: Seq<usize>) -> bool {
        let others = new.data() + acquired(self.delivered) - acquired(new.delivered);
        &&& self.balances(new)
        &&& self.calls(new)
        &&& forall|e: usize| #[trigger]
            served.contains(e) <==> handed(new.delivered, self.delivered.len() as int, e)
        &&& forall|i: int|
            #![trigger new.delivered[i]]
            self.delivered.len() <= i < new.delivered.len() ==> admits(
                self.discipline->limit,
                if others < 0 { 0 } else { others as nat },
                new.delivered[i].opcode,
            )
        &&& self.queue().is_prefix_of(served + new.queue())
        &&& self.delivered.is_prefix_of(new.delivered)
        &&& new.delivered.len() == self.delivered.len() + served.len()
        &&& forall|i: int|
            #![trigger new.delivered[i]]
            self.delivered.len() <= i < new.delivered.len() ==> new.delivered[i].result == 0
        &&& new.data() + acquired(self.delivered) <= self.data() + acquired(new.delivered)
        &&& new.mine == self.mine
        &&& new.discipline == self.discipline
        &&& self.keeps(new)
    }

    /// Exactly the `number` oldest entries, as many as fit, left the queue and were handed the
    /// result zero together with the resources that they had been waiting for.
    pub open spec fn hands_off(self, new: Memory, number: int) -> bool {
        let queue = self.queue();
        &&& self.discipline is Limited
        &&& greedy(self.discipline->limit, self.data(), self.nodes, queue, number)
        &&& new.queue() == queue.skip(number)
        &&& new.data() == self.data() + demand(self.nodes, queue, number)
        &&& new.added == self.added.plus(load(self.discipline, self.nodes, queue, number))
        &&& new.received == self.received
        &&& new.spare == self.spare
        &&& new.roster == self.roster
        &&& self.calls(new)
        &&& new.delivered.len() == self.delivered.len() + number
        &&& !WaitQueue::flagged(new.word)
        &&& !new.held
        &&& new.mine == self.mine
        &&& new.own == self.own
        &&& new.discipline == self.discipline
        &&& new.nodes.dom() == self.nodes.dom()
        &&& forall|e: usize|
            #![trigger new.nodes[e]]
            self.nodes.dom().contains(e) ==> {
                &&& new.nodes[e].opcode == self.nodes[e].opcode
                &&& new.nodes[e].is_sync == self.nodes[e].is_sync
                &&& new.nodes[e].result == (if queue.take(number).contains(e) {
                    Some(0u8)
                } else {
                    self.nodes[e].result
                })
            }
    }

    /// The memory becomes `new` when the resources of `mode` are released.
    ///
    /// The state word alone changes if nobody waits or if some task is already processing the
    /// queue. Otherwise the current task processes the queue.
    pub open spec fn releases(self, new: Memory, mode: Opcode, alone: bool) -> bool {
        &&& mode.releasable(self.data())
        &&& if self.tail() == 0 || WaitQueue::flagged(self.word) {
            new == self.counted((self.word - mode.held()) as usize)
        } else {
            let locked = Memory { held: true, ..self.counted((self.word + 64 - mode.held()) as usize) };
            &&& !new.held
            &&& !WaitQueue::flagged(new.word)
            &&& exists|served: Seq<usize>| #[trigger] locked.progresses(new, served)
            &&& alone ==> exists|number: int| #[trigger] locked.hands_off(new, number)
        }
    }

    /// While the current task processes the queue, the memory turns into `new`: other tasks append
    /// entries and release resources, and the current task links entries to newer ones.
    pub open spec fn drifts(self, new: Memory) -> bool {
        let queue = self.queue();
        &&& new.wf()
        &&& new.held
        &&& new.mine == self.mine
        &&& new.delivered == self.delivered
        &&& new.added == self.added
        &&& new.received == self.received
        &&& new.spare == self.spare
        &&& new.discipline == self.discipline
        &&& self.keeps(new)
        &&& queue.is_prefix_of(new.queue())
        &&& forall|i: int|
            #![trigger queue[i]]
            0 <= i < queue.len() ==> new.nodes[queue[i]] == (Node {
                prev: new.nodes[queue[i]].prev,
                ..self.nodes[queue[i]]
            })
        &&& self.discipline is Limited ==> new.data() <= self.data()
        &&& self.discipline is Barrier ==> new.word == self.word && new.total() == self.total()
    }

    /// The resources in use and those that the waiting tasks will hold.
    pub open spec fn total(self) -> nat {
        self.data() + demand(self.nodes, self.queue(), self.queue().len() as int)
    }

    /// The memory becomes `new` when the current task takes `entry` out of the queue.
    ///
    /// The queue is not processed any more if it has become empty.
    pub open spec fn removes(self, new: Memory, entry: usize, alone: bool) -> bool {
        let queue = self.queue();
        let rest = queue.remove(queue.index_of(entry));
        &&& queue.contains(entry)
        &&& new.mine == self.mine.insert(entry)
        &&& new.delivered == self.delivered
        &&& self.discipline is Limited ==> new.added == self.added
        &&& new.received == self.received
        &&& new.spare == self.spare
        &&& new.discipline == self.discipline
        &&& self.keeps(new)
        &&& rest.is_prefix_of(new.queue())
        &&& !new.queue().contains(entry)
        &&& new.nodes[entry].opcode == self.nodes[entry].opcode
        &&& self.discipline is Limited ==> new.data() <= self.data()
        &&& self.discipline is Barrier && new.held ==> new.data() == self.data() && new.total()
            + self.nodes[entry].opcode.held() == self.total()
        &&& !new.held ==> new.queue().len() == 0 && !WaitQueue::flagged(new.word)
        &&& alone ==> {
            &&& new.queue() == rest
            &&& new.held == (rest.len() > 0)
            &&& self.discipline is Limited || new.held ==> new.data() == self.data()
            &&& same_bodies(self.nodes, new.nodes)
        }
    }

    /// The current task may take `entry` out of the queue and add `refund` resources.
    pub open spec fn may_remove(self, entry: usize, refund: nat) -> bool {
        match self.discipline {
            Discipline::Limited { limit, .. } => refund == 0,
            Discipline::Gate => false,
            Discipline::Barrier { total } => {
                &&& self.total() == total
                &&& total < 64
                &&& self.queue().contains(entry) ==> refund == self.nodes[entry].opcode.held()
            },
        }
    }

    /// The memory becomes `new` when the current task gives up waiting in `entry`: the entry is
    /// taken out of the queue, and the entries behind it are served as far as they fit.
    pub open spec fn withdraws(self, new: Memory, entry: usize, alone: bool) -> bool {
        let locked = Memory { held: true, ..self.counted((self.word + 64) as usize) };
        &&& !WaitQueue::flagged(self.word)
        &&& exists|gone: Memory| #[trigger]
            locked.removes(gone, entry, alone) && (if gone.held {
                &&& !new.held
                &&& !WaitQueue::flagged(new.word)
                &&& exists|served: Seq<usize>| #[trigger] gone.progresses(new, served)
                &&& alone ==> exists|number: int| #[trigger] gone.hands_off(new, number)
            } else {
                new == gone
            })
    }

    /// The memory still looks the same to the current task, whatever has happened to the others.
    pub open spec fn continues(self, new: Memory) -> bool {
        &&& new.held == self.held
        &&& new.mine == self.mine
        &&& self.discipline is Limited ==> self.balances(new)
        &&& new.discipline == self.discipline
        &&& self.keeps(new)
    }

    /// The memory differs from `new` at most in the links towards newer entries, and in the results
    /// that were handed out so far.
    pub open spec fn same_state(self, new: Memory) -> bool {
        &&& new.word == self.word
        &&& new.held == self.held
        &&& new.mine == self.mine
        &&& new.own == self.own
        &&& self.discipline is Limited ==> new.added == self.added
        &&& new.received == self.received
        &&& new.spare == self.spare
        &&& new.roster == self.roster
        &&& new.discipline == self.discipline
        &&& new.queue() == self.queue()
        &&& same_bodies(self.nodes, new.nodes)
    }

    /// The memory becomes `new` when the current task, whose entry has been handed `result`, gives
    /// up: the resources that came with the result zero are released.
    pub open spec fn forgoes(self, new: Memory, mode: Opcode, result: u8, alone: bool) -> bool {
        if result == 0 && (alone ==> mode.releasable(self.data())) {
            self.releases(new, mode, alone) || (!alone && self.continues(new) && !mode.releasable(
                new.data(),
            ))
        } else {
            new == self
        }
    }

    /// A task that tries to acquire the resources of `opcode` may have to wait while other tasks
    /// may still intervene the given number of times.
    ///
    /// It does not have to if nobody intervenes and the resources are available, or if the
    /// primitive is poisoned.
    pub open spec fn may_block(self, opcode: Opcode, pending: nat) -> bool {
        pending > 0 || self.may_wait(opcode, self.word)
    }

    /// A task that has seen `seen` has to wait for `opcode`, so its entry may be appended to the
    /// queue.
    pub open spec fn may_wait(self, opcode: Opcode, seen: usize) -> bool {
        &&& seen != 64
        &&& match self.discipline {
            Discipline::Limited { limit, .. } => WaitQueue::addr_of(seen) == 0 ==> !admits(
                limit,
                WaitQueue::data_of(seen),
                opcode,
            ),
            Discipline::Gate => WaitQueue::data_of(seen) == 0,
            Discipline::Barrier { total } => false,
        }
    }

    /// The memory becomes `new` when the current task links `entry` to the address in `seen` and,
    /// while the state word is `seen`, appends it to the queue.
    #[verifier::opaque]
    pub open spec fn pushes(self, new: Memory, entry: usize, seen: usize, alone: bool) -> bool {
        let ready = self.with_next(entry, WaitQueue::addr_of(seen));
        let mid = Memory { word: seen, nodes: new.nodes, ..self };
        &&& ready.rely(mid)
        &&& alone ==> mid == ready
        &&& new.word == entry + seen % 128
        &&& new == mid.swapped(new.word)
        &&& new.queue() == mid.queue().push(entry)
        &&& new.mine == self.mine.remove(entry)
        &&& new.held == self.held
    }

    /// The memory becomes `new` when the current task links `entry` to the address in `seen`, but
    /// cannot append it to the queue since the state word is not `seen`.
    #[verifier::opaque]
    pub open spec fn misses(self, new: Memory, entry: usize, seen: usize, alone: bool) -> bool {
        let ready = self.with_next(entry, WaitQueue::addr_of(seen));
        &&& ready.rely(new)
        &&& alone ==> new == ready
        &&& new.word != seen
    }

    /// The memory becomes `new` when the current task starts to wait: `entry` is created and, while
    /// the state word is `seen`, appended to the queue.
    pub open spec fn enqueues(
        self,
        new: Memory,
        entry: usize,
        opcode: Opcode,
        seen: usize,
        alone: bool,
    ) -> bool {
        &&& !self.own.contains(entry)
        &&& !self.mine.contains(entry)
        &&& !self.queue().contains(entry)
        &&& new.own == self.own.insert(entry)
        &&& new.mine == self.mine
        &&& new.held == self.held
        &&& new.delivered == self.delivered
        &&& new.added == self.added
        &&& new.received == self.received
        &&& new.spare == self.spare
        &&& new.roster == self.roster
        &&& new.discipline == self.discipline
        &&& new.nodes[entry].opcode == opcode
        &&& new.nodes[entry].result is None
        &&& new.word == entry + seen % 128
        &&& new.queue().len() > 0
        &&& new.queue().last() == entry
        &&& forall|e: usize| #[trigger] self.mine.contains(e) ==> new.nodes[e] == self.nodes[e]
        &&& forall|e: usize| #[trigger]
            self.own.contains(e) ==> {
                &&& new.nodes[e].opcode == self.nodes[e].opcode
                &&& new.nodes[e].is_sync == self.nodes[e].is_sync
                &&& self.nodes[e].result is Some ==> new.nodes[e] == self.nodes[e]
                &&& !self.queue().contains(e) ==> !new.queue().contains(e)
            }
        &&& alone ==> {
            &&& seen == self.word
            &&& new.queue() == self.queue().push(entry)
            &&& new.nodes == self.nodes.insert(
                entry,
                Node {
                    next: self.tail(),
                    prev: 0,
                    opcode,
                    is_sync: new.nodes[entry].is_sync,
                    result: None,
                },
            )
        }
    }

    /// The current task acquires the resources of `opcode` right away: nobody waits, and they are
    /// available.
    pub open spec fn takes(self, new: Memory, opcode: Opcode) -> bool {
        &&& self.tail() == 0
        &&& !WaitQueue::flagged(self.word)
        &&& self.discipline is Limited
        &&& admits(self.discipline->limit, self.data(), opcode)
        &&& new == self.counted((self.word + opcode.held()) as usize)
    }

    /// The memory becomes `new` when the current task tries to acquire the resources of `opcode`.
    ///
    /// The resources are acquired, or it is found out while the state word is `seen` that they
    /// are not available or that the primitive is poisoned.
    pub open spec fn attempts(
        self,
        new: Memory,
        opcode: Opcode,
        result: u8,
        seen: usize,
        alone: bool,
    ) -> bool {
        match result {
            0 => exists|mid: Memory| #[trigger]
                self.rely(mid) && mid.takes(new, opcode) && (alone ==> mid == self),
            1 => {
                &&& self.rely(new)
                &&& seen == new.word
                &&& new.may_wait(opcode, seen)
                &&& alone ==> new == self
            },
            2 => {
                &&& self.rely(new)
                &&& seen == new.word
                &&& seen == 64
                &&& alone ==> new == self
            },
            _ => false,
        }
    }

    /// The memory becomes `new` when the current task acquires the resources of `opcode`, or starts
    /// to wait for them.
    ///
    /// The resources are acquired right away unless somebody waits, they are not available, or the
    /// primitive is poisoned.
    pub open spec fn acquires(
        self,
        new: Memory,
        opcode: Opcode,
        outcome: Acquisition,
        alone: bool,
    ) -> bool {
        match outcome {
            Acquisition::Done(acquired) => if acquired {
                exists|mid: Memory| #[trigger]
                    self.rely(mid) && mid.takes(new, opcode) && (alone ==> mid == self)
            } else {
                &&& self.rely(new)
                &&& new.word == 64
                &&& alone ==> new == self
            },
            Acquisition::Waiting(entry) => exists|mid: Memory, seen: usize|
                self.rely(mid) && #[trigger] mid.may_wait(opcode, seen) && mid.enqueues(
                    new,
                    entry,
                    opcode,
                    seen,
                    alone,
                ) && (alone ==> mid == self),
        }
    }

    /// The task of this view has created `entry` and not pushed it yet; apart from that, only other
    /// tasks have turned the memory into `new`.
    pub open spec fn prepares(self, new: Memory, entry: usize, opcode: Opcode) -> bool {
        &&& !self.own.contains(entry)
        &&& !self.mine.contains(entry)
        &&& !self.queue().contains(entry)
        &&& new.own == self.own.insert(entry)
        &&& new.mine == self.mine.insert(entry)
        &&& new.held == self.held
        &&& new.spare == self.spare
        &&& new.roster == self.roster
        &&& new.discipline == self.discipline
        &&& new.nodes[entry].opcode == opcode
        &&& new.nodes[entry].prev == 0
        &&& forall|e: usize| #[trigger] self.mine.contains(e) ==> new.nodes[e] == self.nodes[e]
        &&& forall|e: usize| #[trigger]
            self.own.contains(e) ==> {
                &&& new.nodes[e].opcode == self.nodes[e].opcode
                &&& new.nodes[e].is_sync == self.nodes[e].is_sync
                &&& self.nodes[e].result is Some ==> new.nodes[e] == self.nodes[e]
                &&& !self.queue().contains(e) ==> !new.queue().contains(e)
            }
    }

    /// The resources of `opcode` can be acquired, or are available if the task merely waits for
    /// them.
    pub open spec fn available(self, word: usize, opcode: Opcode) -> bool {
        &&& word != 64
        &&& admits(self.discipline->limit, WaitQueue::data_of(word), opcode)
        &&& opcode is Wait || WaitQueue::addr_of(word) == 0
    }

    /// All the entries but `entry` are as they were.
    pub open spec fn same_others(self, new: Memory, entry: usize) -> bool {
        forall|e: usize|
            #![trigger new.nodes[e]]
            #![trigger new.nodes.dom().contains(e)]
            self.nodes.dom().contains(e) && e != entry ==> new.nodes.dom().contains(e)
                && new.nodes[e] == self.nodes[e]
    }

    /// Only `entry` was created.
    pub open spec fn untouched(self, new: Memory, entry: usize) -> bool {
        &&& new.word == self.word
        &&& new.queue() == self.queue()
        &&& self.same_others(new, entry)
    }

    /// The memory becomes `new` when `entry` is created, and appended to the queue or handed a
    /// result.
    pub open spec fn installs(self, new: Memory, entry: usize, opcode: Opcode) -> bool {
        &&& !self.own.contains(entry)
        &&& !self.mine.contains(entry)
        &&& !self.queue().contains(entry)
        &&& new.own == self.own.insert(entry)
        &&& new.mine == self.mine
        &&& new.held == self.held
        &&& new.spare == self.spare
        &&& new.roster == self.roster
        &&& new.discipline == self.discipline
        &&& new.nodes[entry].opcode == opcode
        &&& forall|e: usize| #[trigger] self.mine.contains(e) ==> new.nodes[e] == self.nodes[e]
        &&& forall|e: usize| #[trigger]
            self.own.contains(e) ==> {
                &&& new.nodes[e].opcode == self.nodes[e].opcode
                &&& new.nodes[e].is_sync == self.nodes[e].is_sync
                &&& self.nodes[e].result is Some ==> new.nodes[e] == self.nodes[e]
                &&& !self.queue().contains(e) ==> !new.queue().contains(e)
            }
        &&& match new.nodes[entry].result {
            Some(result) => !new.queue().contains(entry),
            None => new.queue().len() > 0 && new.queue().last() == entry,
        }
    }

    /// The current task has handed out a result if `entry` has one, and no other results.
    pub open spec fn answers(self, new: Memory, entry: usize, opcode: Opcode) -> bool {
        new.delivered == (match new.nodes[entry].result {
            Some(result) => self.delivered.push(
                Delivery { entry, opcode, result, waker: self.waker(entry) },
            ),
            None => self.delivered,
        })
    }

    /// The memory becomes `new` when `entry` is registered: the task is handed a result right away,
    /// or its entry is appended to the queue.
    pub open spec fn registers(self, new: Memory, entry: usize, opcode: Opcode, alone: bool) -> bool {
        &&& self.installs(new, entry, opcode)
        &&& new.nodes[entry].result matches Some(result) ==> {
            result == 0 && opcode.held() <= new.word && self.available(
                (new.word - opcode.held()) as usize,
                opcode,
            ) || result == 2 && new.word == 64
        }
        &&& self.answers(new, entry, opcode)
        &&& new.received == self.received
        &&& new.added == self.added.plus(
            if new.nodes[entry].result == Some(0u8) {
                Tally::of(self.discipline, opcode.held())
            } else {
                Tally::none()
            },
        )
        &&& alone ==> self.same_others(new, entry)
        &&& alone ==> if self.word == 64 || self.available(self.word, opcode) {
            &&& new.nodes[entry].result == Some(if self.word == 64 {
                2u8
            } else {
                0
            })
            &&& new.word == self.word + (if self.word == 64 {
                0
            } else {
                opcode.held()
            })
            &&& new.queue() == self.queue()
        } else {
            &&& new.word == entry + self.word % 128
            &&& new.queue() == self.queue().push(entry)
        }
    }

    /// The memory becomes `new` when the state word is replaced with `word`, and all the waiting
    /// tasks are handed `result`.
    pub open spec fn dismisses(self, new: Memory, word: usize, result: u8) -> bool {
        &&& new.word == word
        &&& new.added == self.counted(word).added
        &&& new.received == self.received
        &&& new.spare == self.spare
        &&& new.roster == self.roster
        &&& self.calls(new)
        &&& new.queue() == Seq::<usize>::empty()
        &&& !new.held
        &&& new.mine == self.mine
        &&& new.own == self.own
        &&& new.discipline == self.discipline
        &&& new.nodes.dom() == self.nodes.dom()
        &&& forall|e: usize|
            #![trigger new.nodes[e]]
            self.nodes.dom().contains(e) ==> new.nodes[e] == (Node {
                result: if self.queue().contains(e) {
                    Some(result)
                } else {
                    self.nodes[e].result
                },
                ..self.nodes[e]
            })
        &&& self.delivered.is_prefix_of(new.delivered)
        &&& new.delivered.len() == self.delivered.len() + self.queue().len()
        &&& forall|i: int|
            #![trigger new.delivered[i]]
            self.delivered.len() <= i < new.delivered.len() ==> new.delivered[i].result == result
        &&& forall|e: usize| #[trigger]
            self.queue().contains(e) <==> handed(new.delivered, self.delivered.len() as int, e)
    }

    /// The memory becomes `new` when the primitive is poisoned while an exclusive lock is held:
    /// each waiting task is handed the result `2`.
    pub open spec fn poisons(self, new: Memory) -> bool {
        &&& self.data() == 63
        &&& !WaitQueue::flagged(self.word)
        &&& self.dismisses(new, 64, 2)
    }

    /// The memory becomes `new` when the current task gives up waiting in `entry` and destroys it.
    ///
    /// Either the entry is withdrawn, or it has been handed a result already; then what came with
    /// the result is released.
    pub open spec fn cleans_up(self, new: Memory, entry: usize, alone: bool) -> bool {
        let opcode = self.nodes[entry].opcode;
        exists|done: Memory| #[trigger]
            done.without_entry(entry) == new && done.wf() && !done.queue().contains(entry) && {
                ||| {
                    &&& exists|mid: Memory| #[trigger]
                        self.rely(mid) && mid.withdraws(done, entry, alone) && (alone ==> mid
                            == self)
                    &&& alone ==> self.queue().contains(entry)
                }
                ||| {
                    &&& done.nodes[entry].result is Some
                    &&& exists|mid: Memory| #[trigger]
                        self.continues(mid) && mid.wf() && mid.nodes[entry].result == done.nodes[entry].result
                            && mid.forgoes(done, opcode, done.nodes[entry].result->0, alone) && (
                        alone ==> self.same_state(mid))
                    &&& alone ==> done.nodes[entry].result == self.nodes[entry].result
                }
            }
    }

    /// An entry was created while the memory was `first`, and `result` was found out while the
    /// state word was `seen`: `0` if the resources of the entry were acquired or are available, `1`
    /// if the task has to wait, and `2` if the primitive is poisoned.
    pub open spec fn tried(
        self,
        first: Memory,
        entry: usize,
        opcode: Opcode,
        result: u8,
        seen: usize,
        alone: bool,
    ) -> bool {
        &&& first.prepares(self, entry, opcode)
        &&& self.delivered == first.delivered
        &&& self.received == first.received
        &&& self.added == first.added.plus(
            if result == 0 {
                Tally::of(first.discipline, opcode.held())
            } else {
                Tally::none()
            },
        )
        &&& match result {
            0 => {
                &&& opcode.held() <= self.word
                &&& first.available((self.word - opcode.held()) as usize, opcode)
                &&& alone ==> first.word == self.word - opcode.held()
            },
            1 => {
                &&& seen == self.word
                &&& self.may_wait(opcode, seen)
                &&& !first.available(seen, opcode)
                &&& alone ==> first.word == self.word
            },
            2 => {
                &&& self.word == 64
                &&& alone ==> first.word == self.word
            },
            _ => false,
        }
        &&& alone ==> self.queue() == first.queue() && first.same_others(self, entry)
    }

    /// The memory of a new primitive.
    pub open spec fn fresh(word: usize, discipline: Discipline) -> Memory {
        Memory {
            word,
            held: false,
            mine: Set::empty(),
            own: Set::empty(),
            nodes: Map::empty(),
            delivered: Seq::empty(),
            added: Tally::none(),
            received: Tally::none(),
            spare: Tally::none(),
            roster: Roster { wakers: Map::empty(), resumed: 0 },
            discipline,
        }
    }

    /// The memory after the `next` link of an entry has been replaced.
    pub open spec fn with_next(self, entry: usize, next: usize) -> Memory {
        self.relinked(
            Memory {
                nodes: self.nodes.insert(entry, Node { next, ..self.nodes[entry] }),
                ..self
            },
        )
    }

    /// The memory after the `prev` link of an entry has been replaced.
    pub open spec fn with_prev(self, entry: usize, prev: usize) -> Memory {
        Memory { nodes: self.nodes.insert(entry, Node { prev, ..self.nodes[entry] }), ..self }
    }

    /// The memory after a result has been handed to the task waiting in `entry`.
    pub open spec fn with_result(self, entry: usize, result: u8) -> Memory {
        Memory {
            nodes: self.nodes.insert(entry, Node { result: Some(result), ..self.nodes[entry] }),
            mine: self.mine.remove(entry),
            delivered: self.delivered.push(
                Delivery {
                    entry,
                    opcode: self.nodes[entry].opcode,
                    result,
                    waker: self.waker(entry),
                },
            ),
            spare: self.left(entry, result),
            ..self
        }
    }

    /// The memory after an entry has been created.
    pub open spec fn with_entry(self, entry: usize, opcode: Opcode, is_sync: bool) -> Memory {
        Memory {
            nodes: self.nodes.insert(entry, Node { next: 0, prev: 0, opcode, is_sync, result: None }),
            mine: self.mine.insert(entry),
            own: self.own.insert(entry),
            ..self
        }
    }

    /// The resources that came with the result of an entry.
    pub open spec fn grant(self, entry: usize) -> Tally {
        if self.nodes[entry].result == Some(0u8) {
            Tally::of(self.discipline, self.nodes[entry].opcode.held())
        } else {
            Tally::none()
        }
    }

    /// The memory after an entry has been destroyed.
    pub open spec fn without_entry(self, entry: usize) -> Memory {
        Memory {
            nodes: self.nodes.remove(entry),
            mine: self.mine.remove(entry),
            own: self.own.remove(entry),
            received: self.received.plus(self.grant(entry)),
            roster: Roster { wakers: self.roster.wakers.remove(entry), ..self.roster },
            ..self
        }
    }

    /// The task to resume once the entry is handed a result.
    pub open spec fn waker(self, entry: usize) -> Option<u64> {
        if self.roster.wakers.dom().contains(entry) {
            Some(self.roster.wakers[entry])
        } else {
            None
        }
    }

    /// The memory after a task to resume has been registered in an entry.
    pub open spec fn with_waker(self, entry: usize, task: u64) -> Memory {
        Memory {
            roster: Roster { wakers: self.roster.wakers.insert(entry, task), ..self.roster },
            ..self
        }
    }

    /// The tasks to resume for the results that the current task has handed out until the memory
    /// became `new` are those that were registered in the entries.
    #[verifier::opaque]
    pub open spec fn calls(self, new: Memory) -> bool {
        forall|i: int|
            #![trigger new.delivered[i]]
            self.delivered.len() <= i < new.delivered.len() ==> new.delivered[i].waker
                == self.waker(new.delivered[i].entry)
    }
}


/// Results that are handed out later do not take resources away.
pub proof fn lemma_acquired_grows(a: Seq<Delivery>, b: Seq<Delivery>)
    requires
        a.is_prefix_of(b),
    ensures
        acquired(a) <= acquired(b),
    decreases b.len(),
{
    if a.len() < b.len() {
        assert(a =~= b.drop_last().take(a.len() as int));
        lemma_acquired_grows(a, b.drop_last());
    } else {
        assert(a =~= b);
    }
}

/// Exactly the entries of the chain are handed a result.
pub proof fn lemma_handed(delivered: Seq<Delivery>, number: int, chain: Seq<usize>)
    requires
        0 <= number,
        delivered.len() == number + chain.len(),
        forall|i: int|
            #![trigger delivered[i]]
            number <= i < delivered.len() ==> delivered[i].entry == chain[delivered.len() - 1 - i],
    ensures
        forall|e: usize| #[trigger] chain.contains(e) <==> handed(delivered, number, e),
{
    assert forall|e: usize| #[trigger] chain.contains(e) implies handed(delivered, number, e) by {
        let i = chain.index_of(e);
        assert(delivered[delivered.len() - 1 - i].entry == e);
    }
    assert forall|e: usize| handed(delivered, number, e) implies #[trigger] chain.contains(e) by {
        let i = choose|i: int|
            number <= i < delivered.len() && (#[trigger] delivered[i]).entry == e;
        assert(chain[delivered.len() - 1 - i] == e);
    }
}

/// At most one sequence of entries is reachable from a tail.
pub proof fn lemma_linked_unique(
    nodes: Map<usize, Node>,
    tail: usize,
    a: Seq<usize>,
    b: Seq<usize>,
)
    requires
        linked(nodes, tail, a),
        linked(nodes, tail, b),
    ensures
        a == b,
    decreases a.len(),
{
    if a.len() > 0 {
        let next = nodes[tail].next;
        let c = a.drop_last();
        let d = b.drop_last();
        assert(nodes[a[a.len() - 1]].next == next);
        assert(nodes[b[b.len() - 1]].next == next);
        assert(linked(nodes, next, c)) by {
            if c.len() > 0 {
                assert(c.last() == a[a.len() - 2]);
            }
            assert forall|i: int|
                #![trigger nodes[c[i]]]
                0 < i < c.len() implies nodes[c[i]].next == c[i - 1] by {
                assert(nodes[a[i]].next == a[i - 1]);
            }
        }
        assert(linked(nodes, next, d)) by {
            if d.len() > 0 {
                assert(d.last() == b[b.len() - 2]);
            }
            assert forall|i: int|
                #![trigger nodes[d[i]]]
                0 < i < d.len() implies nodes[d[i]].next == d[i - 1] by {
                assert(nodes[b[i]].next == b[i - 1]);
            }
        }
        lemma_linked_unique(nodes, next, c, d);
        assert(a == c.push(tail));
        assert(b == d.push(tail));
    } else {
        assert(a =~= b);
    }
}

/// Links outside the queue do not matter.
pub proof fn lemma_linked_frame(
    nodes: Map<usize, Node>,
    other: Map<usize, Node>,
    tail: usize,
    queue: Seq<usize>,
)
    requires
        linked(nodes, tail, queue),
        forall|i: int|
            #![trigger queue[i]]
            0 <= i < queue.len() ==> other.dom().contains(queue[i]) && other[queue[i]].next
                == nodes[queue[i]].next,
    ensures
        linked(other, tail, queue),
{
    assert forall|i: int|
        #![trigger other[queue[i]]]
        0 < i < queue.len() implies other[queue[i]].next == queue[i - 1] by {
        assert(nodes[queue[i]].next == queue[i - 1]);
    }
}

/// The demand only depends on the operations of the entries that are counted.
pub proof fn lemma_demand_frame(
    a: Map<usize, Node>,
    p: Seq<usize>,
    b: Map<usize, Node>,
    q: Seq<usize>,
    number: int,
)
    requires
        number <= p.len(),
        number <= q.len(),
        forall|i: int|
            #![trigger p[i]]
            #![trigger q[i]]
            0 <= i < number ==> p[i] == q[i] && a[p[i]].opcode == b[p[i]].opcode,
    ensures
        demand(a, p, number) == demand(b, q, number),
    decreases number,
{
    if number > 0 {
        lemma_demand_frame(a, p, b, q, number - 1);
        assert(p[number - 1] == q[number - 1]);
    }
}

/// The amount depends only on the operations of the entries.
pub proof fn lemma_load_frame(
    discipline: Discipline,
    a: Map<usize, Node>,
    p: Seq<usize>,
    b: Map<usize, Node>,
    q: Seq<usize>,
    number: int,
)
    requires
        number <= p.len(),
        number <= q.len(),
        forall|i: int|
            #![trigger p[i]]
            #![trigger q[i]]
            0 <= i < number ==> p[i] == q[i] && a[p[i]].opcode == b[p[i]].opcode,
    ensures
        load(discipline, a, p, number) == load(discipline, b, q, number),
    decreases number,
{
    if number > 0 {
        lemma_load_frame(discipline, a, p, b, q, number - 1);
        assert(p[number - 1] == q[number - 1]);
    }
}

/// The amount of a queue is that of its oldest entry and that of the others.
pub proof fn lemma_load_first(discipline: Discipline, nodes: Map<usize, Node>, queue: Seq<usize>)
    requires
        queue.len() > 0,
    ensures
        load(discipline, nodes, queue, queue.len() as int) == load(
            discipline,
            nodes,
            queue.skip(1),
            queue.len() - 1,
        ).plus(Tally::of(discipline, nodes[queue[0]].opcode.held())),
    decreases queue.len(),
{
    if queue.len() > 1 {
        let last = queue.drop_last();
        lemma_load_first(discipline, nodes, last);
        lemma_load_frame(discipline, nodes, last, nodes, queue, last.len() as int);
        lemma_load_frame(
            discipline,
            nodes,
            last.skip(1),
            nodes,
            queue.skip(1),
            last.len() - 1,
        );
        assert(queue.skip(1)[queue.len() - 2] == queue[queue.len() - 1]);
    } else {
        assert(load(discipline, nodes, queue, 0) == Tally::none());
        assert(load(discipline, nodes, queue.skip(1), 0) == Tally::none());
    }
}

/// Entries that fit add to the resources in use exactly what they will hold, also if some of the
/// resources have been released in the meantime.
pub proof fn lemma_load_fits(
    discipline: Discipline,
    data: nat,
    less: nat,
    nodes: Map<usize, Node>,
    queue: Seq<usize>,
    number: int,
)
    requires
        discipline is Limited,
        discipline->limit <= 63,
        less <= data,
        fits(discipline->limit, data, nodes, queue, number),
        data + demand(nodes, queue, number) <= 63,
    ensures
        Tally::of(discipline, less + demand(nodes, queue, number)) == Tally::of(
            discipline,
            less,
        ).plus(load(discipline, nodes, queue, number)),
    decreases number,
{
    if number > 0 {
        lemma_load_fits(discipline, data, less, nodes, queue, number - 1);
        assert(admits(
            discipline->limit,
            data + demand(nodes, queue, number - 1),
            nodes[queue[number - 1]].opcode,
        ));
    }
}

/// What entries will hold is never less than nothing.
pub proof fn lemma_load_valid(
    discipline: Discipline,
    nodes: Map<usize, Node>,
    queue: Seq<usize>,
    number: int,
)
    ensures
        load(discipline, nodes, queue, number).valid(),
    decreases number,
{
    if number > 0 {
        lemma_load_valid(discipline, nodes, queue, number - 1);
    }
}

/// The newer entries hold no more than all of them.
pub proof fn lemma_load_part(
    discipline: Discipline,
    nodes: Map<usize, Node>,
    queue: Seq<usize>,
    index: int,
)
    requires
        0 <= index <= queue.len(),
    ensures
        load(discipline, nodes, queue, queue.len() as int).minus(
            load(discipline, nodes, queue.skip(index), queue.len() - index),
        ).valid(),
    decreases index,
{
    if index > 0 {
        lemma_load_part(discipline, nodes, queue, index - 1);
        lemma_load_first(discipline, nodes, queue.skip(index - 1));
        assert(queue.skip(index - 1).skip(1) =~= queue.skip(index));
    } else {
        assert(queue.skip(0) =~= queue);
    }
}

/// Serving entries that fit means to add resources.
pub proof fn lemma_load_gain(
    discipline: Discipline,
    data: nat,
    less: nat,
    nodes: Map<usize, Node>,
    queue: Seq<usize>,
    number: int,
)
    requires
        discipline is Limited,
        discipline->limit <= 63,
        less <= data,
        fits(discipline->limit, data, nodes, queue, number),
        data + demand(nodes, queue, number) <= 63,
    ensures
        Tally::of(discipline, less + demand(nodes, queue, number)).minus(
            Tally::of(discipline, less),
        ).valid(),
{
    lemma_load_fits(discipline, data, less, nodes, queue, number);
    lemma_load_valid(discipline, nodes, queue, number);
}

/// The demand of a queue is the demand of its oldest entries and that of the others.
pub proof fn lemma_demand_split(nodes: Map<usize, Node>, queue: Seq<usize>, index: int)
    requires
        0 <= index <= queue.len(),
    ensures
        demand(nodes, queue, queue.len() as int) == demand(nodes, queue, index) + demand(
            nodes,
            queue.skip(index),
            queue.len() - index,
        ),
    decreases queue.len() - index,
{
    if index < queue.len() {
        let last = queue.drop_last();
        lemma_demand_split(nodes, last, index);
        lemma_demand_frame(nodes, last, nodes, queue, last.len() as int);
        lemma_demand_frame(nodes, last, nodes, queue, index);
        lemma_demand_frame(
            nodes,
            last.skip(index),
            nodes,
            queue.skip(index),
            last.len() - index,
        );
        assert(queue.skip(index)[queue.len() - index - 1] == queue[queue.len() - 1]);
    }
}

/// Removing an entry reduces the demand by what the entry would hold.
pub proof fn lemma_demand_remove(nodes: Map<usize, Node>, queue: Seq<usize>, index: int)
    requires
        0 <= index < queue.len(),
    ensures
        demand(nodes, queue, queue.len() as int) == demand(
            nodes,
            queue.remove(index),
            queue.len() - 1,
        ) + nodes[queue[index]].opcode.held(),
{
    let rest = queue.remove(index);
    lemma_demand_split(nodes, queue, index + 1);
    lemma_demand_split(nodes, rest, index);
    lemma_demand_frame(nodes, queue, nodes, rest, index);
    assert(queue.skip(index + 1) =~= rest.skip(index));
    assert(demand(nodes, queue, index + 1) == demand(nodes, queue, index)
        + nodes[queue[index]].opcode.held());
}

/// Entries have different addresses, so there are fewer of them than addresses.
pub proof fn lemma_chain_len(nodes: Map<usize, Node>, tail: usize, chain: Seq<usize>)
    requires
        linked(nodes, tail, chain),
    ensures
        chain.len() <= usize::MAX,
{
    let addresses = chain.map(|i: int, e: usize| e as int);
    assert(addresses.no_duplicates());
    addresses.unique_seq_to_set();
    let bound = vstd::set_lib::set_int_range(1, usize::MAX + 1);
    vstd::set_lib::lemma_int_range(1, usize::MAX + 1);
    assert(addresses.to_set().subset_of(bound)) by {
        assert forall|a: int| addresses.to_set().contains(a) implies bound.contains(a) by {
            let i = addresses.index_of(a);
            assert(addresses[i] == chain[i]);
        }
    }
    vstd::set_lib::lemma_len_subset(addresses.to_set(), bound);
}

/// The other elements stay in a sequence without duplicates when one is removed.
pub proof fn lemma_remove_contains(queue: Seq<usize>, index: int)
    requires
        queue.no_duplicates(),
        0 <= index < queue.len(),
    ensures
        forall|e: usize| #[trigger]
            queue.remove(index).contains(e) == (queue.contains(e) && e != queue[index]),
{
    let rest = queue.remove(index);
    assert forall|e: usize| #[trigger]
        rest.contains(e) == (queue.contains(e) && e != queue[index]) by {
        if queue.contains(e) && e != queue[index] {
            let i = queue.index_of(e);
            if i < index {
                assert(rest[i] == e);
            } else {
                assert(rest[i - 1] == e);
            }
        }
        if rest.contains(e) {
            let i = rest.index_of(e);
            if i < index {
                assert(queue[i] == e);
            } else {
                assert(queue[i + 1] == e);
            }
        }
    }
}

/// Linking the neighbours of an entry removes it from the queue.
pub proof fn lemma_linked_remove(
    nodes: Map<usize, Node>,
    tail: usize,
    queue: Seq<usize>,
    index: int,
)
    requires
        linked(nodes, tail, queue),
        0 <= index < queue.len() - 1,
    ensures
        linked(
            nodes.insert(
                queue[index + 1],
                Node { next: nodes[queue[index]].next, ..nodes[queue[index + 1]] },
            ),
            tail,
            queue.remove(index),
        ),
{
    let entry = queue[index + 1];
    let new = nodes.insert(entry, Node { next: nodes[queue[index]].next, ..nodes[entry] });
    let rest = queue.remove(index);
    assert(forall|i: int| 0 <= i < index ==> #[trigger] rest[i] == queue[i]);
    assert forall|i: int| index <= i < rest.len() implies #[trigger] rest[i] == queue[i + 1] by {
    }
    assert forall|i: int| 0 <= i < rest.len() implies new.dom().contains(#[trigger] rest[i])
        && rest[i] != 0 && WaitQueue::aligned(rest[i]) by {
        if i >= index {
            assert(nodes.dom().contains(queue[i + 1]));
        } else {
            assert(nodes.dom().contains(queue[i]));
        }
    }
    assert forall|i: int| #![trigger new[rest[i]]] 0 < i < rest.len() implies new[rest[i]].next
        == rest[i - 1] by {
        if i < index {
            assert(nodes[queue[i]].next == queue[i - 1]);
            assert(queue[i] != entry);
        } else if i == index {
            assert(rest[i] == entry);
            assert(nodes[queue[i]].next == queue[i - 1]);
        } else {
            assert(nodes[queue[i + 1]].next == queue[i]);
            assert(queue[i + 1] != entry);
            assert(rest[i - 1] == queue[i]);
        }
    }
    assert(rest.no_duplicates()) by {
        assert forall|i: int, j: int| 0 <= i < j < rest.len() implies rest[i] != rest[j] by {
        }
    }
    assert(rest.last() == queue.last()) by {
        assert(rest[rest.len() - 1] == queue[queue.len() - 1]);
    }
    assert(new[rest[0]].next == 0) by {
        if index == 0 {
            assert(rest[0] == entry);
        } else {
            assert(rest[0] == queue[0]);
            assert(queue[0] != entry);
        }
    }
}

impl Memory {
    /// Whatever is linked to the state word is the queue.
    pub proof fn lemma_queue(self, queue: Seq<usize>)
        requires
            linked(self.nodes, self.tail(), queue),
        ensures
            self.queue() == queue,
    {
        lemma_linked_unique(self.nodes, self.tail(), queue, self.queue());
    }

    /// Doing nothing is something that the other tasks may do.
    pub proof fn lemma_rely_reflexive(self)
        requires
            self.wf(),
        ensures
            self.rely(self),
    {
    }

    /// Whatever the other tasks do in several steps they may do at once.
    #[verifier::spinoff_prover]
    #[verifier::rlimit(40)]
    pub proof fn lemma_rely_transitive(self, mid: Memory, new: Memory)
        requires
            self.wf(),
            self.rely(mid),
            mid.rely(new),
        ensures
            self.rely(new),
    {
        if self.held {
            let queue = self.queue();
            assert forall|i: int|
                #![trigger queue[i]]
                0 <= i < queue.len() implies new.nodes[queue[i]]
                == self.nodes[queue[i]] by {
                assert(queue[i] == mid.queue()[i]);
            }
            assert forall|i: int|
                #![trigger new.queue()[i]]
                queue.len() <= i < new.queue().len() implies new.nodes[new.queue()[i]].prev
                == 0 by {
                if i < mid.queue().len() {
                    assert(mid.queue()[i] == new.queue()[i]);
                }
            }
        }
    }

    /// Keeping the address part of the state word keeps the queue.
    pub proof fn lemma_swap_same(self, word: usize)
        requires
            self.wf(),
            WaitQueue::addr_of(word) == self.tail(),
        ensures
            self.swapped(word).queue() == self.queue(),
            self.swapped(word).mine == self.mine,
    {
        let new = self.swapped(word);
        new.lemma_queue(self.queue());
        let raw = self.counted(word);
        Memory { held: raw.busy() && (self.held || !self.busy()), ..raw }.lemma_queue(self.queue());
        assert(new.mine =~= self.mine);
    }

    /// Clearing the address part of the state word takes all the entries out of the queue.
    pub proof fn lemma_swap_clear(self, word: usize)
        requires
            self.wf(),
            WaitQueue::addr_of(word) == 0,
        ensures
            self.swapped(word).queue() == Seq::<usize>::empty(),
            self.swapped(word).mine == self.mine.union(self.queue().to_set()),
    {
        let new = self.swapped(word);
        let none = Seq::<usize>::empty();
        assert(linked(new.nodes, 0, none));
        new.lemma_queue(none);
        let raw = self.counted(word);
        Memory { held: raw.busy() && (self.held || !self.busy()), ..raw }.lemma_queue(none);
        assert(new.mine =~= self.mine.union(self.queue().to_set()));
    }

    /// An entry linked to the newest entry is appended to the queue.
    pub proof fn lemma_swap_push(self, word: usize, entry: usize)
        requires
            self.wf(),
            self.mine.contains(entry),
            self.nodes[entry].next == self.tail(),
            WaitQueue::addr_of(word) == entry,
        ensures
            self.swapped(word).queue() == self.queue().push(entry),
            self.swapped(word).mine == self.mine.remove(entry),
    {
        let new = self.swapped(word);
        let queue = self.queue();
        let pushed = queue.push(entry);
        assert(linked(self.nodes, entry, pushed)) by {
            assert forall|i: int|
                #![trigger self.nodes[pushed[i]]]
                0 < i < pushed.len() implies self.nodes[pushed[i]].next == pushed[i - 1] by {
                if i < queue.len() {
                    assert(self.nodes[queue[i]].next == queue[i - 1]);
                }
            }
            assert(pushed.no_duplicates()) by {
                assert(!queue.contains(entry));
            }
        }
        new.lemma_queue(pushed);
        let raw = self.counted(word);
        Memory { held: raw.busy() && (self.held || !self.busy()), ..raw }.lemma_queue(pushed);
        assert forall|e: usize| pushed.contains(e) == (queue.contains(e) || e == entry) by {
            if queue.contains(e) {
                let i = queue.index_of(e);
                assert(pushed[i] == e);
            }
            assert(pushed[queue.len() as int] == entry);
            if pushed.contains(e) && e != entry {
                let i = choose|i: int| 0 <= i < pushed.len() && pushed[i] == e;
                assert(queue[i] == e);
            }
        }
        assert(new.mine =~= self.mine.remove(entry));
    }

    /// Pointing the state word at the second newest entry removes the newest one.
    pub proof fn lemma_swap_pop(self, word: usize)
        requires
            self.wf(),
            self.queue().len() > 1,
            WaitQueue::addr_of(word) == self.queue()[self.queue().len() - 2],
        ensures
            self.swapped(word).queue() == self.queue().drop_last(),
            self.swapped(word).mine == self.mine.insert(self.tail()),
    {
        let new = self.swapped(word);
        let queue = self.queue();
        let popped = queue.drop_last();
        assert(linked(self.nodes, WaitQueue::addr_of(word), popped)) by {
            assert forall|i: int|
                #![trigger self.nodes[popped[i]]]
                0 < i < popped.len() implies self.nodes[popped[i]].next == popped[i - 1] by {
                assert(self.nodes[queue[i]].next == queue[i - 1]);
            }
        }
        new.lemma_queue(popped);
        let raw = self.counted(word);
        Memory { held: raw.busy() && (self.held || !self.busy()), ..raw }.lemma_queue(popped);
        assert forall|e: usize| queue.contains(e) == (popped.contains(e) || e == queue.last()) by {
            if queue.contains(e) && e != queue.last() {
                let i = queue.index_of(e);
                assert(popped[i] == e);
            }
            if popped.contains(e) {
                let i = popped.index_of(e);
                assert(queue[i] == e);
            }
        }
        assert(!popped.contains(queue.last())) by {
            if popped.contains(queue.last()) {
                let i = popped.index_of(queue.last());
                assert(queue[i] == queue[queue.len() - 1]);
            }
        }
        assert(new.mine =~= self.mine.insert(self.tail()));
    }

    /// Ending the links at the entry at `index` removes all the older entries.
    #[verifier::spinoff_prover]
    #[verifier::rlimit(40)]
    pub proof fn lemma_cut(self, index: int)
        requires
            self.wf(),
            0 <= index < self.queue().len(),
        ensures
            self.with_next(self.queue()[index], 0).queue() == self.queue().skip(index),
            self.with_next(self.queue()[index], 0).mine == self.mine.union(
                self.queue().take(index).to_set(),
            ),
    {
        let queue = self.queue();
        let entry = queue[index];
        let new = self.with_next(entry, 0);
        let rest = queue.skip(index);
        let cut = queue.take(index);
        assert(linked(new.nodes, self.tail(), rest)) by {
            assert(rest.last() == queue.last());
            assert forall|i: int| 0 <= i < rest.len() implies new.nodes.dom().contains(
                #[trigger] rest[i],
            ) && rest[i] != 0 && WaitQueue::aligned(rest[i]) by {
                assert(rest[i] == queue[i + index]);
            }
            assert forall|i: int|
                #![trigger new.nodes[rest[i]]]
                0 < i < rest.len() implies new.nodes[rest[i]].next == rest[i - 1] by {
                assert(self.nodes[queue[i + index]].next == queue[i + index - 1]);
                assert(rest[i] != entry);
            }
        }
        Memory { nodes: new.nodes, ..self }.lemma_queue(rest);
        new.lemma_queue(rest);
        assert forall|e: usize|
            queue.contains(e) == (rest.contains(e) || cut.contains(e)) && !(rest.contains(e)
                && cut.contains(e)) by {
            if queue.contains(e) {
                let i = queue.index_of(e);
                if i < index {
                    assert(cut[i] == e);
                } else {
                    assert(rest[i - index] == e);
                }
            }
            if rest.contains(e) {
                let i = rest.index_of(e);
                assert(queue[i + index] == e);
                if cut.contains(e) {
                    let j = cut.index_of(e);
                    assert(queue[j] == e);
                }
            }
            if cut.contains(e) {
                let j = cut.index_of(e);
                assert(queue[j] == e);
            }
        }
        assert(new.mine =~= self.mine.union(cut.to_set()));
    }

    /// Linking the neighbours of the entry at `index` removes that entry alone.
    pub proof fn lemma_bypass(self, index: int)
        requires
            self.wf(),
            0 <= index < self.queue().len() - 1,
        ensures
            ({
                let new = self.with_next(
                    self.queue()[index + 1],
                    self.nodes[self.queue()[index]].next,
                );
                &&& new.queue() == self.queue().remove(index)
                &&& new.mine == self.mine.insert(self.queue()[index])
            }),
    {
        let queue = self.queue();
        let new = self.with_next(queue[index + 1], self.nodes[queue[index]].next);
        let rest = queue.remove(index);
        lemma_linked_remove(self.nodes, self.tail(), queue, index);
        Memory { nodes: new.nodes, ..self }.lemma_queue(rest);
        new.lemma_queue(rest);
        lemma_remove_contains(queue, index);
        assert(new.mine =~= self.mine.insert(queue[index]));
    }

    /// Links of an entry outside the queue do not matter.
    pub proof fn lemma_next_outside(self, entry: usize, next: usize)
        requires
            self.wf(),
            self.mine.contains(entry),
        ensures
            self.with_next(entry, next).queue() == self.queue(),
            self.with_next(entry, next).mine == self.mine,
            self.with_next(entry, next).wf(),
    {
        let new = self.with_next(entry, next);
        let queue = self.queue();
        assert forall|i: int| #![trigger queue[i]] 0 <= i < queue.len() implies queue[i]
            != entry by {
            assert(queue.contains(queue[i]));
        }
        lemma_linked_frame(self.nodes, new.nodes, self.tail(), queue);
        Memory { nodes: new.nodes, ..self }.lemma_queue(queue);
        new.lemma_queue(queue);
        assert(new.mine =~= self.mine);
        lemma_demand_frame(self.nodes, queue, new.nodes, queue, queue.len() as int);
    }

    /// Links towards newer entries do not matter.
    pub proof fn lemma_prev(self, entry: usize, prev: usize)
        requires
            self.wf(),
            self.nodes.dom().contains(entry),
            entry == self.tail() ==> prev == 0,
        ensures
            self.with_prev(entry, prev).queue() == self.queue(),
            self.with_prev(entry, prev).wf(),
    {
        let new = self.with_prev(entry, prev);
        let queue = self.queue();
        lemma_linked_frame(self.nodes, new.nodes, self.tail(), queue);
        new.lemma_queue(queue);
        lemma_demand_frame(self.nodes, queue, new.nodes, queue, queue.len() as int);
    }

    /// Links towards newer entries may be replaced one after another.
    pub proof fn lemma_differs_in_prev(self, now: Memory, entry: usize, prev: usize)
        requires
            self.wf(),
            now.wf(),
            self.differs_in_prev(now),
            self.queue().contains(entry),
            entry == self.tail() ==> prev == 0,
        ensures
            self.differs_in_prev(now.with_prev(entry, prev)),
    {
        let i = self.queue().index_of(entry);
        assert(self.queue()[i] == entry);
        now.lemma_prev(entry, prev);
        assert(now.with_prev(entry, prev).nodes.dom() =~= self.nodes.dom());
    }

    /// Handing out no result changes nothing.
    pub proof fn lemma_delivers_none(self, result: u8)
        ensures
            self.delivers(self, Seq::empty(), result),
    {
        reveal(Memory::delivers);
        assert(self.mine.difference(Seq::<usize>::empty().to_set()) =~= self.mine);
    }

    /// Results are handed out one after another, starting from the newest entry of the chain.
    #[verifier::spinoff_prover]
    #[verifier::rlimit(60)]
    pub proof fn lemma_delivers(self, now: Memory, chain: Seq<usize>, index: int, result: u8)
        requires
            self.wf(),
            now.wf(),
            chain.no_duplicates(),
            forall|i: int|
                #![trigger chain[i]]
                0 <= i < chain.len() ==> self.mine.contains(chain[i]),
            0 <= index < chain.len(),
            self.delivers(now, chain.skip(index + 1), result),
            result == 0 && self.discipline is Limited ==> self.spare.minus(
                load(self.discipline, self.nodes, chain, chain.len() as int),
            ).valid(),
        ensures
            now.mine.contains(chain[index]),
            now.may_deliver(chain[index], result),
            now.nodes[chain[index]] == self.nodes[chain[index]],
            self.delivers(now.with_result(chain[index], result), chain.skip(index), result),
    {
        reveal(Memory::delivers);
        let done = chain.skip(index + 1);
        let more = chain.skip(index);
        let entry = chain[index];
        assert(!done.contains(entry)) by {
            if done.contains(entry) {
                let i = done.index_of(entry);
                assert(chain[i + index + 1] == entry);
            }
        }
        assert(self.mine.contains(entry));
        assert forall|e: usize| #[trigger] more.contains(e) == (done.contains(e) || e == entry) by {
            if done.contains(e) {
                let i = done.index_of(e);
                assert(more[i + 1] == e);
            }
            assert(more[0] == entry);
            if more.contains(e) && e != entry {
                let i = more.index_of(e);
                assert(done[i - 1] == e);
            }
        }
        let new = now.with_result(entry, result);
        now.lemma_result(entry, result);
        assert(new.mine =~= self.mine.difference(more.to_set()));
        assert(new.nodes.dom() =~= self.nodes.dom());
        assert(new.delivered.drop_last() =~= now.delivered);
        lemma_demand_split(self.nodes, more, 1);
        lemma_load_first(self.discipline, self.nodes, more);
        lemma_load_part(self.discipline, self.nodes, chain, index);
        assert(more.skip(1) =~= done);
        assert forall|i: int|
            #![trigger new.delivered[i]]
            self.delivered.len() <= i < new.delivered.len() implies new.delivered[i] == (Delivery {
            entry: more[new.delivered.len() - 1 - i],
            opcode: self.nodes[more[new.delivered.len() - 1 - i]].opcode,
            result,
            waker: self.waker(more[new.delivered.len() - 1 - i]),
        }) by {
            if i < now.delivered.len() {
                assert(new.delivered[i] == now.delivered[i]);
                assert(done[now.delivered.len() - 1 - i] == more[new.delivered.len() - 1 - i]);
            }
        }
        assert(demand(self.nodes, more, 1) == demand(self.nodes, more, 0)
            + self.nodes[more[0]].opcode.held());
    }

    /// Handing out a result does not affect the queue.
    pub proof fn lemma_result(self, entry: usize, result: u8)
        requires
            self.wf(),
            self.mine.contains(entry),
        ensures
            self.with_result(entry, result).queue() == self.queue(),
            self.with_result(entry, result).wf(),
    {
        let new = self.with_result(entry, result);
        let queue = self.queue();
        assert forall|i: int| #![trigger queue[i]] 0 <= i < queue.len() implies queue[i]
            != entry by {
            assert(queue.contains(queue[i]));
        }
        lemma_linked_frame(self.nodes, new.nodes, self.tail(), queue);
        new.lemma_queue(queue);
        lemma_demand_frame(self.nodes, queue, new.nodes, queue, queue.len() as int);
    }

    /// Creating an entry does not affect the queue.
    pub proof fn lemma_entry(self, entry: usize, opcode: Opcode, is_sync: bool)
        requires
            self.wf(),
            entry != 0,
            WaitQueue::aligned(entry),
            opcode.valid(),
            !self.mine.contains(entry),
            !self.queue().contains(entry),
        ensures
            self.with_entry(entry, opcode, is_sync).queue() == self.queue(),
            self.with_entry(entry, opcode, is_sync).wf(),
    {
        let new = self.with_entry(entry, opcode, is_sync);
        let queue = self.queue();
        assert forall|i: int| #![trigger queue[i]] 0 <= i < queue.len() implies queue[i]
            != entry by {
            assert(queue.contains(queue[i]));
        }
        lemma_linked_frame(self.nodes, new.nodes, self.tail(), queue);
        new.lemma_queue(queue);
        lemma_demand_frame(self.nodes, queue, new.nodes, queue, queue.len() as int);
    }

    /// Destroying an entry does not affect the queue.
    pub proof fn lemma_no_entry(self, entry: usize)
        requires
            self.wf(),
            !self.queue().contains(entry),
        ensures
            self.without_entry(entry).queue() == self.queue(),
            self.without_entry(entry).wf(),
    {
        let new = self.without_entry(entry);
        let queue = self.queue();
        assert forall|i: int| #![trigger queue[i]] 0 <= i < queue.len() implies queue[i]
            != entry by {
            assert(queue.contains(queue[i]));
        }
        lemma_linked_frame(self.nodes, new.nodes, self.tail(), queue);
        new.lemma_queue(queue);
        lemma_demand_frame(self.nodes, queue, new.nodes, queue, queue.len() as int);
    }

    /// An entry that was created and destroyed in between leaves no trace.
    #[verifier::spinoff_prover]
    #[verifier::rlimit(60)]
    pub proof fn lemma_entry_undone(
        self,
        entry: usize,
        opcode: Opcode,
        is_sync: bool,
        seen: usize,
        then: Memory,
        alone: bool,
    )
        requires
            self.wf(),
            !self.held,
            !self.own.contains(entry),
            !self.mine.contains(entry),
            !self.queue().contains(entry),
            self.with_entry(entry, opcode, is_sync).wf(),
            self.with_entry(entry, opcode, is_sync).queue() == self.queue(),
            self.with_entry(entry, opcode, is_sync).misses(then, entry, seen, alone),
        ensures
            then.own.contains(entry),
            then.mine.contains(entry),
            !then.queue().contains(entry),
            self.rely(then.without_entry(entry)),
            then.word != seen,
            alone ==> then.word == self.word,
    {
        reveal(Memory::misses);
        let next = WaitQueue::addr_of(seen);
        let made = self.with_entry(entry, opcode, is_sync);
        made.lemma_next_outside(entry, next);
        let linked = made.with_next(entry, next);
        let new = then.without_entry(entry);
        assert(linked.mine.contains(entry));
        assert(!then.queue().contains(entry));
        then.lemma_no_entry(entry);
        assert(new.mine =~= self.mine);
        assert(new.own =~= self.own);
        assert(new.roster.wakers =~= self.roster.wakers);
        assert forall|e: usize| #[trigger] self.mine.contains(e) implies new.nodes[e]
            == self.nodes[e] by {
            assert(linked.mine.contains(e));
        }
        assert forall|e: usize| #[trigger] self.own.contains(e) implies {
            &&& new.nodes[e].opcode == self.nodes[e].opcode
            &&& new.nodes[e].is_sync == self.nodes[e].is_sync
            &&& self.nodes[e].result is Some ==> new.nodes[e] == self.nodes[e]
            &&& !self.queue().contains(e) ==> !new.queue().contains(e)
        } by {
            assert(linked.own.contains(e));
        }
    }

    /// An entry is created and appended to the queue.
    #[verifier::spinoff_prover]
    #[verifier::rlimit(60)]
    pub proof fn lemma_enqueues(
        self,
        entry: usize,
        opcode: Opcode,
        is_sync: bool,
        seen: usize,
        new: Memory,
        alone: bool,
    )
        requires
            self.wf(),
            !self.held,
            !self.own.contains(entry),
            !self.mine.contains(entry),
            !self.queue().contains(entry),
            self.with_entry(entry, opcode, is_sync).wf(),
            self.with_entry(entry, opcode, is_sync).queue() == self.queue(),
            self.with_entry(entry, opcode, is_sync).pushes(new, entry, seen, alone),
        ensures
            new.nodes[entry].is_sync == is_sync,
            self.enqueues(new, entry, opcode, seen, alone),
    {
        reveal(Memory::pushes);
        reveal(Tally::gain);
        let made = self.with_entry(entry, opcode, is_sync);
        let mid = Memory { word: seen, nodes: new.nodes, ..made };
        assert(made.mine.contains(entry));
        WaitQueue::lemma_tag(seen, entry, new.word);
        made.lemma_next_outside(entry, WaitQueue::addr_of(seen));
        let linked = made.with_next(entry, WaitQueue::addr_of(seen));
        assert(linked.mine.contains(entry));
        assert(new.mine =~= self.mine);
        assert forall|e: usize| #[trigger] self.mine.contains(e) implies new.nodes[e]
            == self.nodes[e] by {
            assert(linked.mine.contains(e));
        }
        assert forall|e: usize| #[trigger] self.own.contains(e) implies {
            &&& new.nodes[e].opcode == self.nodes[e].opcode
            &&& new.nodes[e].is_sync == self.nodes[e].is_sync
            &&& self.nodes[e].result is Some ==> new.nodes[e] == self.nodes[e]
            &&& !self.queue().contains(e) ==> !new.queue().contains(e)
        } by {
            assert(linked.own.contains(e));
        }
        if alone {
            assert(mid == linked);
            assert(new.nodes =~= self.nodes.insert(
                entry,
                Node { next: self.tail(), prev: 0, opcode, is_sync, result: None },
            ));
        }
    }

    /// An entry that cannot be served right away may be appended to the queue.
    pub proof fn lemma_may_push(self, word: usize, entry: usize)
        requires
            self.wf(),
            self.word != 64,
            self.mine.contains(entry),
            self.own.contains(entry),
            self.nodes[entry].next == self.tail(),
            self.nodes[entry].prev == 0,
            WaitQueue::addr_of(word) == entry,
            WaitQueue::flagged(word) == WaitQueue::flagged(self.word),
            match self.discipline {
                Discipline::Limited { limit, .. } => {
                    &&& WaitQueue::data_of(word) == self.data()
                    &&& self.tail() == 0 ==> !admits(limit, self.data(), self.nodes[entry].opcode)
                },
                Discipline::Gate => WaitQueue::data_of(word) == 0 && self.data() == 0,
                Discipline::Barrier { total } => {
                    &&& !WaitQueue::flagged(word)
                    &&& WaitQueue::data_of(word) + self.nodes[entry].opcode.held() == self.data()
                    &&& WaitQueue::data_of(word) > 0
                },
            },
        ensures
            self.may_swap(word),
            self.swapped(word).queue() == self.queue().push(entry),
            self.swapped(word).mine == self.mine.remove(entry),
            self.swapped(word).held == self.held,
    {
        assert(self.held && self.discipline is Limited ==> Tally::gain(
            self.discipline,
            self.word,
            word,
        ).valid()) by {
            reveal(Tally::gain);
        }
        self.lemma_swap_push(word, entry);
        let new = self.swapped(word);
        let queue = self.queue();
        assert forall|i: int|
            #![trigger new.queue()[i]]
            0 <= i < new.queue().len() implies new.nodes[new.queue()[i]].result is None
            && new.nodes[new.queue()[i]].opcode.valid() by {
            if i < queue.len() {
                assert(new.queue()[i] == queue[i]);
            }
        }
        assert forall|e: usize| #[trigger]
            new.mine.contains(e) implies !new.queue().contains(e) by {
            if new.queue().contains(e) {
                let i = new.queue().index_of(e);
                if i < queue.len() {
                    assert(queue[i] == e);
                }
            }
        }
        lemma_demand_frame(self.nodes, queue, new.nodes, new.queue(), queue.len() as int);
        assert(demand(new.nodes, new.queue(), new.queue().len() as int) == demand(
            new.nodes,
            new.queue(),
            queue.len() as int,
        ) + new.nodes[entry].opcode.held());
    }

    /// Resources may be released in place if nobody waits for them, or if the task that is
    /// processing the queue will notice.
    pub proof fn lemma_may_release(self, word: usize)
        requires
            self.wf(),
            self.discipline is Limited,
            self.tail() == 0 || WaitQueue::flagged(self.word),
            word <= self.word,
            self.word - word <= self.data(),
            !self.held,
        ensures
            self.may_swap(word),
            self.swapped(word) == self.counted(word),
            self.swapped(word).queue() == self.queue(),
    {
        WaitQueue::lemma_reduce(self.word, word);
        self.lemma_same_tail(word);
    }

    /// An entry may be appended to the queue unless the state word has changed, whatever else the
    /// other tasks have done.
    pub proof fn lemma_may_push_all(self, seen: usize, word: usize, entry: usize)
        requires
            self.wf(),
            self.mine.contains(entry),
            self.own.contains(entry),
            self.nodes[entry].next == WaitQueue::addr_of(seen),
            self.nodes[entry].prev == 0,
            self.may_wait(self.nodes[entry].opcode, seen),
            WaitQueue::addr_of(word) == entry,
            WaitQueue::flagged(word) == WaitQueue::flagged(seen),
            WaitQueue::data_of(word) == WaitQueue::data_of(seen),
        ensures
            forall|mid: Memory| #[trigger]
                self.rely(mid) && mid.word == seen ==> {
                    &&& mid.may_swap(word)
                    &&& mid.swapped(word).queue() == mid.queue().push(entry)
                    &&& mid.swapped(word).held == mid.held
                    &&& mid.swapped(word).mine == mid.mine.remove(entry)
                },
    {
        assert forall|mid: Memory| #[trigger] self.rely(mid) && mid.word == seen implies {
            &&& mid.may_swap(word)
            &&& mid.swapped(word).queue() == mid.queue().push(entry)
            &&& mid.swapped(word).held == mid.held
            &&& mid.swapped(word).mine == mid.mine.remove(entry)
        } by {
            mid.lemma_may_push(word, entry);
        }
    }

    /// Resources that are available may be acquired if nobody waits.
    pub proof fn lemma_may_take(self, word: usize, opcode: Opcode)
        requires
            self.wf(),
            self.tail() == 0,
            !WaitQueue::flagged(self.word),
            self.discipline is Limited,
            admits(self.discipline->limit, self.data(), opcode),
            opcode.valid(),
            opcode.held() == opcode.desired(),
            word == self.word + opcode.held(),
        ensures
            self.may_swap(word),
            self.takes(self.swapped(word), opcode),
            self.swapped(word).queue() == Seq::<usize>::empty(),
    {
        WaitQueue::lemma_raise(self.word, opcode.held() as usize);
        self.lemma_swap_same(word);
        assert(self.queue() =~= Seq::<usize>::empty());
    }

    /// The memory after the state word has been replaced and the queue has become empty.
    pub open spec fn emptied(self, word: usize) -> Memory {
        Memory {
            held: false,
            mine: self.mine.union(self.queue().to_set()),
            ..self.counted(word)
        }
    }

    /// All the entries are taken out of a queue that nobody else is processing.
    pub proof fn lemma_may_empty(self, word: usize)
        requires
            self.wf(),
            self.busy() ==> self.held,
            self.discipline is Limited ==> !self.held,
            WaitQueue::addr_of(word) == 0,
            match self.discipline {
                Discipline::Limited { limit, poisonable } => word < 64 || poisonable && word == 64,
                Discipline::Gate => word <= 2,
                Discipline::Barrier { total } => word < 64 && word == total,
            },
        ensures
            self.may_swap(word),
            self.swapped(word) == self.emptied(word),
            self.swapped(word).queue() == Seq::<usize>::empty(),
            self.swapped(word).owns(self.tail(), self.queue()),
    {
        if word == 64 {
            WaitQueue::lemma_compose(64, 0, true, 0);
        } else {
            WaitQueue::lemma_compose(word, 0, false, word as nat);
        }
        self.lemma_swap_clear(word);
        let new = self.swapped(word);
        assert forall|e: usize| #[trigger] new.mine.contains(e) implies {
            &&& new.nodes.dom().contains(e)
            &&& e != 0
            &&& WaitQueue::aligned(e)
            &&& new.nodes[e].result is None
            &&& new.nodes[e].opcode.valid()
        } by {
            if !self.mine.contains(e) {
                let i = self.queue().index_of(e);
                assert(self.queue()[i] == e);
            }
        }
        let queue = self.queue();
        assert forall|i: int| #![trigger queue[i]] 0 <= i < queue.len() implies new.mine.contains(
            queue[i],
        ) by {
            assert(queue.contains(queue[i]));
        }
    }

    /// Each entry that was taken out of the queue is handed a result.
    #[verifier::spinoff_prover]
    #[verifier::rlimit(60)]
    pub proof fn lemma_dismisses(self, new: Memory, word: usize, result: u8)
        requires
            self.wf(),
            self.emptied(word).queue() == Seq::<usize>::empty(),
            self.emptied(word).delivers(new, self.queue(), result),
            self.discipline is Limited ==> !self.held && result != 0,
        ensures
            self.dismisses(new, word, result),
    {
        reveal(Memory::delivers);
        assert(new.mine =~= self.mine) by {
            assert forall|e: usize| #[trigger] self.mine.contains(e) implies !self.queue().contains(
                e,
            ) by {}
        }
        assert(self.calls(new)) by {
            reveal(Memory::calls);
        }
        lemma_handed(new.delivered, self.delivered.len() as int, self.queue());
    }

    /// A poisoned primitive may be made available again.
    pub proof fn lemma_may_clear(self)
        requires
            self.wf(),
            self.word == 64,
        ensures
            self.may_swap(0),
            self.swapped(0) == self.counted(0),
            self.swapped(0).queue() == Seq::<usize>::empty(),
            !self.held,
    {
        WaitQueue::lemma_compose(64, 0, true, 0);
        WaitQueue::lemma_compose(0, 0, false, 0);
        self.lemma_swap_same(0);
        assert(self.queue() =~= Seq::<usize>::empty());
    }

    /// An entry is created.
    pub proof fn lemma_prepares(self, entry: usize, opcode: Opcode, is_sync: bool)
        requires
            self.wf(),
            !self.own.contains(entry),
            !self.mine.contains(entry),
            !self.queue().contains(entry),
            self.with_entry(entry, opcode, is_sync).queue() == self.queue(),
        ensures
            self.prepares(self.with_entry(entry, opcode, is_sync), entry, opcode),
    {
    }

    /// Other tasks do not affect an entry that was not pushed yet.
    pub proof fn lemma_prepares_rely(self, now: Memory, new: Memory, entry: usize, opcode: Opcode)
        requires
            self.wf(),
            now.wf(),
            self.prepares(now, entry, opcode),
            now.rely(new),
        ensures
            self.prepares(new, entry, opcode),
    {
        assert(now.mine.contains(entry));
        assert forall|e: usize| #[trigger] self.mine.contains(e) implies new.nodes[e]
            == self.nodes[e] by {
            assert(now.mine.contains(e));
        }
        assert forall|e: usize| #[trigger] self.own.contains(e) implies {
            &&& new.nodes[e].opcode == self.nodes[e].opcode
            &&& new.nodes[e].is_sync == self.nodes[e].is_sync
            &&& self.nodes[e].result is Some ==> new.nodes[e] == self.nodes[e]
            &&& !self.queue().contains(e) ==> !new.queue().contains(e)
        } by {
            assert(now.own.contains(e));
        }
    }

    /// The link of an entry that was not pushed yet does not matter.
    pub proof fn lemma_prepares_next(self, now: Memory, next: usize, entry: usize, opcode: Opcode)
        requires
            self.wf(),
            now.wf(),
            self.prepares(now, entry, opcode),
        ensures
            self.prepares(now.with_next(entry, next), entry, opcode),
            now.with_next(entry, next).wf(),
            now.with_next(entry, next).queue() == now.queue(),
    {
        assert(now.mine.contains(entry));
        now.lemma_next_outside(entry, next);
    }

    /// An entry that was not pushed is handed a result.
    pub proof fn lemma_registers_result(
        self,
        now: Memory,
        entry: usize,
        opcode: Opcode,
        result: u8,
        alone: bool,
    )
        requires
            self.wf(),
            now.wf(),
            self.discipline is Limited,
            self.spare == Tally::none(),
            self.prepares(now, entry, opcode),
            now.received == self.received,
            now.delivered == self.delivered,
            now.added == self.added.plus(
                if result == 0 {
                    Tally::of(self.discipline, opcode.held())
                } else {
                    Tally::none()
                },
            ),
            result == 0 && self.available((now.word - opcode.held()) as usize, opcode) || result == 2
                && now.word == 64,
            result == 0 ==> opcode.held() <= now.word,
            now.with_result(entry, result).queue() == now.queue(),
            alone ==> now.queue() == self.queue() && self.same_others(now, entry) && self.word
                == now.word - (if result == 0 {
                opcode.held()
            } else {
                0
            }),
        ensures
            self.registers(now.with_result(entry, result), entry, opcode, alone),
    {
        self.lemma_installs_result(now, entry, opcode, result);
    }

    /// An attempt to acquire resources does not affect an entry that was not pushed yet.
    pub proof fn lemma_tried(
        self,
        now: Memory,
        tried: Memory,
        entry: usize,
        opcode: Opcode,
        result: u8,
        seen: usize,
        alone: bool,
    )
        requires
            self.wf(),
            now.wf(),
            self.discipline is Limited,
            self.prepares(now, entry, opcode),
            now.added == self.added,
            now.received == self.received,
            now.delivered == self.delivered,
            opcode.valid(),
            !(opcode is Wait),
            alone ==> self.untouched(now, entry),
            now.attempts(tried, opcode, result, seen, alone),
        ensures
            tried.tried(self, entry, opcode, result, seen, alone),
    {
        reveal(Tally::gain);
        if result == 0 {
            let mid = choose|mid: Memory| #[trigger]
                now.rely(mid) && mid.takes(tried, opcode) && (alone ==> mid == now);
            self.lemma_prepares_rely(now, mid, entry, opcode);
            WaitQueue::lemma_split(mid.word);
            assert(opcode.held() == opcode.desired());
            WaitQueue::lemma_raise(mid.word, opcode.held() as usize);
            tried.lemma_queue(mid.queue());
        } else {
            self.lemma_prepares_rely(now, tried, entry, opcode);
        }
    }

    /// An entry that was not pushed is handed a result.
    pub proof fn lemma_installs_result(self, now: Memory, entry: usize, opcode: Opcode, result: u8)
        requires
            self.wf(),
            now.wf(),
            self.prepares(now, entry, opcode),
            now.with_result(entry, result).queue() == now.queue(),
            self.discipline is Limited ==> self.spare == Tally::none(),
        ensures
            self.installs(now.with_result(entry, result), entry, opcode),
    {
        let new = now.with_result(entry, result);
        assert(now.mine.contains(entry));
        assert(new.mine =~= self.mine);
    }

    /// An entry is pushed.
    pub proof fn lemma_installs_push(self, mid: Memory, new: Memory, entry: usize, opcode: Opcode)
        requires
            self.wf(),
            mid.wf(),
            self.prepares(mid, entry, opcode),
            new == mid.swapped(new.word),
            new.queue() == mid.queue().push(entry),
            new.mine == mid.mine.remove(entry),
            new.held == mid.held,
            self.discipline is Limited ==> new.data() == mid.data(),
        ensures
            self.installs(new, entry, opcode),
    {
        reveal(Tally::gain);
        assert(mid.mine.contains(entry));
        assert(new.mine =~= self.mine);
    }

    /// An entry is pushed.
    #[verifier::spinoff_prover]
    #[verifier::rlimit(60)]
    pub proof fn lemma_registers_push(
        self,
        tried: Memory,
        new: Memory,
        entry: usize,
        opcode: Opcode,
        seen: usize,
        exact: bool,
        alone: bool,
    )
        requires
            self.wf(),
            tried.wf(),
            self.discipline is Limited,
            tried.tried(self, entry, opcode, 1, seen, alone),
            tried.pushes(new, entry, seen, exact),
            alone ==> exact,
        ensures
            self.registers(new, entry, opcode, alone),
            new.nodes[entry].is_sync == tried.nodes[entry].is_sync,
            new.nodes[entry].result is None,
    {
        reveal(Memory::pushes);
        reveal(Tally::gain);
        let next = WaitQueue::addr_of(seen);
        let ready = tried.with_next(entry, next);
        let mid = Memory { word: seen, nodes: new.nodes, ..tried };
        assert(tried.mine.contains(entry));
        self.lemma_prepares_next(tried, next, entry, opcode);
        tried.lemma_next_outside(entry, next);
        self.lemma_prepares_rely(ready, mid, entry, opcode);
        assert(mid.mine.contains(entry));
        assert(ready.mine.contains(entry));
        WaitQueue::lemma_tag(seen, entry, new.word);
        self.lemma_installs_push(mid, new, entry, opcode);
    }

    /// An entry is pushed.
    #[verifier::spinoff_prover]
    #[verifier::rlimit(60)]
    pub proof fn lemma_installs_pushed(
        self,
        loaded: Memory,
        new: Memory,
        entry: usize,
        opcode: Opcode,
        seen: usize,
        exact: bool,
        alone: bool,
    )
        requires
            self.wf(),
            loaded.wf(),
            self.prepares(loaded, entry, opcode),
            loaded.pushes(new, entry, seen, exact),
            alone ==> exact,
        ensures
            self.installs(new, entry, opcode),
            new.delivered == loaded.delivered,
            new.nodes[entry].is_sync == loaded.nodes[entry].is_sync,
            new.nodes[entry].result is None,
            new.word == entry + seen % 128,
            WaitQueue::data_of(new.word) == WaitQueue::data_of(seen),
            alone ==> {
                &&& loaded.word == seen
                &&& loaded.same_others(new, entry)
                &&& new.queue() == loaded.queue().push(entry)
            },
    {
        reveal(Memory::pushes);
        let next = WaitQueue::addr_of(seen);
        let ready = loaded.with_next(entry, next);
        let mid = Memory { word: seen, nodes: new.nodes, ..loaded };
        assert(loaded.mine.contains(entry));
        self.lemma_prepares_next(loaded, next, entry, opcode);
        loaded.lemma_next_outside(entry, next);
        self.lemma_prepares_rely(ready, mid, entry, opcode);
        assert(mid.mine.contains(entry));
        assert(ready.mine.contains(entry));
        WaitQueue::lemma_tag(seen, entry, new.word);
        self.lemma_installs_push(mid, new, entry, opcode);
        assert(new.queue()[new.queue().len() - 1] == entry);
        assert(new.queue().contains(entry));
    }

    /// An entry could not be pushed.
    #[verifier::spinoff_prover]
    #[verifier::rlimit(60)]
    pub proof fn lemma_prepares_missed(
        self,
        tried: Memory,
        new: Memory,
        entry: usize,
        opcode: Opcode,
        seen: usize,
        exact: bool,
        alone: bool,
    )
        requires
            self.wf(),
            tried.wf(),
            self.prepares(tried, entry, opcode),
            tried.misses(new, entry, seen, exact),
            alone ==> exact,
        ensures
            self.prepares(new, entry, opcode),
            new.added == tried.added,
            new.received == tried.received,
            new.delivered == tried.delivered,
            new.nodes[entry].is_sync == tried.nodes[entry].is_sync,
            new.word != seen,
            exact ==> new.word == tried.word,
    {
        reveal(Memory::misses);
        let next = WaitQueue::addr_of(seen);
        assert(tried.mine.contains(entry));
        self.lemma_prepares_next(tried, next, entry, opcode);
        assert(tried.with_next(entry, next).mine.contains(entry)) by {
            tried.lemma_next_outside(entry, next);
        }
        self.lemma_prepares_rely(tried.with_next(entry, next), new, entry, opcode);
    }

    /// What other tasks do before an attempt to acquire resources does not matter.
    pub proof fn lemma_attempts(
        self,
        now: Memory,
        new: Memory,
        opcode: Opcode,
        result: u8,
        seen: usize,
        alone: bool,
    )
        requires
            self.wf(),
            self.rely(now),
            now.attempts(new, opcode, result, seen, alone),
        ensures
            self.attempts(new, opcode, result, seen, alone && now == self),
    {
        if result == 0 {
            let mid = choose|mid: Memory| #[trigger]
                now.rely(mid) && mid.takes(new, opcode) && (alone ==> mid == now);
            self.lemma_rely_transitive(now, mid);
            assert(self.rely(mid) && mid.takes(new, opcode));
        } else {
            self.lemma_rely_transitive(now, new);
        }
    }

    /// Only the resource count has changed.
    proof fn lemma_same_tail(self, word: usize)
        requires
            self.wf(),
            self.discipline is Limited,
            self.tail() == 0 || WaitQueue::flagged(self.word),
            WaitQueue::addr_of(word) == self.tail(),
            WaitQueue::flagged(word) == WaitQueue::flagged(self.word),
            WaitQueue::data_of(word) <= self.data(),
            !self.held,
        ensures
            self.may_swap(word),
            self.swapped(word) == self.counted(word),
            self.swapped(word).queue() == self.queue(),
    {
        self.lemma_swap_same(word);
        let new = self.swapped(word);
        assert(new == self.counted(word));
        assert(self.tail() == 0 && WaitQueue::flagged(self.word) ==> word == self.word);
    }

    /// The processing flag may be set if nobody is processing the queue.
    pub proof fn lemma_may_lock(self, word: usize)
        requires
            self.wf(),
            !(self.discipline is Gate),
            self.tail() != 0,
            !WaitQueue::flagged(self.word),
            WaitQueue::addr_of(word) == self.tail(),
            WaitQueue::flagged(word),
        ensures
            self.may_swap(word),
            self.swapped(word) == (Memory { held: true, ..self.counted(word) }),
            self.swapped(word).queue() == self.queue(),
    {
        self.lemma_swap_same(word);
    }

    /// The queue cannot have changed while the current task was processing it if the state word has
    /// not.
    pub proof fn lemma_rely_same_tail(self, mid: Memory)
        requires
            self.wf(),
            self.held,
            self.rely(mid),
            mid.tail() == self.tail(),
        ensures
            mid.queue() == self.queue(),
    {
        let queue = self.queue();
        let other = mid.queue();
        assert(queue.len() > 0);
        assert(other[queue.len() - 1] == queue[queue.len() - 1]);
        assert(other[queue.len() - 1] == other[other.len() - 1]);
        assert(other =~= queue);
    }

    /// The queue may be emptied and left unprocessed by the task that was processing it.
    pub proof fn lemma_may_reset(self, word: usize)
        requires
            self.wf(),
            self.held,
            self.discipline is Limited,
            word < 64,
            Tally::gain(self.discipline, self.word, word).valid(),
        ensures
            self.may_swap(word),
            self.swapped(word).queue() == Seq::<usize>::empty(),
            self.swapped(word).mine == self.mine.union(self.queue().to_set()),
            !self.swapped(word).held,
    {
        WaitQueue::lemma_compose(word, 0, false, word as nat);
        self.lemma_swap_clear(word);
        let new = self.swapped(word);
        assert forall|e: usize| #[trigger] new.mine.contains(e) implies {
            &&& new.nodes.dom().contains(e)
            &&& e != 0
            &&& WaitQueue::aligned(e)
            &&& new.nodes[e].result is None
            &&& new.nodes[e].opcode.valid()
        } by {
            if !self.mine.contains(e) {
                let i = self.queue().index_of(e);
                assert(self.queue()[i] == e);
            }
        }
    }

    /// The task that is processing the queue may remove the oldest entries.
    pub proof fn lemma_may_cut(self, index: int)
        requires
            self.wf(),
            self.held,
            0 <= index < self.queue().len(),
        ensures
            self.accessible(self.queue()[index]),
            self.with_next(self.queue()[index], 0).wf(),
            self.with_next(self.queue()[index], 0).queue() == self.queue().skip(index),
            self.with_next(self.queue()[index], 0).mine == self.mine.union(
                self.queue().take(index).to_set(),
            ),
    {
        self.lemma_cut(index);
        let queue = self.queue();
        let new = self.with_next(queue[index], 0);
        let rest = queue.skip(index);
        let cut = queue.take(index);
        assert(linked(new.nodes, new.tail(), new.queue())) by {
            assert(rest.last() == queue.last());
            assert forall|i: int| 0 <= i < rest.len() implies new.nodes.dom().contains(
                #[trigger] rest[i],
            ) && rest[i] != 0 && WaitQueue::aligned(rest[i]) by {
                assert(rest[i] == queue[i + index]);
            }
            assert forall|i: int|
                #![trigger new.nodes[rest[i]]]
                0 < i < rest.len() implies new.nodes[rest[i]].next == rest[i - 1] by {
                assert(self.nodes[queue[i + index]].next == queue[i + index - 1]);
                assert(rest[i] != queue[index]);
            }
        }
        assert forall|i: int|
            #![trigger rest[i]]
            0 <= i < rest.len() implies new.nodes[rest[i]].result is None
            && new.nodes[rest[i]].opcode.valid() by {
            assert(rest[i] == queue[i + index]);
        }
        assert forall|e: usize| #[trigger] new.mine.contains(e) implies {
            &&& new.nodes.dom().contains(e)
            &&& e != 0
            &&& WaitQueue::aligned(e)
            &&& new.nodes[e].result is None
            &&& new.nodes[e].opcode.valid()
            &&& !rest.contains(e)
        } by {
            if rest.contains(e) {
                let i = rest.index_of(e);
                assert(queue[i + index] == e);
                assert(queue.contains(e));
            }
            if !self.mine.contains(e) {
                let i = cut.index_of(e);
                assert(queue[i] == e);
                if rest.contains(e) {
                    let j = rest.index_of(e);
                    assert(queue[j + index] == e);
                }
            }
        }
        assert(queue.contains(queue[index]));
    }

    /// The entries taken out of the queue stay linked to each other.
    proof fn lemma_cut_linked(self, now: Memory, number: int)
        requires
            self.wf(),
            self.held,
            self.rely(now),
            0 <= number < self.queue().len(),
        ensures
            linked(
                now.with_next(self.queue()[number], 0).nodes,
                if number == 0 {
                    0
                } else {
                    self.queue()[number - 1]
                },
                self.queue().take(number),
            ),
            forall|i: int|
                #![trigger self.queue()[i]]
                0 <= i < self.queue().len() ==> now.with_next(
                    self.queue()[number],
                    0,
                ).nodes[self.queue()[i]].opcode == self.nodes[self.queue()[i]].opcode,
    {
        let queue = self.queue();
        let new = now.with_next(queue[number], 0);
        let cut = queue.take(number);
        assert forall|i: int| #![trigger queue[i]] 0 <= i < queue.len() implies now.nodes[queue[i]]
            == self.nodes[queue[i]] && now.nodes.dom().contains(queue[i]) && (i != number
            ==> queue[i] != queue[number]) by {
        }
        assert forall|i: int| 0 <= i < cut.len() implies new.nodes.dom().contains(
            #[trigger] cut[i],
        ) && cut[i] != 0 && WaitQueue::aligned(cut[i]) by {
            assert(cut[i] == queue[i]);
        }
        assert forall|i: int|
            #![trigger new.nodes[cut[i]]]
            0 < i < cut.len() implies new.nodes[cut[i]].next
            == cut[i - 1] by {
            assert(self.nodes[queue[i]].next == queue[i - 1]);
        }
    }

    /// The entries left in the queue stay linked to the entries after them.
    #[verifier::rlimit(50)]
    proof fn lemma_cut_backlinked(self, now: Memory, number: int)
        requires
            self.wf(),
            self.held,
            self.rely(now),
            0 <= number < self.queue().len(),
            self.backlinked(self.queue().len() - 1),
        ensures
            now.with_next(self.queue()[number], 0).backlinked(self.queue().len() - 1 - number),
            self.queue().skip(number).is_prefix_of(now.with_next(self.queue()[number], 0).queue()),
    {
        let queue = self.queue();
        let other = now.queue();
        let new = now.with_next(queue[number], 0);
        let rest = new.queue();
        assert(other[number] == queue[number]);
        now.lemma_cut(number);
        assert(rest == other.skip(number));
        assert(rest.take(queue.len() - number) =~= queue.skip(number));
        assert forall|i: int|
            #![trigger rest[i]]
            0 <= i < queue.len() - 1 - number implies new.nodes[rest[i]].prev
            == rest[i + 1] by {
            assert(rest[i] == other[i + number]);
            assert(rest[i + 1] == other[i + number + 1]);
            assert(other[i + number] == queue[i + number]);
            assert(other[i + number + 1] == queue[i + number + 1]);
            assert(self.nodes[queue[i + number]].prev == queue[i + number + 1]);
        }
        assert forall|i: int| #![trigger rest[i]] queue.len() - 1 - number <= i
            < rest.len() implies new.nodes[rest[i]].prev == 0 by {
            assert(rest[i] == other[i + number]);
            if i + number == queue.len() - 1 {
                assert(other[i + number] == queue[i + number]);
                assert(self.nodes[queue[i + number]].prev == 0);
            }
        }
    }

    /// The oldest entries are taken out of the queue while other tasks push new ones.
    pub proof fn lemma_serves(self, now: Memory, round: Round)
        requires
            self.wf(),
            self.held,
            self.discipline is Limited,
            self.rely(now),
            now.wf(),
            self.backlinked(self.queue().len() - 1),
            0 <= round.number@ < self.queue().len(),
            fits(
                self.discipline->limit,
                self.data(),
                self.nodes,
                self.queue(),
                round.number@,
            ),
            !round.unlocked,
            round.transferred == demand(self.nodes, self.queue(), round.number@),
            self.data() + round.transferred <= 63,
            round.resolved == (if round.number@ == 0 {
                0
            } else {
                self.queue()[round.number@ - 1]
            }),
            round.head == self.queue()[round.number@],
            !round.reset_failed ==> now == self && greedy(
                self.discipline->limit,
                self.data(),
                self.nodes,
                self.queue(),
                round.number@,
            ),
        ensures
            self.serves(now.with_next(self.queue()[round.number@], 0), round),
            now == self ==> same_bodies(
                self.nodes,
                now.with_next(self.queue()[round.number@], 0).nodes,
            ),
    {
        reveal(Memory::serves);
        let number = round.number@;
        let queue = self.queue();
        let other = now.queue();
        let new = now.with_next(queue[number], 0);
        assert(other[number] == queue[number]);
        now.lemma_cut(number);
        self.lemma_cut_linked(now, number);
        self.lemma_cut_backlinked(now, number);
        assert(other.take(number) =~= queue.take(number));
        assert(queue.contains(queue[number]));
        assert(self.keeps(new)) by {
            assert forall|e: usize| #[trigger] self.own.contains(e) implies {
                &&& new.nodes[e].opcode == self.nodes[e].opcode
                &&& new.nodes[e].is_sync == self.nodes[e].is_sync
                &&& self.nodes[e].result is Some ==> new.nodes[e] == self.nodes[e]
                &&& !queue.contains(e) ==> !new.queue().contains(e)
            } by {
                if new.queue().contains(e) {
                    let i = new.queue().index_of(e);
                    assert(other[i + number] == e);
                }
                assert(now.own.contains(e));
            }
        }
        if now == self {
            assert(new.nodes.dom() =~= self.nodes.dom());
        }
    }

    /// All the entries are taken out of the queue.
    #[verifier::spinoff_prover]
    #[verifier::rlimit(60)]
    pub proof fn lemma_serves_all(self, new: Memory, round: Round)
        requires
            self.wf(),
            self.held,
            self.discipline is Limited,
            self.rely(Memory { word: self.word, nodes: new.nodes, ..self }),
            round.number@ == self.queue().len(),
            fits(
                self.discipline->limit,
                self.data(),
                self.nodes,
                self.queue(),
                round.number@,
            ),
            round.unlocked,
            !round.reset_failed,
            round.transferred == demand(self.nodes, self.queue(), round.number@),
            self.data() + round.transferred <= 63,
            round.resolved == self.queue()[round.number@ - 1],
            new.word == self.data() + round.transferred,
            new.queue() == Seq::<usize>::empty(),
            !new.held,
            new.mine == self.mine.union(self.queue().to_set()),
            new.own == self.own,
            new.delivered == self.delivered,
            new.added == self.counted(new.word).added,
            new.spare == self.counted(new.word).spare,
            new.received == self.received,
            new.roster == self.roster,
            new.discipline == self.discipline,
        ensures
            self.serves(new, round),
    {
        reveal(Tally::gain);
        reveal(Memory::serves);
        WaitQueue::lemma_compose(new.word, 0, false, new.word as nat);
        lemma_load_fits(
            self.discipline,
            self.data(),
            self.data(),
            self.nodes,
            self.queue(),
            round.number@,
        );
        let queue = self.queue();
        lemma_linked_frame(self.nodes, new.nodes, self.tail(), queue);
        assert(queue.take(queue.len() as int) =~= queue);
    }

    /// The task that is processing the queue may add resources.
    pub proof fn lemma_may_add(self, word: usize)
        requires
            self.wf(),
            self.held,
            self.discipline is Limited,
            WaitQueue::addr_of(word) == self.tail(),
            WaitQueue::flagged(word),
            Tally::gain(self.discipline, self.word, word).valid(),
        ensures
            self.may_swap(word),
            self.swapped(word) == self.counted(word),
            self.swapped(word).queue() == self.queue(),
    {
        self.lemma_swap_same(word);
        assert(self.swapped(word) == self.counted(word));
    }

    /// The task that is processing the queue may stop when the oldest entry cannot be served.
    pub proof fn lemma_may_unlock(self, word: usize)
        requires
            self.wf(),
            self.held,
            self.discipline is Limited,
            WaitQueue::addr_of(word) == self.tail(),
            !WaitQueue::flagged(word),
            !admits(
                self.discipline->limit,
                WaitQueue::data_of(word),
                self.nodes[self.queue()[0]].opcode,
            ),
            Tally::gain(self.discipline, self.word, word).valid(),
        ensures
            self.may_swap(word),
            self.swapped(word) == (Memory { held: false, ..self.counted(word) }),
            self.swapped(word).queue() == self.queue(),
    {
        self.lemma_swap_same(word);
        assert(self.swapped(word) == Memory { held: false, ..self.counted(word) });
    }

    /// The task that is processing the queue of a barrier may stop when nobody is missing.
    pub proof fn lemma_may_return(self, word: usize)
        requires
            self.wf(),
            self.held,
            self.discipline is Barrier,
            WaitQueue::addr_of(word) == self.tail(),
            !WaitQueue::flagged(word),
            WaitQueue::data_of(word) > 0,
            WaitQueue::data_of(word) + demand(self.nodes, self.queue(), self.queue().len() as int)
                == self.discipline->total,
        ensures
            self.may_swap(word),
            self.swapped(word) == (Memory { held: false, ..self.counted(word) }),
            self.swapped(word).queue() == self.queue(),
    {
        self.lemma_swap_same(word);
        assert(self.swapped(word) == Memory { held: false, ..self.counted(word) });
    }

    /// Nobody else accesses a barrier while its queue is being processed.
    pub proof fn lemma_rely_held_barrier(self, mid: Memory)
        requires
            self.wf(),
            self.held,
            self.discipline is Barrier,
            self.rely(mid),
        ensures
            mid.word == self.word,
            mid.queue() == self.queue(),
            mid.total() == self.total(),
    {
        self.lemma_rely_same_tail(mid);
        let queue = self.queue();
        lemma_demand_frame(self.nodes, queue, mid.nodes, queue, queue.len() as int);
    }

    /// Links towards newer entries do not affect what the waiting tasks will hold.
    pub proof fn lemma_total_prev(self, new: Memory)
        requires
            self.wf(),
            self.differs_in_prev(new),
        ensures
            new.total() == self.total(),
    {
        let queue = self.queue();
        assert forall|i: int|
            #![trigger queue[i]]
            0 <= i < queue.len() implies self.nodes[queue[i]].opcode
            == new.nodes[queue[i]].opcode by {
            assert(self.nodes.dom().contains(queue[i]));
        }
        lemma_demand_frame(self.nodes, queue, new.nodes, queue, queue.len() as int);
    }

    /// An entry that was not pushed yet is not affected when all the others leave the queue.
    pub proof fn lemma_prepares_dismissed(
        self,
        mid: Memory,
        new: Memory,
        word: usize,
        result: u8,
        entry: usize,
        opcode: Opcode,
    )
        requires
            self.wf(),
            mid.wf(),
            !self.held,
            self.prepares(Memory { held: false, ..mid }, entry, opcode),
            mid.dismisses(new, word, result),
        ensures
            self.prepares(new, entry, opcode),
    {
        let now = Memory { held: false, ..mid };
        assert(now.queue() == mid.queue());
        assert(mid.mine.contains(entry));
        assert forall|e: usize| #[trigger] self.mine.contains(e) implies new.nodes[e]
            == self.nodes[e] by {
            assert(mid.mine.contains(e));
        }
        assert forall|e: usize| #[trigger] self.own.contains(e) implies {
            &&& new.nodes[e].opcode == self.nodes[e].opcode
            &&& new.nodes[e].is_sync == self.nodes[e].is_sync
            &&& self.nodes[e].result is Some ==> new.nodes[e] == self.nodes[e]
        } by {
            assert(mid.own.contains(e));
            assert(mid.nodes.dom().contains(e));
            if mid.queue().contains(e) {
                let i = mid.queue().index_of(e);
                assert(mid.queue()[i] == e);
            }
        }
    }

    /// Links towards newer entries are not affected by other tasks.
    pub proof fn lemma_backlinked_rely(self, new: Memory, number: int)
        requires
            self.wf(),
            self.held,
            self.rely(new),
            self.backlinked(number),
        ensures
            new.backlinked(number),
    {
        let queue = self.queue();
        let other = new.queue();
        assert forall|i: int| #![trigger other[i]] 0 <= i < number implies new.nodes[other[i]].prev
            == other[i + 1] by {
            assert(other[i] == queue[i]);
            assert(other[i + 1] == queue[i + 1]);
        }
        assert forall|i: int|
            #![trigger other[i]]
            number <= i < other.len() implies new.nodes[other[i]].prev
            == 0 by {
            if i < queue.len() {
                assert(other[i] == queue[i]);
            }
        }
    }

    /// Entries to which the current task has exclusive access are not affected by other tasks.
    pub proof fn lemma_owns(self, new: Memory, tail: usize, chain: Seq<usize>)
        requires
            self.wf(),
            self.owns(tail, chain),
            new.mine == self.mine,
            new.mine.subset_of(new.nodes.dom()),
            self.keeps(new),
        ensures
            new.owns(tail, chain),
            demand(new.nodes, chain, chain.len() as int) == demand(
                self.nodes,
                chain,
                chain.len() as int,
            ),
    {
        assert forall|i: int|
            #![trigger chain[i]]
            0 <= i < chain.len() implies new.nodes.dom().contains(
            chain[i],
        ) && new.nodes[chain[i]] == self.nodes[chain[i]] by {
            assert(self.mine.contains(chain[i]));
        }
        lemma_linked_frame(self.nodes, new.nodes, tail, chain);
        lemma_demand_frame(self.nodes, chain, new.nodes, chain, chain.len() as int);
    }

    /// The entries that a round has served belong to the task that is processing the queue.
    pub proof fn lemma_serves_owns(self, new: Memory, round: Round)
        requires
            self.wf(),
            self.serves(new, round),
        ensures
            0 <= round.number@ <= self.queue().len(),
            round.transferred == demand(self.nodes, self.queue(), round.number@),
            new.owns(round.resolved, self.queue().take(round.number@)),
            demand(new.nodes, self.queue().take(round.number@), round.number@) == round.transferred,
    {
        reveal(Memory::serves);
        let chain = self.queue().take(round.number@);
        assert forall|i: int| #![trigger chain[i]] 0 <= i < chain.len() implies new.mine.contains(
            chain[i],
        ) by {
            assert(chain.contains(chain[i]));
        }
        assert forall|i: int|
            #![trigger chain[i]]
            #![trigger self.queue()[i]]
            0 <= i < chain.len() implies chain[i] == self.queue()[i] && new.nodes[chain[i]].opcode
            == self.nodes[chain[i]].opcode by {
            assert(new.nodes[self.queue()[i]].opcode == self.nodes[self.queue()[i]].opcode);
        }
        lemma_demand_frame(new.nodes, chain, self.nodes, self.queue(), round.number@);
    }

    /// The entries that a round has served wait for their results.
    pub proof fn lemma_concludes_owns(self, end: Memory, round: Round, unlocked: bool)
        requires
            self.concludes(end, round, unlocked),
        ensures
            end.owns(round.resolved, self.queue().take(round.number@)),
            !unlocked ==> {
                &&& end.held
                &&& round.number@ < self.queue().len()
                &&& end.queue()[0] == round.head
                &&& end.backlinked(self.queue().len() - 1 - round.number@)
            },
            unlocked ==> !end.held && !WaitQueue::flagged(end.word),
            end.spare == self.spare.plus(
                load(end.discipline, end.nodes, self.queue().take(round.number@), round.number@),
            ),
    {
        reveal(Memory::concludes);
    }

    /// Entries that left the queue were served once they have been handed a result.
    #[verifier::spinoff_prover]
    pub proof fn lemma_progresses(self, end: Memory, new: Memory, round: Round, unlocked: bool)
        requires
            self.wf(),
            end.wf(),
            0 <= round.number@ <= self.queue().len(),
            self.discipline is Limited,
            self.concludes(end, round, unlocked),
            end.delivers(new, self.queue().take(round.number@), 0),
        ensures
            self.progresses(new, self.queue().take(round.number@)),
            new.word == end.word,
            new.held == end.held,
            new.queue() == end.queue(),
    {
        self.lemma_progress_frame(end, new, round, unlocked);
        self.lemma_progress_log(end, new, round, unlocked);
        self.lemma_progress_counts(end, new, round, unlocked);
        self.lemma_progress_fits(end, new, round, unlocked);
    }

    /// Handing out the results affects nothing but the entries that were served.
    #[verifier::spinoff_prover]
    #[verifier::rlimit(60)]
    proof fn lemma_progress_frame(self, end: Memory, new: Memory, round: Round, unlocked: bool)
        requires
            self.wf(),
            end.wf(),
            0 <= round.number@ <= self.queue().len(),
            self.concludes(end, round, unlocked),
            end.delivers(new, self.queue().take(round.number@), 0),
        ensures
            new.mine == self.mine,
            self.keeps(new),
            new.discipline == self.discipline,
            new.word == end.word,
            new.held == end.held,
            new.queue() == end.queue(),
            self.queue().is_prefix_of(self.queue().take(round.number@) + new.queue()),
    {
        reveal(Memory::delivers);
        reveal(Memory::concludes);
        let chain = self.queue().take(round.number@);
        assert forall|e: usize| !(self.mine.contains(e) && #[trigger] chain.contains(e)) by {
            if chain.contains(e) {
                let i = chain.index_of(e);
                assert(chain[i] == e);
                assert(self.queue()[i] == e);
                assert(self.queue().contains(e));
            }
        }
        assert(new.mine =~= self.mine);
        assert forall|e: usize| #[trigger] self.mine.contains(e) implies new.nodes[e]
            == self.nodes[e] by {
            assert(end.nodes.dom().contains(e));
        }
        assert forall|e: usize| #[trigger] self.own.contains(e) implies {
            &&& new.nodes[e].opcode == self.nodes[e].opcode
            &&& new.nodes[e].is_sync == self.nodes[e].is_sync
            &&& self.nodes[e].result is Some ==> new.nodes[e] == self.nodes[e]
            &&& !self.queue().contains(e) ==> !new.queue().contains(e)
        } by {
            assert(end.own.contains(e));
            assert(end.nodes.dom().contains(e));
            if chain.contains(e) {
                let i = chain.index_of(e);
                assert(self.queue()[i] == e);
            }
        }
    }

    /// The results that were handed out are those of the served entries.
    #[verifier::spinoff_prover]
    #[verifier::rlimit(60)]
    proof fn lemma_progress_log(self, end: Memory, new: Memory, round: Round, unlocked: bool)
        requires
            0 <= round.number@ <= self.queue().len(),
            self.concludes(end, round, unlocked),
            end.delivers(new, self.queue().take(round.number@), 0),
        ensures
            self.calls(new),
            forall|e: usize| #[trigger]
                self.queue().take(round.number@).contains(e) <==> handed(
                    new.delivered,
                    self.delivered.len() as int,
                    e,
                ),
            self.delivered.is_prefix_of(new.delivered),
            new.delivered.len() == self.delivered.len() + round.number@,
            forall|i: int|
                #![trigger new.delivered[i]]
                self.delivered.len() <= i < new.delivered.len() ==> new.delivered[i].result == 0,
    {
        reveal(Memory::delivers);
        reveal(Memory::concludes);
        reveal(Memory::calls);
        let chain = self.queue().take(round.number@);
        lemma_handed(new.delivered, self.delivered.len() as int, chain);
    }

    /// Exactly the resources that came with the results were added to those in use.
    #[verifier::spinoff_prover]
    #[verifier::rlimit(60)]
    proof fn lemma_progress_counts(self, end: Memory, new: Memory, round: Round, unlocked: bool)
        requires
            0 <= round.number@ <= self.queue().len(),
            self.concludes(end, round, unlocked),
            end.delivers(new, self.queue().take(round.number@), 0),
            new.word == end.word,
            self.discipline is Limited,
        ensures
            self.balances(new),
            acquired(new.delivered) == acquired(self.delivered) + round.transferred,
            new.data() <= self.data() + round.transferred,
    {
        reveal(Memory::delivers);
        reveal(Memory::concludes);
    }

    /// Each of the served entries fits with the resources that others use.
    #[verifier::spinoff_prover]
    #[verifier::rlimit(60)]
    proof fn lemma_progress_fits(self, end: Memory, new: Memory, round: Round, unlocked: bool)
        requires
            0 <= round.number@ <= self.queue().len(),
            self.concludes(end, round, unlocked),
            end.delivers(new, self.queue().take(round.number@), 0),
            acquired(new.delivered) == acquired(self.delivered) + round.transferred,
            new.data() <= self.data() + round.transferred,
        ensures
            ({
                let others = new.data() + acquired(self.delivered) - acquired(new.delivered);
                forall|i: int|
                    #![trigger new.delivered[i]]
                    self.delivered.len() <= i < new.delivered.len() ==> admits(
                        self.discipline->limit,
                        if others < 0 { 0 } else { others as nat },
                        new.delivered[i].opcode,
                    )
            }),
    {
        reveal(Memory::delivers);
        reveal(Memory::concludes);
        let chain = self.queue().take(round.number@);
        let others = new.data() + acquired(self.delivered) - acquired(new.delivered);
        assert forall|i: int|
            #![trigger new.delivered[i]]
            self.delivered.len() <= i < new.delivered.len() implies admits(
            self.discipline->limit,
            if others < 0 { 0 } else { others as nat },
            new.delivered[i].opcode,
        ) by {
            let k = new.delivered.len() - 1 - i;
            assert(chain[k] == self.queue()[k]);
            assert(self.nodes[self.queue()[k]].opcode == new.delivered[i].opcode);
            assert(admits(
                self.discipline->limit,
                self.data() + demand(self.nodes, self.queue(), k),
                new.delivered[i].opcode,
            ));
        }
    }

    /// Progress adds up.
    #[verifier::spinoff_prover]
    #[verifier::rlimit(60)]
    pub proof fn lemma_progresses_transitive(
        self,
        mid: Memory,
        new: Memory,
        a: Seq<usize>,
        b: Seq<usize>,
    )
        requires
            self.progresses(mid, a),
            mid.progresses(new, b),
        ensures
            self.progresses(new, a + b),
    {
        let all = a + b + new.queue();
        assert(self.queue().is_prefix_of(all)) by {
            let before = a + mid.queue();
            let after = a + (b + new.queue());
            assert(all =~= after);
            assert(after.take(before.len() as int) =~= before);
            assert(all.take(self.queue().len() as int) =~= before.take(self.queue().len() as int));
        }
        assert forall|i: int| #![trigger new.delivered[i]] self.delivered.len() <= i
            < new.delivered.len() implies new.delivered[i].result == 0 by {
            if i < mid.delivered.len() {
                assert(new.delivered[i] == mid.delivered[i]);
            }
        }
        assert forall|i: int|
            #![trigger new.delivered[i]]
            self.delivered.len() <= i < mid.delivered.len() implies new.delivered[i]
            == mid.delivered[i] by {}
        assert(self.calls(new)) by {
            reveal(Memory::calls);
        }
        lemma_acquired_grows(self.delivered, mid.delivered);
        let others = new.data() + acquired(self.delivered) - acquired(new.delivered);
        assert forall|i: int|
            #![trigger new.delivered[i]]
            self.delivered.len() <= i < new.delivered.len() implies admits(
            self.discipline->limit,
            if others < 0 { 0 } else { others as nat },
            new.delivered[i].opcode,
        ) by {
            if i < mid.delivered.len() {
                assert(new.delivered[i] == mid.delivered[i]);
            }
        }
        let both = a + b;
        let start = self.delivered.len() as int;
        assert forall|e: usize| #[trigger] both.contains(e) implies handed(
            new.delivered,
            start,
            e,
        ) by {
            let i = both.index_of(e);
            if i < a.len() {
                assert(a[i] == e);
                assert(a.contains(e));
                let j = choose|j: int|
                    start <= j < mid.delivered.len() && (#[trigger] mid.delivered[j]).entry == e;
                assert(new.delivered[j].entry == e);
            } else {
                assert(b[i - a.len()] == e);
                assert(b.contains(e));
                let j = choose|j: int|
                    mid.delivered.len() <= j < new.delivered.len() && (
                    #[trigger] new.delivered[j]).entry == e;
                assert(new.delivered[j].entry == e);
            }
        }
        assert forall|e: usize| handed(new.delivered, start, e) implies #[trigger] both.contains(
            e,
        ) by {
            let j = choose|j: int|
                start <= j < new.delivered.len() && (#[trigger] new.delivered[j]).entry == e;
            if j < mid.delivered.len() {
                assert(mid.delivered[j].entry == e);
                assert(a.contains(e));
                let i = a.index_of(e);
                assert(both[i] == e);
            } else {
                assert(handed(new.delivered, mid.delivered.len() as int, e));
                assert(b.contains(e));
                let i = b.index_of(e);
                assert(both[i + a.len()] == e);
            }
        }
        assert forall|e: usize| #[trigger] self.mine.contains(e) implies new.nodes[e]
            == self.nodes[e] by {
            assert(mid.mine.contains(e));
        }
    }

    /// What the served entries will hold has been added to the resources in use.
    pub proof fn lemma_load_added(self, round: Round, less: nat, new: Memory)
        requires
            self.discipline is Limited,
            self.discipline->limit <= 63,
            fits(self.discipline->limit, self.data(), self.nodes, self.queue(), round.number@),
            round.transferred == demand(self.nodes, self.queue(), round.number@),
            self.data() + round.transferred <= 63,
            less <= self.data(),
            new.added == self.added.plus(
                Tally::of(self.discipline, less + round.transferred as nat),
            ).minus(Tally::of(self.discipline, less)),
            new.spare == self.spare.plus(
                Tally::of(self.discipline, less + round.transferred as nat),
            ).minus(Tally::of(self.discipline, less)),
        ensures
            new.added == self.added.plus(
                load(self.discipline, self.nodes, self.queue(), round.number@),
            ),
            new.spare == self.spare.plus(
                load(self.discipline, self.nodes, self.queue(), round.number@),
            ),
    {
        lemma_load_fits(
            self.discipline,
            self.data(),
            less,
            self.nodes,
            self.queue(),
            round.number@,
        );
    }

    /// A round that has served all the entries is concluded.
    #[verifier::spinoff_prover]
    #[verifier::rlimit(60)]
    pub proof fn lemma_concludes_all(self, taken: Memory, round: Round)
        requires
            self.wf(),
            self.held,
            self.discipline is Limited,
            taken.wf(),
            self.serves(taken, round),
            round.unlocked,
        ensures
            self.concludes(taken, round, true),
            same_bodies(self.nodes, taken.nodes) ==> self.concludes_alone(taken, round),
    {
        reveal(Memory::serves);
        reveal(Memory::concludes);
        self.lemma_concludes(taken, taken, round);
        assert(self.queue().skip(round.number@) =~= Seq::<usize>::empty());
        WaitQueue::lemma_compose(taken.word, 0, false, taken.word as nat);
    }

    /// What a round that has not served all the entries leaves behind.
    #[verifier::spinoff_prover]
    #[verifier::rlimit(60)]
    pub proof fn lemma_serves_rest(self, taken: Memory, round: Round)
        requires
            self.wf(),
            self.held,
            self.discipline is Limited,
            taken.wf(),
            self.serves(taken, round),
            !round.unlocked,
        ensures
            taken.held,
            taken.discipline == self.discipline,
            taken.data() <= self.data(),
            self.data() + round.transferred <= 63,
            taken.queue().len() > 0,
            taken.backlinked(self.queue().len() - 1 - round.number@),
            0 <= round.number@ < self.queue().len(),
            fits(self.discipline->limit, self.data(), self.nodes, self.queue(), round.number@),
            round.transferred == demand(self.nodes, self.queue(), round.number@),
            taken.queue()[0] == round.head,
            taken.added == self.added,
            taken.spare == self.spare,
            taken.received == self.received,
            taken.delivered == self.delivered,
            !round.reset_failed ==> {
                &&& taken.word == self.word
                &&& taken.queue() == self.queue().skip(round.number@)
                &&& greedy(
                    self.discipline->limit,
                    self.data(),
                    self.nodes,
                    self.queue(),
                    round.number@,
                )
                &&& !admits(
                    self.discipline->limit,
                    self.data() + round.transferred as nat,
                    taken.nodes[taken.queue()[0]].opcode,
                )
            },
    {
        reveal(Memory::serves);
        let rest = self.queue().skip(round.number@);
        assert(rest[0] == self.queue()[round.number@]);
        assert(taken.queue()[0] == rest[0]);
    }

    /// A round that has not served all the entries is concluded.
    #[verifier::spinoff_prover]
    #[verifier::rlimit(60)]
    pub proof fn lemma_concludes_rest(
        self,
        taken: Memory,
        mid: Memory,
        new: Memory,
        round: Round,
        unlocked: bool,
    )
        requires
            self.wf(),
            self.held,
            self.discipline is Limited,
            taken.wf(),
            self.serves(taken, round),
            !round.unlocked,
            taken.rely(mid),
            new == (Memory { held: !unlocked, ..mid.counted(new.word) }),
            new.queue() == mid.queue(),
            new.data() == mid.data() + round.transferred,
            WaitQueue::flagged(new.word) == !unlocked,
        ensures
            self.concludes(new, round, unlocked),
            unlocked && !round.reset_failed && mid == taken && same_bodies(self.nodes, taken.nodes)
                ==> self.concludes_alone(new, round),
    {
        reveal(Tally::gain);
        self.lemma_serves_rest(taken, round);
        taken.lemma_backlinked_rely(mid, self.queue().len() - 1 - round.number@);
        self.lemma_concludes(taken, new, round);
        assert(mid.queue()[0] == taken.queue()[0]);
        self.lemma_load_added(round, mid.data(), new);
        assert(self.concludes(new, round, unlocked)) by {
            reveal(Memory::concludes);
        }
    }

    /// A round concludes with the entries that other tasks have pushed in the meantime.
    #[verifier::spinoff_prover]
    #[verifier::rlimit(40)]
    pub proof fn lemma_concludes(self, taken: Memory, new: Memory, round: Round)
        requires
            self.wf(),
            self.held,
            taken.wf(),
            self.serves(taken, round),
            new.mine == taken.mine,
            new.mine.subset_of(new.nodes.dom()),
            new.delivered == taken.delivered,
            new.discipline == taken.discipline,
            taken.keeps(new),
            taken.queue().is_prefix_of(new.queue()),
        ensures
            self.queue().is_prefix_of(self.queue().take(round.number@) + new.queue()),
            new.mine == self.mine.union(self.queue().take(round.number@).to_set()),
            self.keeps(new),
            new.owns(round.resolved, self.queue().take(round.number@)),
            demand(new.nodes, self.queue().take(round.number@), round.number@) == round.transferred,
            load(self.discipline, new.nodes, self.queue().take(round.number@), round.number@)
                == load(self.discipline, self.nodes, self.queue(), round.number@),
            forall|i: int|
                #![trigger self.queue()[i]]
                0 <= i < round.number@ ==> new.nodes[self.queue()[i]].opcode
                    == self.nodes[self.queue()[i]].opcode,
    {
        reveal(Memory::serves);
        let queue = self.queue();
        let number = round.number@;
        let chain = queue.take(number);
        self.lemma_serves_owns(taken, round);
        assert forall|i: int|
            #![trigger chain[i]]
            #![trigger queue[i]]
            0 <= i < number implies chain[i] == queue[i] && new.nodes[chain[i]].opcode
            == self.nodes[chain[i]].opcode by {
            assert(taken.mine.contains(chain[i]));
            assert(taken.nodes[queue[i]].opcode == self.nodes[queue[i]].opcode);
        }
        lemma_load_frame(self.discipline, new.nodes, chain, self.nodes, queue, number);
        taken.lemma_owns(new, round.resolved, chain);
        assert(chain + queue.skip(number) =~= queue);
        let all = chain + new.queue();
        assert(queue.skip(number).is_prefix_of(new.queue())) by {
            if round.unlocked {
                assert(queue.skip(number) =~= Seq::<usize>::empty());
            } else {
                let rest = queue.skip(number);
                assert(rest =~= taken.queue().take(rest.len() as int));
                assert(taken.queue() =~= new.queue().take(taken.queue().len() as int));
                assert(rest =~= new.queue().take(rest.len() as int));
            }
        }
        assert(all.take(queue.len() as int) =~= queue);
        assert forall|e: usize| #[trigger] self.mine.contains(e) implies new.nodes[e]
            == self.nodes[e] by {
            assert(taken.mine.contains(e));
        }
    }

    /// The entries that fit are served.
    #[verifier::spinoff_prover]
    #[verifier::rlimit(60)]
    pub proof fn lemma_hands_off(self, end: Memory, new: Memory, round: Round)
        requires
            self.wf(),
            self.discipline is Limited,
            self.concludes(end, round, true),
            self.concludes_alone(end, round),
            round.transferred == demand(self.nodes, self.queue(), round.number@),
            end.delivers(new, self.queue().take(round.number@), 0),
            new.mine == self.mine,
        ensures
            self.hands_off(new, round.number@),
    {
        reveal(Memory::delivers);
        reveal(Memory::concludes);
        let chain = self.queue().take(round.number@);
        assert forall|i: int|
            #![trigger chain[i]]
            #![trigger self.queue()[i]]
            0 <= i < round.number@ implies chain[i] == self.queue()[i]
            && end.nodes[chain[i]].opcode == self.nodes[chain[i]].opcode by {
            assert(end.nodes[self.queue()[i]].opcode == self.nodes[self.queue()[i]].opcode);
        }
        lemma_load_frame(
            self.discipline,
            end.nodes,
            chain,
            self.nodes,
            self.queue(),
            round.number@,
        );
        assert(self.calls(new)) by {
            reveal(Memory::calls);
        }
        assert forall|e: usize| #![trigger new.nodes[e]] self.nodes.dom().contains(e) implies {
            &&& new.nodes[e].opcode == self.nodes[e].opcode
            &&& new.nodes[e].is_sync == self.nodes[e].is_sync
            &&& new.nodes[e].result == (if self.queue().take(round.number@).contains(e) {
                Some(0u8)
            } else {
                self.nodes[e].result
            })
        } by {
            assert(end.nodes.dom().contains(e));
            assert(end.nodes[e].opcode == self.nodes[e].opcode);
        }
    }

    /// The links towards newer entries play no part in how the queue is served.
    #[verifier::spinoff_prover]
    #[verifier::rlimit(60)]
    pub proof fn lemma_hands_off_prev(self, mid: Memory, new: Memory, number: int)
        requires
            self.wf(),
            self.differs_in_prev(mid),
            mid.hands_off(new, number),
        ensures
            self.hands_off(new, number),
    {
        let queue = self.queue();
        assert forall|i: int|
            #![trigger queue[i]]
            0 <= i < queue.len() implies mid.nodes[queue[i]].opcode
            == self.nodes[queue[i]].opcode by {
            assert(self.nodes.dom().contains(queue[i]));
        }
        assert forall|i: int| 0 <= i <= queue.len() implies #[trigger] demand(mid.nodes, queue, i)
            == demand(self.nodes, queue, i) by {
            lemma_demand_frame(mid.nodes, queue, self.nodes, queue, i);
        }
        assert forall|i: int| #![trigger self.nodes[queue[i]]] 0 <= i < number implies admits(
            self.discipline->limit,
            self.data() + demand(self.nodes, queue, i),
            self.nodes[queue[i]].opcode,
        ) by {
            assert(mid.nodes[queue[i]].opcode == self.nodes[queue[i]].opcode);
            assert(demand(mid.nodes, queue, i) == demand(self.nodes, queue, i));
        }
        assert(demand(mid.nodes, queue, number) == demand(self.nodes, queue, number));
        lemma_load_frame(self.discipline, mid.nodes, queue, self.nodes, queue, number);
        assert(self.calls(new)) by {
            reveal(Memory::calls);
        }
        assert forall|e: usize| #![trigger new.nodes[e]] self.nodes.dom().contains(e) implies {
            &&& new.nodes[e].opcode == self.nodes[e].opcode
            &&& new.nodes[e].is_sync == self.nodes[e].is_sync
            &&& new.nodes[e].result == (if queue.take(number).contains(e) {
                Some(0u8)
            } else {
                self.nodes[e].result
            })
        } by {
            assert(mid.nodes.dom().contains(e));
            assert(mid.nodes[e] == Node { prev: mid.nodes[e].prev, ..self.nodes[e] });
        }
    }

    /// The links towards newer entries play no part in progress.
    #[verifier::spinoff_prover]
    #[verifier::rlimit(60)]
    pub proof fn lemma_progresses_prev(self, mid: Memory, new: Memory, served: Seq<usize>)
        requires
            self.wf(),
            self.differs_in_prev(mid),
            mid.progresses(new, served),
        ensures
            self.progresses(new, served),
    {
        assert(self.calls(new)) by {
            reveal(Memory::calls);
        }
        assert forall|e: usize| #[trigger] self.own.contains(e) implies {
            &&& new.nodes[e].opcode == self.nodes[e].opcode
            &&& new.nodes[e].is_sync == self.nodes[e].is_sync
            &&& self.nodes[e].result is Some ==> new.nodes[e] == self.nodes[e]
            &&& !self.queue().contains(e) ==> !new.queue().contains(e)
        } by {
            assert(mid.own.contains(e));
            assert(self.nodes.dom().contains(e));
            assert(mid.nodes[e] == Node { prev: mid.nodes[e].prev, ..self.nodes[e] });
            if self.queue().contains(e) {
                let i = self.queue().index_of(e);
                assert(self.queue()[i] == e);
            }
        }
        assert forall|e: usize| #[trigger] self.mine.contains(e) implies new.nodes[e]
            == self.nodes[e] by {
            assert(mid.mine.contains(e));
        }
    }

    /// Handing out results does not affect the links of the queue.
    pub proof fn lemma_backlinked_delivers(self, new: Memory, chain: Seq<usize>, number: int)
        requires
            self.wf(),
            self.delivers(new, chain, 0),
            self.backlinked(number),
            forall|i: int|
                #![trigger chain[i]]
                0 <= i < chain.len() ==> self.mine.contains(chain[i]),
        ensures
            new.backlinked(number),
    {
        reveal(Memory::delivers);
        let queue = self.queue();
        assert forall|i: int| #![trigger queue[i]] 0 <= i < queue.len() implies new.nodes[queue[i]]
            == self.nodes[queue[i]] by {
            if chain.contains(queue[i]) {
                let j = chain.index_of(queue[i]);
                assert(self.mine.contains(chain[j]));
                assert(queue.contains(queue[i]));
            }
        }
    }

    /// Nothing has to happen while the current task processes the queue.
    pub proof fn lemma_drifts_reflexive(self)
        requires
            self.wf(),
            self.held,
        ensures
            self.drifts(self),
    {
    }

    /// Other tasks intervene.
    pub proof fn lemma_drifts_rely(self, mid: Memory, new: Memory)
        requires
            self.wf(),
            self.held,
            self.drifts(mid),
            mid.rely(new),
        ensures
            self.drifts(new),
    {
        let queue = self.queue();
        assert forall|i: int| #![trigger queue[i]] 0 <= i < queue.len() implies new.nodes[queue[i]]
            == (Node { prev: new.nodes[queue[i]].prev, ..self.nodes[queue[i]] }) by {
            assert(queue[i] == mid.queue()[i]);
        }
        assert forall|e: usize| #[trigger] self.mine.contains(e) implies new.nodes[e]
            == self.nodes[e] by {
            assert(mid.mine.contains(e));
        }
        assert forall|e: usize| #[trigger] self.own.contains(e) implies {
            &&& new.nodes[e].opcode == self.nodes[e].opcode
            &&& new.nodes[e].is_sync == self.nodes[e].is_sync
            &&& self.nodes[e].result is Some ==> new.nodes[e] == self.nodes[e]
            &&& !self.queue().contains(e) ==> !new.queue().contains(e)
        } by {
            assert(mid.own.contains(e));
        }
        if self.discipline is Barrier {
            mid.lemma_rely_same_tail(new);
            let other = mid.queue();
            lemma_demand_frame(mid.nodes, other, new.nodes, other, other.len() as int);
        }
    }

    /// The current task links entries to newer ones.
    pub proof fn lemma_drifts_prev(self, mid: Memory, new: Memory)
        requires
            self.wf(),
            self.held,
            self.drifts(mid),
            mid.differs_in_prev(new),
            new.wf(),
        ensures
            self.drifts(new),
    {
        let queue = self.queue();
        assert forall|i: int| #![trigger queue[i]] 0 <= i < queue.len() implies new.nodes[queue[i]]
            == (Node { prev: new.nodes[queue[i]].prev, ..self.nodes[queue[i]] }) by {
            assert(queue[i] == mid.queue()[i]);
            assert(mid.nodes.dom().contains(queue[i]));
        }
        assert forall|e: usize| #[trigger] self.mine.contains(e) implies new.nodes[e]
            == self.nodes[e] by {
            assert(mid.mine.contains(e));
        }
        assert forall|e: usize| #[trigger] self.own.contains(e) implies {
            &&& new.nodes[e].opcode == self.nodes[e].opcode
            &&& new.nodes[e].is_sync == self.nodes[e].is_sync
            &&& self.nodes[e].result is Some ==> new.nodes[e] == self.nodes[e]
            &&& !self.queue().contains(e) ==> !new.queue().contains(e)
        } by {
            assert(mid.own.contains(e));
            assert(mid.nodes.dom().contains(e));
            if mid.queue().contains(e) {
                let i = mid.queue().index_of(e);
                assert(mid.queue()[i] == e);
            }
        }
        let other = mid.queue();
        assert forall|i: int|
            #![trigger other[i]]
            0 <= i < other.len() implies mid.nodes[other[i]].opcode
            == new.nodes[other[i]].opcode by {
            assert(mid.nodes.dom().contains(other[i]));
        }
        lemma_demand_frame(mid.nodes, other, new.nodes, other, other.len() as int);
    }

    /// The task that is processing the queue may remove an entry that is not the newest.
    pub proof fn lemma_may_bypass(self, index: int)
        requires
            self.wf(),
            self.held,
            0 <= index < self.queue().len() - 1,
        ensures
            ({
                let entry = self.queue()[index + 1];
                let new = self.with_next(entry, self.nodes[self.queue()[index]].next);
                &&& self.accessible(entry)
                &&& new.wf()
                &&& new.queue() == self.queue().remove(index)
                &&& new.mine == self.mine.insert(self.queue()[index])
            }),
    {
        let queue = self.queue();
        let entry = queue[index + 1];
        let new = self.with_next(entry, self.nodes[queue[index]].next);
        let rest = queue.remove(index);
        assert(queue.contains(entry));
        self.lemma_bypass(index);
        lemma_linked_remove(self.nodes, self.tail(), queue, index);
        lemma_remove_contains(queue, index);
        assert forall|i: int|
            #![trigger rest[i]]
            0 <= i < rest.len() implies new.nodes[rest[i]].result is None
            && new.nodes[rest[i]].opcode.valid() by {
            if i < index {
                assert(rest[i] == queue[i]);
            } else {
                assert(rest[i] == queue[i + 1]);
            }
        }
        assert(rest[rest.len() - 1] == queue[queue.len() - 1]);
    }

    /// The newest entry of the queue is the one that is removed.
    #[verifier::spinoff_prover]
    #[verifier::rlimit(60)]
    proof fn lemma_may_pop(self, word: usize, refund: nat)
        requires
            self.wf(),
            self.held,
            self.may_remove(self.tail(), refund),
            if self.queue().len() == 1 {
                &&& word < 64
                &&& word == self.data() + refund
            } else {
                let next = self.queue()[self.queue().len() - 2];
                &&& WaitQueue::addr_of(word) == next
                &&& WaitQueue::flagged(word)
                &&& WaitQueue::data_of(word) == self.data()
                &&& self.nodes[next].prev == 0
            },
        ensures
            self.may_swap(word),
            self.swapped(word).queue() == self.queue().drop_last(),
            self.swapped(word).mine == self.mine.insert(self.tail()),
            self.swapped(word).held == (self.queue().len() > 1),
            self.queue().len() == 1 ==> !WaitQueue::flagged(word),
    {
        assert(self.discipline is Limited ==> Tally::gain(
            self.discipline,
            self.word,
            word,
        ).valid()) by {
            reveal(Tally::gain);
            if self.queue().len() == 1 {
                WaitQueue::lemma_compose(word, 0, false, word as nat);
            }
        }
        let queue = self.queue();
        let new = self.swapped(word);
        let rest = queue.drop_last();
        if queue.len() == 1 {
            WaitQueue::lemma_compose(word, 0, false, word as nat);
            self.lemma_swap_clear(word);
            assert(rest =~= Seq::<usize>::empty());
            assert forall|e: usize| queue.contains(e) == (e == self.tail()) by {
                assert(queue[0] == self.tail());
                if queue.contains(e) {
                    let i = queue.index_of(e);
                    assert(queue[i] == e);
                }
            }
            assert(new.mine =~= self.mine.insert(self.tail()));
            assert(demand(self.nodes, queue, 1) == demand(self.nodes, queue, 0)
                + self.nodes[queue[0]].opcode.held());
        } else {
            self.lemma_swap_pop(word);
            assert(rest.last() == queue[queue.len() - 2]);
            assert forall|i: int|
                #![trigger rest[i]]
                0 <= i < rest.len() implies new.nodes[rest[i]].result is None
                && new.nodes[rest[i]].opcode.valid() && rest[i] != queue[queue.len() - 1] by {
                assert(rest[i] == queue[i]);
            }
        }
        assert(linked(new.nodes, new.tail(), rest)) by {
            assert forall|i: int| 0 <= i < rest.len() implies new.nodes.dom().contains(
                #[trigger] rest[i],
            ) && rest[i] != 0 && WaitQueue::aligned(rest[i]) by {
                assert(rest[i] == queue[i]);
            }
            assert forall|i: int|
                #![trigger new.nodes[rest[i]]]
                0 < i < rest.len() implies new.nodes[rest[i]].next == rest[i - 1] by {
                assert(self.nodes[queue[i]].next == queue[i - 1]);
            }
        }
        assert forall|e: usize| #[trigger] new.mine.contains(e) implies !rest.contains(e) by {
            if rest.contains(e) {
                let i = rest.index_of(e);
                assert(queue[i] == e);
                assert(queue[i] != queue[queue.len() - 1]);
                assert(queue.contains(e));
            }
        }
    }

    /// An entry has been taken out of the queue that has drifted.
    #[verifier::spinoff_prover]
    #[verifier::rlimit(60)]
    proof fn lemma_removes(self, ready: Memory, new: Memory, entry: usize, index: int)
        requires
            self.wf(),
            self.held,
            self.queue().contains(entry),
            self.drifts(ready),
            0 <= index < ready.queue().len(),
            ready.queue()[index] == entry,
            new.queue() == ready.queue().remove(index),
            new.mine == self.mine.insert(entry),
            new.own == self.own,
            new.delivered == self.delivered,
            self.discipline is Limited ==> new.added == self.added,
            new.received == self.received,
            new.spare == self.spare,
            new.roster == self.roster,
            new.discipline == self.discipline,
            new.nodes.dom() == ready.nodes.dom(),
            forall|e: usize|
                #![trigger new.nodes[e]]
                ready.nodes.dom().contains(e) ==> {
                    &&& new.nodes[e].opcode == ready.nodes[e].opcode
                    &&& new.nodes[e].is_sync == ready.nodes[e].is_sync
                    &&& new.nodes[e].result == ready.nodes[e].result
                    &&& !ready.queue().contains(e) ==> new.nodes[e] == ready.nodes[e]
                },
            new.held ==> new.data() == ready.data(),
            self.discipline is Limited ==> new.data() == ready.data(),
            new.held == (new.queue().len() > 0),
            !new.held ==> !WaitQueue::flagged(new.word),
        ensures
            self.removes(new, entry, false),
            ready.queue() == self.queue() && ready.data() == self.data() && same_bodies(
                self.nodes,
                ready.nodes,
            ) ==> self.removes(new, entry, true),
    {
        let queue = self.queue();
        let other = ready.queue();
        let i = queue.index_of(entry);
        assert(queue[i] == entry);
        assert(other[i] == entry);
        assert(i == index);
        lemma_remove_contains(other, index);
        let rest = queue.remove(index);
        assert(rest =~= new.queue().take(rest.len() as int));
        assert forall|e: usize| #[trigger] self.mine.contains(e) implies new.nodes[e]
            == self.nodes[e] by {
            assert(ready.mine.contains(e));
        }
        assert forall|e: usize| #[trigger] self.own.contains(e) implies {
            &&& new.nodes[e].opcode == self.nodes[e].opcode
            &&& new.nodes[e].is_sync == self.nodes[e].is_sync
            &&& self.nodes[e].result is Some ==> new.nodes[e] == self.nodes[e]
            &&& !self.queue().contains(e) ==> !new.queue().contains(e)
        } by {
            assert(ready.own.contains(e));
            if other.contains(e) {
                let j = other.index_of(e);
                assert(other[j] == e);
            }
        }
        assert(ready.nodes[entry].opcode == self.nodes[entry].opcode);
        lemma_demand_remove(ready.nodes, other, index);
        let left = new.queue();
        assert forall|j: int|
            #![trigger left[j]]
            0 <= j < left.len() implies ready.nodes[left[j]].opcode
            == new.nodes[left[j]].opcode by {
            assert(left.contains(left[j]));
            let k = other.index_of(left[j]);
            assert(other[k] == left[j]);
        }
        lemma_demand_frame(ready.nodes, left, new.nodes, left, left.len() as int);
        if ready.queue() == self.queue() && same_bodies(self.nodes, ready.nodes) {
            assert forall|e: usize|
                #![trigger new.nodes[e]]
                self.nodes.dom().contains(e) implies new.nodes[e].opcode == self.nodes[e].opcode
                && new.nodes[e].is_sync == self.nodes[e].is_sync && new.nodes[e].result
                == self.nodes[e].result by {
                assert(ready.nodes.dom().contains(e));
                assert(ready.nodes[e].opcode == self.nodes[e].opcode);
            }
        }
    }

    /// An entry other than the newest has been taken out of the queue.
    pub proof fn lemma_removes_bypass(self, ready: Memory, entry: usize, index: int)
        requires
            self.wf(),
            self.held,
            self.queue().contains(entry),
            self.drifts(ready),
            0 <= index < ready.queue().len() - 1,
            ready.queue()[index] == entry,
        ensures
            ({
                let new = ready.with_next(ready.queue()[index + 1], ready.nodes[entry].next);
                &&& self.removes(new, entry, false)
                &&& ready.queue() == self.queue() && ready.data() == self.data() && same_bodies(
                    self.nodes,
                    ready.nodes,
                ) ==> self.removes(new, entry, true)
            }),
    {
        let queue = ready.queue();
        let new = ready.with_next(queue[index + 1], ready.nodes[entry].next);
        ready.lemma_may_bypass(index);
        assert(queue.contains(queue[index + 1]));
        assert(ready.nodes.dom().contains(queue[index + 1]));
        assert(new.nodes.dom() =~= ready.nodes.dom());
        self.lemma_removes(ready, new, entry, index);
    }

    /// The newest entry has been taken out of the queue.
    pub proof fn lemma_removes_last(
        self,
        ready: Memory,
        mid: Memory,
        word: usize,
        entry: usize,
        refund: nat,
    )
        requires
            self.wf(),
            self.held,
            self.queue().contains(entry),
            self.may_remove(entry, refund),
            self.drifts(ready),
            ready.wf(),
            ready.rely(mid),
            mid.word == ready.word,
            ready.tail() == entry,
            if ready.queue().len() == 1 {
                word == ready.data() + refund
            } else {
                let next = ready.queue()[ready.queue().len() - 2];
                &&& WaitQueue::addr_of(word) == next
                &&& WaitQueue::flagged(word)
                &&& WaitQueue::data_of(word) == ready.data()
                &&& ready.nodes[next].prev == 0
            },
        ensures
            mid.may_swap(word),
            mid.swapped(word).word == word,
            self.removes(mid.swapped(word), entry, false),
            mid == ready && ready.queue() == self.queue() && ready.data() == self.data()
                && same_bodies(self.nodes, ready.nodes) ==> self.removes(
                mid.swapped(word),
                entry,
                true,
            ),
    {
        reveal(Tally::gain);
        let queue = ready.queue();
        ready.lemma_rely_same_tail(mid);
        self.lemma_drifts_rely(ready, mid);
        let i = self.queue().index_of(entry);
        assert(self.queue()[i] == entry);
        assert(mid.nodes[entry].opcode == self.nodes[entry].opcode);
        let index = queue.len() - 1;
        assert(queue[index] == entry);
        if queue.len() > 1 {
            assert(mid.nodes[queue[queue.len() - 2]] == ready.nodes[queue[queue.len() - 2]]);
        } else {
            WaitQueue::lemma_split(ready.word);
            if self.discipline is Barrier {
                assert(demand(mid.nodes, queue, 1) == demand(mid.nodes, queue, 0)
                    + mid.nodes[queue[0]].opcode.held());
            }
        }
        mid.lemma_may_pop(word, refund);
        let new = mid.swapped(word);
        assert(queue.drop_last() =~= queue.remove(index));
        if queue.len() == 1 && self.discipline is Limited {
            WaitQueue::lemma_compose(word, 0, false, word as nat);
        }
        self.lemma_removes(mid, new, entry, index);
    }

    /// Links towards newer entries are not part of what an entry is waiting for.
    pub proof fn lemma_same_bodies_prev(self, new: Memory)
        requires
            self.differs_in_prev(new),
        ensures
            same_bodies(self.nodes, new.nodes),
    {
    }

    /// The queue may drift in several steps.
    pub proof fn lemma_drifts_transitive(self, mid: Memory, new: Memory)
        requires
            self.wf(),
            self.held,
            self.drifts(mid),
            mid.drifts(new),
        ensures
            self.drifts(new),
    {
        let queue = self.queue();
        assert forall|i: int| #![trigger queue[i]] 0 <= i < queue.len() implies new.nodes[queue[i]]
            == (Node { prev: new.nodes[queue[i]].prev, ..self.nodes[queue[i]] }) by {
            assert(queue[i] == mid.queue()[i]);
        }
        assert forall|e: usize| #[trigger] self.mine.contains(e) implies new.nodes[e]
            == self.nodes[e] by {
            assert(mid.mine.contains(e));
        }
        assert forall|e: usize| #[trigger] self.own.contains(e) implies {
            &&& new.nodes[e].opcode == self.nodes[e].opcode
            &&& new.nodes[e].is_sync == self.nodes[e].is_sync
            &&& self.nodes[e].result is Some ==> new.nodes[e] == self.nodes[e]
            &&& !self.queue().contains(e) ==> !new.queue().contains(e)
        } by {
            assert(mid.own.contains(e));
        }
    }

    /// An entry stays in the queue that drifts.
    pub proof fn lemma_drifts_contains(self, new: Memory, entry: usize, refund: nat)
        requires
            self.wf(),
            self.held,
            self.drifts(new),
            self.may_remove(entry, refund),
            new != self ==> self.queue().contains(entry),
        ensures
            self.queue().contains(entry) ==> new.queue().contains(entry),
            new.may_remove(entry, refund),
    {
        if self.queue().contains(entry) {
            let i = self.queue().index_of(entry);
            assert(self.queue()[i] == entry);
            assert(new.queue()[i] == entry);
        }
    }

    /// An entry has been taken out of the queue after the queue has drifted.
    pub proof fn lemma_removes_drift(self, mid: Memory, new: Memory, entry: usize)
        requires
            self.wf(),
            self.held,
            self.queue().contains(entry),
            self.drifts(mid),
            mid.removes(new, entry, false),
        ensures
            self.removes(new, entry, false),
    {
        let queue = self.queue();
        let other = mid.queue();
        let i = queue.index_of(entry);
        assert(queue[i] == entry);
        assert(other[i] == entry);
        let j = other.index_of(entry);
        assert(other[j] == entry);
        assert(i == j);
        let rest = queue.remove(i);
        assert(rest =~= other.remove(i).take(rest.len() as int));
        assert(rest =~= new.queue().take(rest.len() as int));
        assert forall|e: usize| #[trigger] self.mine.contains(e) implies new.nodes[e]
            == self.nodes[e] by {
            assert(mid.mine.contains(e));
        }
        assert forall|e: usize| #[trigger] self.own.contains(e) implies {
            &&& new.nodes[e].opcode == self.nodes[e].opcode
            &&& new.nodes[e].is_sync == self.nodes[e].is_sync
            &&& self.nodes[e].result is Some ==> new.nodes[e] == self.nodes[e]
            &&& !self.queue().contains(e) ==> !new.queue().contains(e)
        } by {
            assert(mid.own.contains(e));
        }
    }

    /// Nobody is served by processing a queue that has settled.
    pub proof fn lemma_settled_hands_off(self, locked: Memory, new: Memory, number: int)
        requires
            self.wf(),
            self.discipline is Limited,
            !WaitQueue::flagged(self.word),
            self.queue().len() > 0,
            locked.wf(),
            (Memory { held: true, ..self.counted((self.word + 64) as usize) }).differs_in_prev(locked),
            WaitQueue::data_of((self.word + 64) as usize) == self.data(),
            locked.queue() == self.queue(),
            locked.hands_off(new, number),
            new.wf(),
        ensures
            self.same_state(new),
    {
        reveal(Tally::gain);
        let queue = self.queue();
        assert(self.nodes.dom().contains(queue[0]));
        assert(locked.nodes[queue[0]].opcode == self.nodes[queue[0]].opcode);
        if number > 0 {
            assert(admits(
                self.discipline->limit,
                locked.data() + demand(locked.nodes, queue, 0),
                locked.nodes[queue[0]].opcode,
            ));
        }
        assert(queue.skip(0) =~= queue);
        assert(queue.take(0) =~= Seq::<usize>::empty());
        assert(new.tail() == self.tail());
        WaitQueue::lemma_split(new.word);
        WaitQueue::lemma_split(self.word);
        assert forall|e: usize|
            #![trigger new.nodes[e]]
            self.nodes.dom().contains(e) implies new.nodes[e].opcode
            == self.nodes[e].opcode && new.nodes[e].result == self.nodes[e].result by {
            assert(locked.nodes.dom().contains(e));
            assert(locked.nodes[e] == Node { prev: locked.nodes[e].prev, ..self.nodes[e] });
        }
    }

    /// An entry was not found in the queue, so processing the queue does not concern the current
    /// task.
    pub proof fn lemma_withdraw_failed(
        self,
        locked: Memory,
        new: Memory,
        served: Seq<usize>,
        word: usize,
    )
        requires
            self.wf(),
            !self.held,
            (Memory { held: true, ..self.counted(word) }).differs_in_prev(locked),
            (Memory { held: true, ..self.counted(word) }).queue() == self.queue(),
            WaitQueue::data_of(word) == self.data(),
            locked.wf(),
            locked.progresses(new, served),
            !new.held,
        ensures
            self.continues(new),
    {
        reveal(Tally::gain);
        let mid = Memory { held: true, ..self.counted(word) };
        assert forall|e: usize| #[trigger] self.own.contains(e) implies {
            &&& new.nodes[e].opcode == self.nodes[e].opcode
            &&& new.nodes[e].is_sync == self.nodes[e].is_sync
            &&& self.nodes[e].result is Some ==> new.nodes[e] == self.nodes[e]
            &&& !self.queue().contains(e) ==> !new.queue().contains(e)
        } by {
            assert(locked.own.contains(e));
            assert(mid.nodes.dom().contains(e));
            assert(locked.nodes[e] == Node { prev: locked.nodes[e].prev, ..self.nodes[e] });
            if self.queue().contains(e) {
                let i = self.queue().index_of(e);
                assert(self.queue()[i] == e);
            }
        }
        assert forall|e: usize| #[trigger] self.mine.contains(e) implies new.nodes[e]
            == self.nodes[e] by {
            assert(locked.mine.contains(e));
        }
    }

    /// Whatever the other tasks do, they leave the entries of the current task alone.
    pub proof fn lemma_continues(self, mid: Memory, new: Memory)
        requires
            self.continues(mid),
            mid.rely(new),
        ensures
            self.continues(new),
    {
        assert forall|e: usize| #[trigger] self.own.contains(e) implies {
            &&& new.nodes[e].opcode == self.nodes[e].opcode
            &&& new.nodes[e].is_sync == self.nodes[e].is_sync
            &&& self.nodes[e].result is Some ==> new.nodes[e] == self.nodes[e]
            &&& !self.queue().contains(e) ==> !new.queue().contains(e)
        } by {
            assert(mid.own.contains(e));
        }
        assert forall|e: usize| #[trigger] self.mine.contains(e) implies new.nodes[e]
            == self.nodes[e] by {
            assert(mid.mine.contains(e));
        }
    }

    /// Releasing resources leaves the entries of the current task alone.
    #[verifier::spinoff_prover]
    #[verifier::rlimit(60)]
    pub proof fn lemma_releases_continues(self, new: Memory, mode: Opcode, alone: bool)
        requires
            self.wf(),
            !self.held,
            self.discipline is Limited,
            self.releases(new, mode, alone),
        ensures
            new.held == self.held,
            new.mine == self.mine,
            new.received == self.received,
            new.discipline == self.discipline,
            self.keeps(new),
    {
        if self.tail() == 0 || WaitQueue::flagged(self.word) {
            WaitQueue::lemma_reduce(self.word, new.word);
            self.lemma_may_release(new.word);
        } else {
            let locked = Memory { held: true, ..self.counted((self.word + 64 - mode.held()) as usize) };
            WaitQueue::lemma_lock(self.word, mode.held());
            locked.lemma_queue(self.queue());
            let served = choose|served: Seq<usize>| #[trigger] locked.progresses(new, served);
            assert(locked.progresses(new, served));
        }
    }
}

} // verus!
