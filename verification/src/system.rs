//! What holds of all the tasks that share a primitive, however they interleave.
use vstd::prelude::*;

use crate::memory::Discipline;
use crate::memory::Memory;
use crate::memory::Node;
use crate::memory::Tally;
use crate::opcode::Opcode;
use crate::sync_primitive::Acquisition;
use crate::wait_queue::WaitQueue;

verus! {

/// The resources that came with the result of an entry, if it is one of `own`.
pub open spec fn granted(
    discipline: Discipline,
    nodes: Map<usize, Node>,
    own: Set<usize>,
    entry: usize,
) -> Tally {
    if own.contains(entry) && nodes[entry].result == Some(0u8) {
        Tally::of(discipline, nodes[entry].opcode.held())
    } else {
        Tally::none()
    }
}

/// The resources that came with the results of those entries of `own` whose addresses are less than
/// `bound`.
pub open spec fn grants(
    discipline: Discipline,
    nodes: Map<usize, Node>,
    own: Set<usize>,
    bound: int,
) -> Tally
    decreases bound,
{
    if bound <= 0 {
        Tally::none()
    } else {
        grants(discipline, nodes, own, bound - 1).plus(
            granted(discipline, nodes, own, (bound - 1) as usize),
        )
    }
}

/// What the first `number` tasks hold.
pub open spec fn total(views: Seq<Memory>, number: int) -> Tally
    decreases number,
{
    if number <= 0 {
        Tally::none()
    } else {
        total(views, number - 1).plus(views[number - 1].holdings())
    }
}

/// The tasks share the same memory, and each entry belongs to one of them.
pub open spec fn sharing(views: Seq<Memory>) -> bool {
    &&& forall|i: int, j: int|
        #![trigger views[i], views[j]]
        0 <= i < views.len() && 0 <= j < views.len() && i != j ==> views[i].shares(views[j])
    &&& forall|i: int| #![trigger views[i]] 0 <= i < views.len() ==> views[i].wf()
    &&& forall|i: int, e: usize|
        #![trigger views[i].nodes.dom().contains(e)]
        0 <= i < views.len() && views[i].nodes.dom().contains(e) ==> exists|j: int|
            0 <= j < views.len() && (#[trigger] views[j]).own.contains(e)
}

/// What the tasks hold, together with what was in use from the beginning, is what is in use.
pub open spec fn balanced(views: Seq<Memory>, base: Tally) -> bool {
    &&& sharing(views)
    &&& views.len() > 0
    &&& total(views, views.len() as int).plus(base) == Tally::of(
        views[0].discipline,
        views[0].data(),
    )
}

/// Nobody has released more than they had acquired.
pub open spec fn honest(views: Seq<Memory>, base: Tally) -> bool {
    &&& base.valid()
    &&& forall|i: int| #![trigger views[i]] 0 <= i < views.len() ==> views[i].holdings().valid()
}

/// The views of all the tasks after the memory has become `new` in the view of one of them.
pub open spec fn stepped(views: Seq<Memory>, task: int, new: Memory) -> Seq<Memory> {
    Seq::new(
        views.len(),
        |i: int|
            if i == task {
                new
            } else {
                views[i].passed_on(new)
            },
    )
}

/// The other tasks lose nothing when the memory becomes `new` in the view of one of them.
pub open spec fn unaffected(views: Seq<Memory>, task: int, new: Memory) -> bool {
    forall|i: int|
        #![trigger stepped(views, task, new)[i]]
        0 <= i < views.len() && i != task ==> stepped(views, task, new)[i].holdings().minus(
            views[i].holdings(),
        ).valid()
}

/// Nobody has released more than they had acquired, not even in the middle of an operation: each
/// task keeps at least nothing for itself, and has added what it hands to waiting tasks.
pub open spec fn solvent(views: Seq<Memory>, base: Tally) -> bool {
    &&& base.valid()
    &&& forall|i: int|
        #![trigger views[i]]
        0 <= i < views.len() ==> views[i].kept().valid() && views[i].spare.valid()
}

impl Memory {
    /// What the task has acquired, less what it has released or handed to others.
    ///
    /// The results of its entries count once the entries have been destroyed.
    pub open spec fn earned(self) -> Tally {
        self.added.minus(crate::memory::gifts(self.discipline, self.delivered)).plus(self.received)
    }

    /// What the task holds, including what its entries have been handed.
    pub open spec fn holdings(self) -> Tally {
        self.earned().plus(grants(self.discipline, self.nodes, self.own, usize::MAX + 1))
    }

    /// What comes with the result for the task waiting in the entry.
    pub open spec fn gift(self, entry: usize, result: u8) -> Tally {
        if result == 0 {
            Tally::of(self.discipline, self.nodes[entry].opcode.held())
        } else {
            Tally::none()
        }
    }

    /// What the task holds for itself, and not on behalf of waiting tasks.
    pub open spec fn kept(self) -> Tally {
        self.holdings().minus(self.spare)
    }

    /// The primitive has the operation: there are no permits where there is an exclusive owner.
    pub open spec fn offers(self, opcode: Opcode) -> bool {
        ||| opcode is Exclusive
        ||| opcode is Shared
        ||| opcode.held() == 0
        ||| self.discipline->limit == 63
    }

    /// A task that acquires resources right away holds them, whatever other tasks have done before.
    pub proof fn law_acquired_is_held(self, mid: Memory, new: Memory, opcode: Opcode)
        requires
            self.rely(mid),
            mid.wf(),
            mid.takes(new, opcode),
            opcode.valid(),
            opcode is Exclusive || opcode is Shared || opcode is Semaphore,
        ensures
            new.earned() == self.earned().plus(Tally::of(self.discipline, opcode.held())),
            new.holdings() == mid.holdings().plus(Tally::of(self.discipline, opcode.held())),
    {
        reveal(Tally::gain);
        WaitQueue::lemma_split(mid.word);
        assert(opcode.held() == opcode.desired());
        WaitQueue::lemma_raise(mid.word, opcode.held() as usize);
    }

    /// A task holds what it has tried to acquire if and only if it was told so, whoever intervenes.
    #[verifier::spinoff_prover]
    pub proof fn law_acquisition_is_ownership(
        self,
        new: Memory,
        opcode: Opcode,
        outcome: Acquisition,
        alone: bool,
    )
        requires
            self.wf(),
            self.acquires(new, opcode, outcome, alone),
            opcode.valid(),
            opcode is Exclusive || opcode is Shared || opcode is Semaphore,
        ensures
            new.earned() == (if outcome == Acquisition::Done(true) {
                self.earned().plus(Tally::of(self.discipline, opcode.held()))
            } else {
                self.earned()
            }),
    {
        if outcome == Acquisition::Done(true) {
            let mid = choose|mid: Memory| #[trigger]
                self.rely(mid) && mid.takes(new, opcode) && (alone ==> mid == self);
            self.law_acquired_is_held(mid, new, opcode);
        }
    }

    /// Registering an entry gives the task nothing but what the entry is handed with the result
    /// zero, and takes nothing from it, whoever intervenes.
    pub proof fn law_registration_is_balanced(
        self,
        new: Memory,
        entry: usize,
        opcode: Opcode,
        alone: bool,
    )
        requires
            self.wf(),
            self.registers(new, entry, opcode, alone),
        ensures
            new.earned() == self.earned(),
            new.grant(entry) == (if new.nodes[entry].result == Some(0u8) {
                Tally::of(self.discipline, opcode.held())
            } else {
                Tally::none()
            }),
    {
        if let Some(result) = new.nodes[entry].result {
            assert(new.delivered.drop_last() =~= self.delivered);
        }
    }

    /// A task that destroys an entry of its own keeps what came with the result.
    pub proof fn law_result_is_received(self, entry: usize)
        ensures
            self.without_entry(entry).earned() == self.earned().plus(self.grant(entry)),
    {
    }

    /// A task that releases resources holds them no longer, whoever else intervenes or is served.
    #[verifier::spinoff_prover]
    #[verifier::rlimit(60)]
    pub proof fn law_released_is_not_held(
        self,
        mid: Memory,
        new: Memory,
        opcode: Opcode,
        alone: bool,
    )
        requires
            self.rely(mid),
            mid.wf(),
            mid.discipline is Limited,
            mid.releases(new, opcode, alone),
            self.offers(opcode),
        ensures
            new.earned() == self.earned().minus(Tally::of(self.discipline, opcode.held())),
    {
        if mid.tail() == 0 || WaitQueue::flagged(mid.word) {
            reveal(Tally::gain);
            WaitQueue::lemma_reduce(mid.word, new.word);
        } else {
            let locked = Memory {
                held: true,
                ..mid.counted((mid.word + 64 - opcode.held()) as usize)
            };
            assert(locked.earned() == mid.earned().minus(
                Tally::of(self.discipline, opcode.held()),
            )) by {
                reveal(Tally::gain);
                WaitQueue::lemma_lock(mid.word, opcode.held());
            }
            let served = choose|served: Seq<usize>| #[trigger] locked.progresses(new, served);
            assert(locked.balances(new));
        }
    }

    /// A task that gives up waiting in an entry holds what it held before, whoever intervenes: what
    /// the entry was handed is given back, unless somebody else has released it.
    #[verifier::spinoff_prover]
    #[verifier::rlimit(60)]
    pub proof fn law_giving_up_gives_back(self, new: Memory, entry: usize, alone: bool)
        requires
            self.wf(),
            self.discipline is Limited,
            self.own.contains(entry),
            self.cleans_up(new, entry, alone),
            self.offers(self.nodes[entry].opcode),
        ensures
            new.earned() == self.earned() || !self.nodes[entry].opcode.releasable(new.data()),
    {
        let opcode = self.nodes[entry].opcode;
        let done = choose|done: Memory| #[trigger]
            done.without_entry(entry) == new && done.wf() && !done.queue().contains(entry) && {
                ||| {
                    &&& exists|mid: Memory| #[trigger]
                        self.rely(mid) && mid.withdraws(done, entry, alone) && (alone ==> mid
                            == self)
                    &&& alone ==> self.queue().contains(entry)
                }
                ||| {
                    &&& done.nodes[entry].result is Some
                    &&& exists|mid: Memory| #[trigger]
                        self.continues(mid) && mid.wf() && mid.nodes[entry].result == done.nodes[entry].result
                            && mid.forgoes(done, opcode, done.nodes[entry].result->0, alone) && (
                        alone ==> self.same_state(mid))
                    &&& alone ==> done.nodes[entry].result == self.nodes[entry].result
                }
            };
        done.law_result_is_received(entry);
        if exists|mid: Memory| #[trigger]
            self.rely(mid) && mid.withdraws(done, entry, alone) && (alone ==> mid == self) {
            let mid = choose|mid: Memory| #[trigger]
                self.rely(mid) && mid.withdraws(done, entry, alone) && (alone ==> mid == self);
            mid.lemma_withdrawn_earns_nothing(done, entry, alone);
        } else {
            let mid = choose|mid: Memory| #[trigger]
                self.continues(mid) && mid.wf() && mid.nodes[entry].result == done.nodes[entry].result
                    && mid.forgoes(done, opcode, done.nodes[entry].result->0, alone) && (alone
                    ==> self.same_state(mid));
            self.lemma_forgone(mid, done, entry, opcode, alone);
        }
    }

    /// What an entry was handed is given back, unless somebody else has released it.
    #[verifier::spinoff_prover]
    #[verifier::rlimit(60)]
    proof fn lemma_forgone(
        self,
        mid: Memory,
        done: Memory,
        entry: usize,
        opcode: Opcode,
        alone: bool,
    )
        requires
            self.wf(),
            self.discipline is Limited,
            self.own.contains(entry),
            self.nodes[entry].opcode == opcode,
            self.continues(mid),
            mid.wf(),
            done.nodes[entry].result is Some,
            mid.nodes[entry].result == done.nodes[entry].result,
            mid.forgoes(done, opcode, done.nodes[entry].result->0, alone),
            self.offers(opcode),
        ensures
            done.earned().plus(done.grant(entry)) == self.earned() || !opcode.releasable(
                done.data(),
            ),
    {
        assert(mid.own.contains(entry));
        assert(mid.earned() == self.earned());
        if done.nodes[entry].result == Some(0u8) {
            if mid.releases(done, opcode, alone) {
                mid.lemma_released(done, entry, opcode, alone);
            }
        }
    }

    /// Withdrawing an entry has nothing to do with what the task holds.
    #[verifier::spinoff_prover]
    #[verifier::rlimit(60)]
    proof fn lemma_withdrawn_earns_nothing(self, done: Memory, entry: usize, alone: bool)
        requires
            self.wf(),
            done.wf(),
            self.discipline is Limited,
            self.withdraws(done, entry, alone),
        ensures
            done.earned() == self.earned(),
            done.grant(entry) == Tally::none(),
    {
        let locked = Memory { held: true, ..self.counted((self.word + 64) as usize) };
        assert(locked.earned() == self.earned()) by {
            reveal(Tally::gain);
            WaitQueue::lemma_lock(self.word, 0);
        }
        let gone = choose|gone: Memory| #[trigger]
            locked.removes(gone, entry, alone) && (if gone.held {
                &&& !done.held
                &&& !WaitQueue::flagged(done.word)
                &&& exists|served: Seq<usize>| #[trigger] gone.progresses(done, served)
                &&& alone ==> exists|number: int| #[trigger] gone.hands_off(done, number)
            } else {
                done == gone
            });
        assert(gone.mine.contains(entry));
        if gone.held {
            let served = choose|served: Seq<usize>| #[trigger] gone.progresses(done, served);
            assert(gone.balances(done));
        }
        assert(done.mine.contains(entry));
    }

    /// What an entry was handed is released.
    proof fn lemma_released(self, done: Memory, entry: usize, opcode: Opcode, alone: bool)
        requires
            self.wf(),
            self.discipline is Limited,
            self.own.contains(entry),
            self.nodes[entry].opcode == opcode,
            self.releases(done, opcode, alone),
            done.nodes[entry].result == Some(0u8),
            self.offers(opcode),
        ensures
            done.earned().plus(done.grant(entry)) == self.earned(),
    {
        self.lemma_rely_reflexive();
        self.law_released_is_not_held(self, done, opcode, alone);
        if !(self.tail() == 0 || WaitQueue::flagged(self.word)) {
            let locked = Memory {
                held: true,
                ..self.counted((self.word + 64 - opcode.held()) as usize)
            };
            let served = choose|served: Seq<usize>| #[trigger] locked.progresses(done, served);
            assert(locked.keeps(done));
            assert(locked.own.contains(entry));
        }
    }

    /// A task that starts to wait holds what it held before.
    pub proof fn law_waiting_is_not_owning(
        self,
        mid: Memory,
        new: Memory,
        entry: usize,
        opcode: Opcode,
        seen: usize,
        alone: bool,
    )
        requires
            self.rely(mid),
            mid.enqueues(new, entry, opcode, seen, alone),
        ensures
            new.earned() == self.earned(),
    {
    }
}

/// Only one entry makes a difference.
proof fn lemma_grants(
    discipline: Discipline,
    a: Map<usize, Node>,
    p: Set<usize>,
    b: Map<usize, Node>,
    q: Set<usize>,
    entry: usize,
    bound: int,
)
    requires
        bound <= usize::MAX + 1,
        forall|e: usize|
            e != entry ==> #[trigger] granted(discipline, a, p, e) == granted(discipline, b, q, e),
    ensures
        grants(discipline, b, q, bound) == (if bound > entry {
            grants(discipline, a, p, bound).plus(granted(discipline, b, q, entry)).minus(
                granted(discipline, a, p, entry),
            )
        } else {
            grants(discipline, a, p, bound)
        }),
    decreases bound,
{
    if bound > 0 {
        lemma_grants(discipline, a, p, b, q, entry, bound - 1);
        let last = (bound - 1) as usize;
        assert(last != entry ==> granted(discipline, a, p, last) == granted(
            discipline,
            b,
            q,
            last,
        ));
    }
}

/// The total changes by what two of the tasks gain.
proof fn lemma_total(
    views: Seq<Memory>,
    new: Seq<Memory>,
    a: int,
    gain_a: Tally,
    b: int,
    gain_b: Tally,
    number: int,
)
    requires
        new.len() == views.len(),
        0 <= number <= views.len(),
        0 <= a < views.len(),
        0 <= b < views.len(),
        forall|i: int|
            #![trigger new[i]]
            0 <= i < views.len() ==> new[i].holdings() == views[i].holdings().plus(
                if i == a {
                    gain_a
                } else {
                    Tally::none()
                },
            ).plus(
                if i == b {
                    gain_b
                } else {
                    Tally::none()
                },
            ),
    ensures
        total(new, number) == total(views, number).plus(
            if number > a {
                gain_a
            } else {
                Tally::none()
            },
        ).plus(
            if number > b {
                gain_b
            } else {
                Tally::none()
            },
        ),
    decreases number,
{
    if number > 0 {
        lemma_total(views, new, a, gain_a, b, gain_b, number - 1);
        assert(new[number - 1].holdings() == new[number - 1].holdings());
    }
}

/// A step that each of the other tasks expects keeps the memory shared.
proof fn lemma_sharing(views: Seq<Memory>, task: int, new: Memory)
    requires
        sharing(views),
        0 <= task < views.len(),
        new.wf(),
        forall|i: int|
            #![trigger views[i]]
            0 <= i < views.len() && i != task ==> new.shares(views[i].passed_on(new)),
        forall|e: usize| #[trigger]
            new.nodes.dom().contains(e) ==> new.own.contains(e) || views[task].nodes.dom().contains(
                e,
            ),
        forall|e: usize| #[trigger]
            views[task].own.contains(e) && new.nodes.dom().contains(e) ==> new.own.contains(e),
    ensures
        sharing(stepped(views, task, new)),
{
    let after = stepped(views, task, new);
    assert forall|i: int, j: int|
        #![trigger after[i], after[j]]
        0 <= i < after.len() && 0 <= j < after.len() && i != j implies after[i].shares(
        after[j],
    ) by {
        assert(views[i].shares(views[j]));
        if i != task {
            assert(new.shares(views[i].passed_on(new)));
        }
        if j != task {
            assert(new.shares(views[j].passed_on(new)));
        }
    }
    assert forall|i: int| #![trigger after[i]] 0 <= i < after.len() implies after[i].wf() by {
        if i != task {
            assert(new.shares(views[i].passed_on(new)));
        }
    }
    assert forall|i: int, e: usize|
        #![trigger after[i].nodes.dom().contains(e)]
        0 <= i < after.len() && after[i].nodes.dom().contains(e) implies exists|j: int|
        0 <= j < after.len() && (#[trigger] after[j]).own.contains(e) by {
        assert(new.nodes.dom().contains(e));
        if new.own.contains(e) {
            assert(after[task].own.contains(e));
        } else {
            assert(views[task].nodes.dom().contains(e));
            let j = choose|j: int| 0 <= j < views.len() && (#[trigger] views[j]).own.contains(e);
            assert(j != task);
            assert(after[j].own.contains(e));
        }
    }
}

/// What the tasks hold still adds up after a task has replaced the state word.
#[verifier::spinoff_prover]
#[verifier::rlimit(60)]
pub proof fn law_swap_keeps_balance(views: Seq<Memory>, base: Tally, task: int, word: usize)
    requires
        balanced(views, base),
        0 <= task < views.len(),
        views[task].may_swap(word),
    ensures
        balanced(stepped(views, task, views[task].swapped(word)), base),
        unaffected(views, task, views[task].swapped(word)),
        views[task].swapped(word).holdings() == views[task].holdings().plus(
            Tally::gain(views[task].discipline, views[task].word, word),
        ),
{
    reveal(Tally::gain);
    let view = views[task];
    let new = view.swapped(word);
    let after = stepped(views, task, new);
    assert forall|i: int| #![trigger views[i]] 0 <= i < views.len() && i != task implies new.shares(
        views[i].passed_on(new),
    ) by {
        assert(view.shares(views[i]));
        view.law_swap_is_expected(views[i], word);
    }
    lemma_sharing(views, task, new);
    let gain = Tally::of(view.discipline, WaitQueue::data_of(word)).minus(
        Tally::of(view.discipline, view.data()),
    );
    lemma_total(views, after, task, gain, task, Tally::none(), views.len() as int);
    assert(task == 0 || views[0].shares(view));
}

/// What the tasks hold still adds up after a task has replaced the link of an entry to an older
/// one.
#[verifier::spinoff_prover]
#[verifier::rlimit(60)]
pub proof fn law_link_keeps_balance(
    views: Seq<Memory>,
    base: Tally,
    task: int,
    entry: usize,
    next: usize,
)
    requires
        balanced(views, base),
        0 <= task < views.len(),
        views[task].may_link(entry, next),
    ensures
        balanced(stepped(views, task, views[task].with_next(entry, next)), base),
        unaffected(views, task, views[task].with_next(entry, next)),
        views[task].with_next(entry, next).holdings() == views[task].holdings(),
{
    let view = views[task];
    let new = view.with_next(entry, next);
    let after = stepped(views, task, new);
    assert forall|i: int| #![trigger views[i]] 0 <= i < views.len() && i != task implies new.shares(
        views[i].passed_on(new),
    ) by {
        assert(view.shares(views[i]));
        view.law_link_is_expected(views[i], entry, next);
    }
    assert(view.nodes.dom().contains(entry)) by {
        if !view.mine.contains(entry) {
            let i = view.queue().index_of(entry);
            assert(view.queue()[i] == entry);
        }
    }
    lemma_sharing(views, task, new);
    lemma_links_keep_balance(views, after, task, new, entry);
}

/// What the tasks hold still adds up after a task has replaced the link of an entry to a newer one.
#[verifier::spinoff_prover]
#[verifier::rlimit(60)]
pub proof fn law_back_link_keeps_balance(
    views: Seq<Memory>,
    base: Tally,
    task: int,
    entry: usize,
    prev: usize,
)
    requires
        balanced(views, base),
        0 <= task < views.len(),
        views[task].accessible(entry),
        entry == views[task].tail() ==> prev == 0,
    ensures
        balanced(stepped(views, task, views[task].with_prev(entry, prev)), base),
        unaffected(views, task, views[task].with_prev(entry, prev)),
        views[task].with_prev(entry, prev).holdings() == views[task].holdings(),
{
    let view = views[task];
    let new = view.with_prev(entry, prev);
    let after = stepped(views, task, new);
    view.lemma_prev(entry, prev);
    assert forall|i: int| #![trigger views[i]] 0 <= i < views.len() && i != task implies new.shares(
        views[i].passed_on(new),
    ) by {
        assert(view.shares(views[i]));
        view.law_back_link_is_expected(views[i], entry, prev);
    }
    assert(view.nodes.dom().contains(entry)) by {
        if !view.mine.contains(entry) {
            let i = view.queue().index_of(entry);
            assert(view.queue()[i] == entry);
        }
    }
    lemma_sharing(views, task, new);
    lemma_links_keep_balance(views, after, task, new, entry);
}

/// Links have nothing to do with what the tasks hold.
proof fn lemma_links_keep_balance(
    views: Seq<Memory>,
    after: Seq<Memory>,
    task: int,
    new: Memory,
    entry: usize,
)
    requires
        sharing(views),
        0 <= task < views.len(),
        after == stepped(views, task, new),
        new.word == views[task].word,
        new.own == views[task].own,
        new.added == views[task].added,
        new.received == views[task].received,
        new.delivered == views[task].delivered,
        new.discipline == views[task].discipline,
        forall|e: usize|
            #![trigger new.nodes[e]]
            new.nodes[e].opcode == views[task].nodes[e].opcode && new.nodes[e].result
                == views[task].nodes[e].result,
    ensures
        total(after, views.len() as int) == total(views, views.len() as int),
        after[0].data() == views[0].data(),
        after[0].discipline == views[0].discipline,
        unaffected(views, task, new),
        new.holdings() == views[task].holdings(),
{
    let view = views[task];
    assert forall|i: int| #![trigger after[i]] 0 <= i < views.len() implies after[i].holdings()
        == views[i].holdings() by {
        assert(i == task || views[i].shares(view));
        assert forall|e: usize|
            e != entry implies #[trigger] granted(
            view.discipline,
            views[i].nodes,
            views[i].own,
            e,
        ) == granted(view.discipline, after[i].nodes, after[i].own, e) by {
            assert(new.nodes[e].opcode == view.nodes[e].opcode);
        }
        assert(new.nodes[entry].opcode == view.nodes[entry].opcode);
        lemma_grants(
            view.discipline,
            views[i].nodes,
            views[i].own,
            after[i].nodes,
            after[i].own,
            entry,
            usize::MAX + 1,
        );
    }
    lemma_total(views, after, task, Tally::none(), task, Tally::none(), views.len() as int);
    assert(after[task].holdings() == views[task].holdings());
    assert(unaffected(views, task, new));
    assert(task == 0 || views[0].shares(view));
}

/// What the tasks hold still adds up after a task has handed out a result: it has given away what
/// came with the result to the task that owns the entry.
#[verifier::spinoff_prover]
#[verifier::rlimit(60)]
pub proof fn law_result_keeps_balance(
    views: Seq<Memory>,
    base: Tally,
    task: int,
    entry: usize,
    result: u8,
)
    requires
        balanced(views, base),
        0 <= task < views.len(),
        views[task].mine.contains(entry),
    ensures
        balanced(stepped(views, task, views[task].with_result(entry, result)), base),
        unaffected(views, task, views[task].with_result(entry, result)),
        views[task].with_result(entry, result).holdings() == (if result == 0
            && !views[task].own.contains(entry) {
            views[task].holdings().minus(
                Tally::of(views[task].discipline, views[task].nodes[entry].opcode.held()),
            )
        } else {
            views[task].holdings()
        }),
{
    let view = views[task];
    let new = view.with_result(entry, result);
    let after = stepped(views, task, new);
    view.lemma_result(entry, result);
    assert forall|i: int| #![trigger views[i]] 0 <= i < views.len() && i != task implies new.shares(
        views[i].passed_on(new),
    ) by {
        assert(view.shares(views[i]));
        view.law_result_is_expected(views[i], entry, result);
    }
    lemma_sharing(views, task, new);
    assert(view.nodes.dom().contains(entry));
    let owner = choose|j: int| 0 <= j < views.len() && (#[trigger] views[j]).own.contains(entry);
    let gift = view.gift(entry, result);
    lemma_gift(views, task, entry, result, owner);
    lemma_total(
        views,
        after,
        owner,
        gift,
        task,
        Tally::none().minus(gift),
        views.len() as int,
    );
    assert(task == 0 || views[0].shares(view));
    assert(task == owner || views[task].shares(views[owner]));
    assert(after[task].holdings() == new.holdings());
    assert forall|i: int| #![trigger after[i]] 0 <= i < views.len() && i != task implies after[i]
        .holdings().minus(views[i].holdings()).valid() by {}
}

/// The task that owns an entry gets what comes with the result from the task that hands it out.
#[verifier::spinoff_prover]
#[verifier::rlimit(60)]
proof fn lemma_gift(views: Seq<Memory>, task: int, entry: usize, result: u8, owner: int)
    requires
        sharing(views),
        0 <= task < views.len(),
        0 <= owner < views.len(),
        views[task].mine.contains(entry),
        views[owner].own.contains(entry),
    ensures
        ({
            let after = stepped(views, task, views[task].with_result(entry, result));
            let gift = views[task].gift(entry, result);
            forall|i: int|
                #![trigger after[i]]
                0 <= i < views.len() ==> after[i].holdings() == views[i].holdings().plus(
                    if i == owner {
                        gift
                    } else {
                        Tally::none()
                    },
                ).plus(
                    if i == task {
                        Tally::none().minus(gift)
                    } else {
                        Tally::none()
                    },
                )
        }),
{
    let view = views[task];
    let new = view.with_result(entry, result);
    let after = stepped(views, task, new);
    let gift = view.gift(entry, result);
    assert(new.delivered.drop_last() =~= view.delivered);
    assert forall|i: int| #![trigger after[i]] 0 <= i < views.len() implies after[i].holdings()
        == views[i].holdings().plus(
        if i == owner {
            gift
        } else {
            Tally::none()
        },
    ).plus(
        if i == task {
            Tally::none().minus(gift)
        } else {
            Tally::none()
        },
    ) by {
        assert(i == task || views[i].shares(view));
        assert(i == owner || views[i].shares(views[owner]));
        assert forall|e: usize|
            e != entry implies #[trigger] granted(
            view.discipline,
            views[i].nodes,
            views[i].own,
            e,
        ) == granted(view.discipline, after[i].nodes, after[i].own, e) by {}
        lemma_grants(
            view.discipline,
            views[i].nodes,
            views[i].own,
            after[i].nodes,
            after[i].own,
            entry,
            usize::MAX + 1,
        );
    }
}

/// What the tasks hold still adds up after a task has created an entry.
#[verifier::spinoff_prover]
#[verifier::rlimit(60)]
pub proof fn law_creation_keeps_balance(
    views: Seq<Memory>,
    base: Tally,
    task: int,
    entry: usize,
    opcode: Opcode,
    is_sync: bool,
)
    requires
        balanced(views, base),
        0 <= task < views.len(),
        entry != 0,
        WaitQueue::aligned(entry),
        opcode.valid(),
        !views[task].nodes.dom().contains(entry),
    ensures
        balanced(stepped(views, task, views[task].with_entry(entry, opcode, is_sync)), base),
        unaffected(views, task, views[task].with_entry(entry, opcode, is_sync)),
        views[task].with_entry(entry, opcode, is_sync).holdings() == views[task].holdings(),
{
    let view = views[task];
    let new = view.with_entry(entry, opcode, is_sync);
    let after = stepped(views, task, new);
    assert(!view.queue().contains(entry)) by {
        if view.queue().contains(entry) {
            let i = view.queue().index_of(entry);
            assert(view.queue()[i] == entry);
        }
    }
    view.lemma_entry(entry, opcode, is_sync);
    assert forall|i: int| #![trigger views[i]] 0 <= i < views.len() && i != task implies new.shares(
        views[i].passed_on(new),
    ) by {
        assert(view.shares(views[i]));
        view.law_creation_is_expected(views[i], entry, opcode, is_sync);
    }
    lemma_sharing(views, task, new);
    assert forall|i: int| #![trigger after[i]] 0 <= i < views.len() implies after[i].holdings()
        == views[i].holdings() by {
        assert(i == task || views[i].shares(view));
        assert(!views[i].own.contains(entry));
        assert forall|e: usize|
            e != entry implies #[trigger] granted(
            view.discipline,
            views[i].nodes,
            views[i].own,
            e,
        ) == granted(view.discipline, after[i].nodes, after[i].own, e) by {}
        lemma_grants(
            view.discipline,
            views[i].nodes,
            views[i].own,
            after[i].nodes,
            after[i].own,
            entry,
            usize::MAX + 1,
        );
    }
    lemma_total(views, after, task, Tally::none(), task, Tally::none(), views.len() as int);
    assert(task == 0 || views[0].shares(view));
}

/// What the tasks hold still adds up after a task has destroyed an entry: it keeps what came with
/// the result.
#[verifier::spinoff_prover]
#[verifier::rlimit(60)]
pub proof fn law_destruction_keeps_balance(views: Seq<Memory>, base: Tally, task: int, entry: usize)
    requires
        balanced(views, base),
        0 <= task < views.len(),
        views[task].own.contains(entry),
        !views[task].queue().contains(entry),
        views[task].mine.contains(entry) || views[task].nodes[entry].result is Some,
    ensures
        balanced(stepped(views, task, views[task].without_entry(entry)), base),
        unaffected(views, task, views[task].without_entry(entry)),
        views[task].without_entry(entry).holdings() == views[task].holdings(),
{
    let view = views[task];
    let new = view.without_entry(entry);
    let after = stepped(views, task, new);
    view.lemma_no_entry(entry);
    assert forall|i: int| #![trigger views[i]] 0 <= i < views.len() && i != task implies new.shares(
        views[i].passed_on(new),
    ) by {
        assert(view.shares(views[i]));
        view.law_destruction_is_expected(views[i], entry);
    }
    lemma_sharing(views, task, new);
    assert forall|i: int| #![trigger after[i]] 0 <= i < views.len() implies after[i].holdings()
        == views[i].holdings() by {
        assert(i == task || views[i].shares(view));
        assert forall|e: usize|
            e != entry implies #[trigger] granted(
            view.discipline,
            views[i].nodes,
            views[i].own,
            e,
        ) == granted(view.discipline, after[i].nodes, after[i].own, e) by {}
        lemma_grants(
            view.discipline,
            views[i].nodes,
            views[i].own,
            after[i].nodes,
            after[i].own,
            entry,
            usize::MAX + 1,
        );
    }
    lemma_total(views, after, task, Tally::none(), task, Tally::none(), views.len() as int);
    assert(task == 0 || views[0].shares(view));
}

/// What a task does to the memory at once.
pub enum Step {
    /// The state word is replaced.
    Swap(usize),
    /// The link of an entry to an older one is replaced.
    Link(usize, usize),
    /// The link of an entry to a newer one is replaced.
    BackLink(usize, usize),
    /// An entry is handed a result.
    Deliver(usize, u8),
    /// An entry is created.
    Create(usize, Opcode, bool),
    /// An entry is destroyed.
    Destroy(usize),
}

impl Memory {
    /// The task of this view may take the step.
    pub open spec fn may_take(self, step: Step) -> bool {
        match step {
            Step::Swap(word) => self.may_swap(word),
            Step::Link(entry, next) => self.may_link(entry, next),
            Step::BackLink(entry, prev) => {
                &&& self.accessible(entry)
                &&& entry == self.tail() ==> prev == 0
            },
            Step::Deliver(entry, result) => self.may_deliver(entry, result),
            Step::Create(entry, opcode, _) => {
                &&& entry != 0
                &&& WaitQueue::aligned(entry)
                &&& opcode.valid()
                &&& !self.nodes.dom().contains(entry)
            },
            Step::Destroy(entry) => {
                &&& self.own.contains(entry)
                &&& !self.queue().contains(entry)
                &&& self.mine.contains(entry) || self.nodes[entry].result is Some
            },
        }
    }

    /// The task of this view releases no more than it keeps for itself by the step, if it releases
    /// anything.
    pub open spec fn affords(self, step: Step) -> bool {
        step matches Step::Swap(word) ==> self.held || self.kept().plus(
            Tally::gain(self.discipline, self.word, word),
        ).valid()
    }

    /// The memory after the task of this view has taken the step.
    pub open spec fn after(self, step: Step) -> Memory {
        match step {
            Step::Swap(word) => self.swapped(word),
            Step::Link(entry, next) => self.with_next(entry, next),
            Step::BackLink(entry, prev) => self.with_prev(entry, prev),
            Step::Deliver(entry, result) => self.with_result(entry, result),
            Step::Create(entry, opcode, is_sync) => self.with_entry(entry, opcode, is_sync),
            Step::Destroy(entry) => self.without_entry(entry),
        }
    }
}

/// The views of all the tasks after the given tasks have taken the given steps one after the other.
pub open spec fn ran(views: Seq<Memory>, steps: Seq<(int, Step)>) -> Seq<Memory>
    decreases steps.len(),
{
    if steps.len() == 0 {
        views
    } else {
        let before = ran(views, steps.drop_last());
        let (task, step) = steps.last();
        stepped(before, task, before[task].after(step))
    }
}

/// Each of the tasks may take its step when it is its turn.
pub open spec fn may_run(views: Seq<Memory>, steps: Seq<(int, Step)>) -> bool
    decreases steps.len(),
{
    if steps.len() == 0 {
        true
    } else {
        let (task, step) = steps.last();
        &&& may_run(views, steps.drop_last())
        &&& 0 <= task < views.len()
        &&& ran(views, steps.drop_last())[task].may_take(step)
    }
}

/// Nobody holds anything of a new primitive, so what the tasks hold adds up to what is in use.
pub proof fn law_new_primitive_is_balanced(views: Seq<Memory>)
    requires
        views.len() > 0,
        sharing(views),
        views[0].nodes.dom() == Set::<usize>::empty(),
        forall|i: int|
            #![trigger views[i]]
            0 <= i < views.len() ==> {
                &&& views[i].added == Tally::none()
                &&& views[i].received == Tally::none()
                &&& views[i].spare == Tally::none()
                &&& views[i].delivered.len() == 0
            },
    ensures
        balanced(views, Tally::of(views[0].discipline, views[0].data())),
        solvent(views, Tally::of(views[0].discipline, views[0].data())),
        forall|i: int|
            #![trigger views[i]]
            0 <= i < views.len() ==> views[i].holdings() == Tally::none(),
{
    assert forall|i: int| #![trigger views[i]] 0 <= i < views.len() implies views[i].holdings()
        == Tally::none() by {
        assert(i == 0 || views[i].shares(views[0]));
        assert forall|e: usize| !(#[trigger] views[i].own.contains(e)) by {
            assert(!views[i].nodes.dom().contains(e));
        }
        lemma_no_grants(views[i].discipline, views[i].nodes, views[i].own, usize::MAX + 1);
    }
    lemma_no_holdings(views, views.len() as int);
}

/// A task without entries has not been handed anything.
proof fn lemma_no_grants(
    discipline: Discipline,
    nodes: Map<usize, Node>,
    own: Set<usize>,
    bound: int,
)
    requires
        forall|e: usize| !(#[trigger] own.contains(e)),
    ensures
        grants(discipline, nodes, own, bound) == Tally::none(),
    decreases bound,
{
    if bound > 0 {
        lemma_no_grants(discipline, nodes, own, bound - 1);
    }
}

/// If nobody holds anything, the total is nothing.
proof fn lemma_no_holdings(views: Seq<Memory>, number: int)
    requires
        0 <= number <= views.len(),
        forall|i: int|
            #![trigger views[i]]
            0 <= i < views.len() ==> views[i].holdings() == Tally::none(),
    ensures
        total(views, number) == Tally::none(),
    decreases number,
{
    if number > 0 {
        lemma_no_holdings(views, number - 1);
        assert(views[number - 1].holdings() == Tally::none());
    }
}

/// However the tasks interleave, what they hold adds up to what is in use.
pub proof fn law_runs_keep_balance(views: Seq<Memory>, base: Tally, steps: Seq<(int, Step)>)
    requires
        balanced(views, base),
        may_run(views, steps),
    ensures
        balanced(ran(views, steps), base),
        ran(views, steps).len() == views.len(),
    decreases steps.len(),
{
    if steps.len() > 0 {
        let before = ran(views, steps.drop_last());
        let (task, step) = steps.last();
        law_runs_keep_balance(views, base, steps.drop_last());
        match step {
            Step::Swap(word) => law_swap_keeps_balance(before, base, task, word),
            Step::Link(entry, next) => law_link_keeps_balance(before, base, task, entry, next),
            Step::BackLink(entry, prev) => law_back_link_keeps_balance(
                before,
                base,
                task,
                entry,
                prev,
            ),
            Step::Deliver(entry, result) => law_result_keeps_balance(
                before,
                base,
                task,
                entry,
                result,
            ),
            Step::Create(entry, opcode, is_sync) => law_creation_keeps_balance(
                before,
                base,
                task,
                entry,
                opcode,
                is_sync,
            ),
            Step::Destroy(entry) => law_destruction_keeps_balance(before, base, task, entry),
        }
    }
}

/// Each of the tasks releases no more than it keeps for itself when it is its turn.
pub open spec fn affordable(views: Seq<Memory>, steps: Seq<(int, Step)>) -> bool
    decreases steps.len(),
{
    if steps.len() == 0 {
        true
    } else {
        let (task, step) = steps.last();
        &&& affordable(views, steps.drop_last())
        &&& ran(views, steps.drop_last())[task].affords(step)
    }
}

/// No step of any operation lets a task owe anything, except that it releases more than it keeps
/// for itself.
///
/// In particular, the steps by which a task serves others do not: it has always added what it hands
/// out.
#[verifier::spinoff_prover]
#[verifier::rlimit(60)]
pub proof fn law_steps_keep_solvency(views: Seq<Memory>, base: Tally, task: int, step: Step)
    requires
        balanced(views, base),
        solvent(views, base),
        views[0].discipline is Limited,
        0 <= task < views.len(),
        views[task].may_take(step),
        views[task].affords(step),
    ensures
        balanced(stepped(views, task, views[task].after(step)), base),
        solvent(stepped(views, task, views[task].after(step)), base),
{
    let view = views[task];
    let new = view.after(step);
    let after = stepped(views, task, new);
    assert(task == 0 || views[0].shares(view));
    match step {
        Step::Swap(word) => law_swap_keeps_balance(views, base, task, word),
        Step::Link(entry, next) => law_link_keeps_balance(views, base, task, entry, next),
        Step::BackLink(entry, prev) => law_back_link_keeps_balance(views, base, task, entry, prev),
        Step::Deliver(entry, result) => law_result_keeps_balance(views, base, task, entry, result),
        Step::Create(entry, opcode, is_sync) => law_creation_keeps_balance(
            views,
            base,
            task,
            entry,
            opcode,
            is_sync,
        ),
        Step::Destroy(entry) => law_destruction_keeps_balance(views, base, task, entry),
    }
    assert(view.kept().valid() && view.spare.valid());
    assert forall|i: int| #![trigger after[i]] 0 <= i < after.len() implies after[i].kept().valid()
        && after[i].spare.valid() by {
        if i != task {
            assert(views[i].kept().valid() && views[i].spare.valid());
            assert(after[i].spare == views[i].spare);
        }
    }
}

/// However the tasks interleave, and wherever they stand in their operations, nobody owes anything
/// and what they hold adds up to what is in use, as long as each of them releases no more than it
/// keeps for itself.
pub proof fn law_runs_keep_solvency(views: Seq<Memory>, base: Tally, steps: Seq<(int, Step)>)
    requires
        balanced(views, base),
        solvent(views, base),
        views[0].discipline is Limited,
        may_run(views, steps),
        affordable(views, steps),
    ensures
        ran(views, steps).len() == views.len(),
        ran(views, steps)[0].discipline == views[0].discipline,
        balanced(ran(views, steps), base),
        solvent(ran(views, steps), base),
        honest(ran(views, steps), base),
    decreases steps.len(),
{
    if steps.len() > 0 {
        let before = ran(views, steps.drop_last());
        let (task, step) = steps.last();
        law_runs_keep_solvency(views, base, steps.drop_last());
        law_steps_keep_solvency(before, base, task, step);
        assert(task == 0 || before[0].shares(before[task]));
    }
    let after = ran(views, steps);
    assert forall|i: int| #![trigger after[i]] 0 <= i < after.len() implies after[i].holdings()
        .valid() by {
        assert(after[i].kept().valid() && after[i].spare.valid());
    }
}

/// Mutual exclusion of tasks that interleave: as long as each of them releases no more than it keeps
/// for itself, no other task holds anything at any moment at which one of them holds an exclusive
/// lock.
pub proof fn law_runs_exclude_each_other(
    views: Seq<Memory>,
    base: Tally,
    steps: Seq<(int, Step)>,
    owner: int,
    other: int,
)
    requires
        balanced(views, base),
        solvent(views, base),
        views[0].discipline is Limited,
        may_run(views, steps),
        affordable(views, steps),
        0 <= owner < views.len(),
        0 <= other < views.len(),
        owner != other,
        ran(views, steps)[owner].holdings().whole > 0,
    ensures
        ran(views, steps)[owner].holdings() == (Tally { whole: 1, parts: 0 }),
        ran(views, steps)[other].holdings() == Tally::none(),
{
    law_runs_keep_solvency(views, base, steps);
    law_mutual_exclusion(ran(views, steps), base, owner, other);
}

/// Each task holds a part of the total.
proof fn lemma_part(views: Seq<Memory>, i: int, j: int, number: int)
    requires
        0 <= number <= views.len(),
        i != j,
        forall|k: int| #![trigger views[k]] 0 <= k < views.len() ==> views[k].holdings().valid(),
    ensures
        total(views, number).valid(),
        0 <= i < number ==> {
            &&& total(views, number).whole >= views[i].holdings().whole
            &&& total(views, number).parts >= views[i].holdings().parts
        },
        0 <= j < number ==> {
            &&& total(views, number).whole >= views[j].holdings().whole
            &&& total(views, number).parts >= views[j].holdings().parts
        },
        0 <= i < number && 0 <= j < number ==> {
            &&& total(views, number).whole >= views[i].holdings().whole
                + views[j].holdings().whole
            &&& total(views, number).parts >= views[i].holdings().parts
                + views[j].holdings().parts
        },
    decreases number,
{
    if number > 0 {
        lemma_part(views, i, j, number - 1);
        assert(views[number - 1].holdings().valid());
    }
}

/// Mutual exclusion: if one of the tasks holds an exclusive lock, it holds no other lock, and
/// nobody else holds any.
pub proof fn law_mutual_exclusion(views: Seq<Memory>, base: Tally, owner: int, other: int)
    requires
        balanced(views, base),
        honest(views, base),
        0 <= owner < views.len(),
        0 <= other < views.len(),
        owner != other,
        views[owner].holdings().whole > 0,
    ensures
        views[owner].holdings() == (Tally { whole: 1, parts: 0 }),
        views[other].holdings() == Tally::none(),
{
    lemma_part(views, owner, other, views.len() as int);
    assert(views[other].holdings().valid());
    assert(views[owner].holdings().valid());
}

/// Never more shared locks are held than the limit on shared owners allows, and none while somebody
/// holds an exclusive lock.
pub proof fn law_shared_owners_are_limited(views: Seq<Memory>, base: Tally)
    requires
        balanced(views, base),
        honest(views, base),
        views[0].discipline is Limited,
        views[0].discipline->limit == 62,
    ensures
        total(views, views.len() as int).parts <= 62,
        total(views, views.len() as int).whole <= 1,
        total(views, views.len() as int).whole == 1 ==> total(
            views,
            views.len() as int,
        ).parts == 0,
{
    lemma_part(views, 0, 1, views.len() as int);
    WaitQueue::lemma_split(views[0].word);
}

/// Never more permits are held than there are.
pub proof fn law_permits_are_limited(views: Seq<Memory>, base: Tally)
    requires
        balanced(views, base),
        honest(views, base),
        views[0].discipline is Limited,
        views[0].discipline->limit == 63,
    ensures
        total(views, views.len() as int).parts + base.parts <= 63,
{
    lemma_part(views, 0, 1, views.len() as int);
    WaitQueue::lemma_split(views[0].word);
}

/// A task can release what it holds.
pub proof fn law_owner_can_release(views: Seq<Memory>, base: Tally, owner: int)
    requires
        balanced(views, base),
        honest(views, base),
        0 <= owner < views.len(),
        views[0].discipline is Limited,
        views[0].discipline->limit == 62,
    ensures
        views[owner].holdings().whole > 0 ==> Opcode::Exclusive.releasable(views[owner].data()),
        views[owner].holdings().parts > 0 ==> Opcode::Shared.releasable(views[owner].data()),
{
    lemma_part(views, owner, owner + 1, views.len() as int);
    WaitQueue::lemma_split(views[0].word);
    assert(owner == 0 || views[0].shares(views[owner]));
}

} // verus!
