//! Wait queue entries: how a waiting task and the task that serves it exchange a result.
use vstd::prelude::*;

use crate::memory::Node;
use crate::memory::Turns;
use crate::opcode::Opcode;

verus! {

/// Wakers, in the order in which they were notified.
pub type Wakers<W> = Seq<W>;

/// The part that a task plays in the exchange of a result.
pub struct Role {
    /// The task hands out the result; otherwise, it waits for the result.
    pub sender: bool,
    /// The task has handed out the result, and is the one that has to take the waker and notify it.
    pub claimed: bool,
}

/// The state of a wait queue entry as it appears to one of the two tasks that access it.
pub struct Cell<W> {
    /// Operation state.
    pub bits: u16,
    /// The waker stored in the entry.
    pub waker: Option<W>,
    /// The part that the task plays.
    pub role: Role,
    /// The waker that the task has taken out of the entry, and still has to notify.
    pub owed: Option<W>,
}

/// How the result of a wait queue entry is waited for.
#[derive(Clone, Copy, Debug, Eq, PartialEq, Structural)]
pub struct Context {
    /// The result is waited for synchronously.
    pub is_sync: bool,
    /// The entry has been pushed into the wait queue.
    pub enqueued: bool,
}

/// The outcome of polling a wait queue entry.
#[derive(Clone, Copy, Debug, Eq, PartialEq, Structural)]
pub enum Signal {
    /// The result is available, and has been acknowledged.
    Ready(u8),
    /// The waker is installed; it will be notified once the result is set.
    Registered,
    /// The waker will not be notified, so the entry has to be polled again.
    Retry,
}

impl<W> Cell<W> {
    /// The result, if it is set.
    pub open spec fn result(self) -> u8 {
        (self.bits % 256) as u8
    }

    /// The result is set.
    pub open spec fn set(self) -> bool {
        self.bits / 256 % 2 == 1
    }

    /// The waker in the entry is to be notified.
    pub open spec fn waker_set(self) -> bool {
        self.bits / 512 % 2 == 1
    }

    /// The result is finalized: the task that has handed it out is done with the entry.
    pub open spec fn finalized(self) -> bool {
        self.bits / 1024 % 2 == 1
    }

    /// The result is acknowledged.
    pub open spec fn acked(self) -> bool {
        self.bits / 2048 % 2 == 1
    }

    /// The state is consistent.
    pub open spec fn wf(self) -> bool {
        &&& self.bits < 4096
        &&& self.finalized() ==> self.set()
        &&& self.acked() ==> self.finalized()
        &&& !self.set() ==> self.result() == 0
        &&& self.waker_set() && !self.set() ==> self.waker is Some
        &&& self.role.claimed ==> self.role.sender && self.set() && self.waker_set()
            && !self.finalized() && self.waker is Some && self.owed is None
        &&& self.owed is Some ==> self.role.sender && self.set() && self.waker_set()
            && self.waker is None
    }

    /// The state is consistent, and a result that is set is finalized unless the other task will
    /// still do so.
    pub open spec fn ok(self, pending: nat) -> bool {
        &&& self.wf()
        &&& pending == 0 && !self.role.sender && self.set() ==> self.finalized()
    }

    /// The other task may turn the entry into `new`.
    pub open spec fn rely(self, new: Cell<W>) -> bool {
        &&& new.wf()
        &&& new.role == self.role
        &&& new.owed == self.owed
        &&& if self.role.sender {
            // The waiting task installs a waker as long as nobody else may access it, and
            // acknowledges a finalized result.
            &&& new.set() == self.set()
            &&& new.result() == self.result()
            &&& new.finalized() == self.finalized()
            &&& self.acked() ==> new.acked()
            &&& new.waker_set() && !self.waker_set() ==> new.waker is Some
            &&& self.set() && self.waker_set() ==> new.waker_set() && new.waker == self.waker
            &&& self.role.claimed ==> new == self
        } else {
            // The result is handed out, and a waker that was installed before that is taken.
            &&& self.set() ==> new.set() && new.result() == self.result()
            &&& self.finalized() ==> new == self
            &&& new.acked() == self.acked()
            &&& new.waker_set() == self.waker_set()
            &&& !(self.waker_set() && new.set()) ==> new.waker == self.waker
        }
    }

    /// The entry after the current task has replaced the state.
    pub open spec fn swapped(self, bits: u16) -> Cell<W> {
        let new = Cell { bits, ..self };
        Cell {
            role: Role {
                claimed: self.role.sender && (self.role.claimed || (!self.set() && new.set()
                    && new.waker_set())),
                ..self.role
            },
            ..new
        }
    }

    /// The current task may replace the state.
    pub open spec fn may_swap(self, bits: u16) -> bool {
        let new = self.swapped(bits);
        &&& new.wf()
        &&& if self.role.sender {
            &&& new.waker_set() == self.waker_set()
            &&& new.acked() == self.acked()
            &&& self.set() ==> new.set() && new.result() == self.result()
            &&& self.finalized() ==> new.finalized()
        } else {
            &&& new.set() == self.set()
            &&& new.result() == self.result()
            &&& new.finalized() == self.finalized()
            &&& self.acked() ==> new.acked()
            &&& new.waker_set() && !self.waker_set() ==> self.waker is Some
            &&& self.set() && self.waker_set() ==> new.waker_set()
        }
    }

    /// The current task may access the waker stored in the entry.
    pub open spec fn accessible(self) -> bool {
        if self.role.sender {
            self.role.claimed
        } else {
            !self.waker_set()
        }
    }

    /// The entry becomes `new` when the task that waits for the result polls it.
    ///
    /// Unless the result is finalized and acknowledged, the waker of the task is installed before
    /// the result is set, or the task has to poll again because the other task is intervening.
    pub open spec fn polls(self, new: Cell<W>, pending: nat, waker: W, signal: Signal) -> bool {
        &&& match signal {
            Signal::Ready(result) => new.acked() && new.result() == result,
            Signal::Registered => !new.set() && new.waker_set() && new.waker == Some(waker),
            Signal::Retry => pending > 0,
        }
        &&& self.finalized() ==> signal == Signal::Ready(self.result()) && new.finalized()
        &&& self.set() ==> new.set() && new.result() == self.result()
        &&& new.role == self.role
        &&& new.owed == self.owed
        &&& self.set() ==> !(signal is Registered)
        &&& !self.set() && pending == 0 ==> signal == Signal::Registered
    }

    /// The two views belong to the same entry.
    pub open spec fn paired(self, other: Cell<W>) -> bool {
        &&& self.wf()
        &&& other.wf()
        &&& self.bits == other.bits
        &&& self.waker == other.waker
        &&& self.role.sender
        &&& !other.role.sender
    }

    /// The waker of an entry is never accessed by both tasks at a time.
    pub proof fn law_waker_is_exclusive(self, other: Cell<W>)
        requires
            self.paired(other),
        ensures
            !(self.accessible() && other.accessible()),
    {
    }

    /// Whatever one of the two tasks does with an entry, the other one is prepared for it.
    pub proof fn law_steps_are_expected(self, other: Cell<W>, bits: u16, waker: W)
        requires
            self.paired(other),
        ensures
            self.may_swap(bits) ==> other.rely(Cell { bits, ..other }),
            other.may_swap(bits) ==> self.rely(Cell { bits, ..self }),
            self.accessible() ==> other.rely(Cell { waker: None, ..other }),
            other.accessible() ==> self.rely(Cell { waker: Some(waker), ..self }),
    {
        if other.may_swap(bits) && self.role.claimed {
            assert(bits == self.bits) by {
                Self::lemma_same_state(bits, self.bits);
            }
        }
        if self.may_swap(bits) && self.finalized() {
            assert(bits == self.bits) by {
                Self::lemma_same_state(bits, self.bits);
            }
        }
    }

    /// No notification is lost: if the waker was installed before the result is set, the task that
    /// sets it finds the waker, and has to notify it.
    pub proof fn law_no_notification_is_lost(self, other: Cell<W>, bits: u16)
        requires
            self.paired(other),
            other.waker_set(),
            !other.set(),
            self.may_swap(bits),
            self.swapped(bits).set(),
        ensures
            self.swapped(bits).role.claimed,
            self.swapped(bits).accessible(),
            self.swapped(bits).waker == other.waker,
            self.swapped(bits).waker is Some,
    {
    }

    /// A task that has to notify a waker takes it before the result is finalized: nobody else
    /// touches the waker until then.
    pub proof fn law_waker_is_taken_before_finalization(self, new: Cell<W>, bits: u16)
        requires
            self.wf(),
            self.role.claimed,
            self.rely(new),
        ensures
            new == self,
            new.may_swap(bits) ==> !new.swapped(bits).finalized(),
    {
    }

    /// A state is determined by its parts.
    proof fn lemma_same_state(a: u16, b: u16)
        by (bit_vector)
        requires
            a < 4096,
            b < 4096,
            a % 256 == b % 256,
            a / 256 % 2 == b / 256 % 2,
            a / 512 % 2 == b / 512 % 2,
            a / 1024 % 2 == b / 1024 % 2,
            a / 2048 % 2 == b / 2048 % 2,
        ensures
            a == b,
    {
    }

    /// The parts of a state before and after one of its flags is set or cleared.
    proof fn lemma_flags(bits: u16)
        by (bit_vector)
        ensures
            (bits & 256 == 256) == (bits / 256 % 2 == 1),
            (bits & 512 == 512) == (bits / 512 % 2 == 1),
            (bits & 1024 == 1024) == (bits / 1024 % 2 == 1),
            (bits & 2048 == 2048) == (bits / 2048 % 2 == 1),
            bits & 255 == bits % 256,
            bits / 512 % 2 == 0 ==> bits | 512 == bits + 512,
            bits / 1024 % 2 == 0 ==> bits | 1024 == bits + 1024,
            bits / 2048 % 2 == 0 ==> bits | 2048 == bits + 2048,
            bits / 512 % 2 == 1 ==> bits | 512 == bits && bits & !512u16 == bits - 512,
            bits / 1024 % 2 == 1 ==> bits | 1024 == bits,
            bits / 2048 % 2 == 1 ==> bits | 2048 == bits,
    {
    }

    /// What the other task does adds up.
    proof fn lemma_rely_transitive(self, mid: Cell<W>, new: Cell<W>)
        requires
            self.role.sender,
            self.rely(mid),
            mid.rely(new),
            !self.set(),
        ensures
            self.rely(new),
    {
    }

    /// A finalized result is acknowledged.
    proof fn lemma_ack(self)
        requires
            self.wf(),
            !self.role.sender,
            self.finalized(),
        ensures
            self.may_swap(self.bits | 2048),
            self.swapped(self.bits | 2048).acked(),
            self.swapped(self.bits | 2048).finalized(),
            self.swapped(self.bits | 2048).result() == self.result(),
            self.swapped(self.bits | 2048).waker_set() == self.waker_set(),
            self.swapped(self.bits | 2048).role == self.role,
    {
        Self::lemma_flags(self.bits);
    }

    /// The state after the result has been set.
    proof fn lemma_set(bits: u16, result: u8)
        by (bit_vector)
        requires
            bits / 256 % 2 == 0,
            bits % 256 == 0,
        ensures
            (bits | 256) | (result as u16) == bits + 256 + result,
    {
    }
}

/// Gives one task access to a wait queue entry that it shares with another task.
///
/// The other task may intervene before each access to the operation state, in any way that
/// [`Cell::rely`] describes; [`EntryCell::pending`] bounds how often it still does.
pub trait EntryCell: Sized {
    /// Identifies a task that can be notified.
    type Waker;

    /// The entry as the task sees it.
    spec fn cell(&self) -> Cell<Self::Waker>;

    /// The number of times the other task may still intervene.
    spec fn pending(&self) -> Turns;

    /// The wakers that the task has notified so far.
    spec fn notified(&self) -> Wakers<Self::Waker>;

    /// How the result is waited for.
    spec fn context(&self) -> Context;

    /// Returns `true` if the result is waited for synchronously.
    fn is_sync(&self) -> (r: bool)
        ensures
            r == self.context().is_sync,
    ;

    /// Returns `true` if the entry has been pushed into the wait queue.
    fn is_enqueued(&self) -> (r: bool)
        ensures
            r == self.context().enqueued,
    ;

    /// Reads the operation state.
    fn load(&mut self) -> (r: u16)
        requires
            old(self).cell().ok(old(self).pending()),
        ensures
            final(self).cell().ok(final(self).pending()),
            final(self).context() == old(self).context(),
            r == final(self).cell().bits,
            old(self).cell().rely(final(self).cell()),
            final(self).cell() != old(self).cell() ==> final(self).pending() < old(self).pending(),
            final(self).pending() <= old(self).pending(),
            final(self).notified() == old(self).notified(),
    ;

    /// Replaces the operation state with `new` if it is `current`.
    ///
    /// It may fail even if the state is `current`.
    fn compare_exchange_weak(&mut self, current: u16, new: u16) -> (r: Result<u16, u16>)
        requires
            old(self).cell().ok(old(self).pending()),
            forall|mid: Cell<Self::Waker>| #[trigger]
                old(self).cell().rely(mid) && mid.bits == current ==> mid.may_swap(new),
        ensures
            final(self).cell().ok(final(self).pending()),
            final(self).context() == old(self).context(),
            r matches Ok(bits) ==> {
                let mid = Cell {
                    bits: current,
                    waker: final(self).cell().waker,
                    ..old(self).cell()
                };
                &&& bits == current
                &&& old(self).cell().rely(mid)
                &&& final(self).cell() == mid.swapped(new)
                &&& mid != old(self).cell() ==> final(self).pending() < old(self).pending()
            },
            r matches Err(bits) ==> {
                &&& bits == final(self).cell().bits
                &&& old(self).cell().rely(final(self).cell())
                &&& bits == current || final(self).cell() != old(self).cell()
                    ==> final(self).pending() < old(self).pending()
            },
            final(self).pending() <= old(self).pending(),
            final(self).notified() == old(self).notified(),
    ;

    /// Sets flags in the operation state, and returns the previous state.
    fn fetch_or(&mut self, flags: u16) -> (r: u16)
        requires
            old(self).cell().ok(old(self).pending()),
            forall|mid: Cell<Self::Waker>| #[trigger]
                old(self).cell().rely(mid) ==> mid.may_swap(mid.bits | flags),
        ensures
            final(self).cell().ok(final(self).pending()),
            final(self).context() == old(self).context(),
            ({
                let mid = Cell {
                    bits: r,
                    waker: final(self).cell().waker,
                    ..old(self).cell()
                };
                &&& old(self).cell().rely(mid)
                &&& final(self).cell() == mid.swapped(r | flags)
                &&& mid != old(self).cell() ==> final(self).pending() < old(self).pending()
            }),
            final(self).pending() <= old(self).pending(),
            final(self).notified() == old(self).notified(),
    ;

    /// Stores a waker in the entry.
    fn put_waker(&mut self, waker: Self::Waker)
        requires
            old(self).cell().ok(old(self).pending()),
            !old(self).cell().role.sender,
            old(self).cell().accessible(),
        ensures
            final(self).cell().ok(final(self).pending()),
            final(self).context() == old(self).context(),
            final(self).cell() == (Cell { waker: Some(waker), ..old(self).cell() }),
            final(self).pending() == old(self).pending(),
            final(self).notified() == old(self).notified(),
    ;

    /// Takes the waker out of the entry.
    fn take_waker(&mut self) -> (r: Option<Self::Waker>)
        requires
            old(self).cell().ok(old(self).pending()),
            old(self).cell().role.sender,
            old(self).cell().accessible(),
        ensures
            final(self).cell().ok(final(self).pending()),
            final(self).context() == old(self).context(),
            r == old(self).cell().waker,
            r is Some,
            final(self).cell() == (Cell {
                waker: None,
                role: Role { claimed: false, ..old(self).cell().role },
                owed: r,
                ..old(self).cell()
            }),
            final(self).pending() == old(self).pending(),
            final(self).notified() == old(self).notified(),
    ;

    /// Notifies a waker that was taken out of the entry.
    ///
    /// The result has to be finalized, since the notified task may destroy the entry.
    fn wake(&mut self, waker: Self::Waker)
        requires
            old(self).cell().ok(old(self).pending()),
            old(self).cell().finalized(),
            old(self).cell().owed == Some(waker),
        ensures
            final(self).cell().ok(final(self).pending()),
            final(self).cell() == (Cell { owed: None, ..old(self).cell() }),
            final(self).context() == old(self).context(),
            final(self).pending() == old(self).pending(),
            final(self).notified() == old(self).notified().push(waker),
    ;

    /// Lets the other task run.
    fn yield_now(&mut self)
        requires
            old(self).cell().ok(old(self).pending()),
        ensures
            final(self).cell().ok(final(self).pending()),
            final(self).context() == old(self).context(),
            old(self).cell().rely(final(self).cell()),
            old(self).pending() > 0 ==> final(self).pending() < old(self).pending(),
            old(self).pending() == 0 ==> final(self).cell() == old(self).cell()
                && final(self).pending() == 0,
            final(self).notified() == old(self).notified(),
    ;

    /// Sets the result to the entry unless it is finalized yet, and returns the new state.
    fn publish_result(&mut self, result: u8) -> (r: u16)
        requires
            old(self).cell().ok(old(self).pending()),
            old(self).cell().role.sender,
            !old(self).cell().set(),
        ensures
            final(self).cell().ok(final(self).pending()),
            final(self).context() == old(self).context(),
            final(self).cell().set(),
            !final(self).cell().finalized(),
            final(self).cell().result() == result,
            final(self).cell().role == (Role {
                claimed: r / 512 % 2 == 1,
                ..old(self).cell().role
            }),
            r == final(self).cell().bits,
            final(self).cell().role.claimed ==> final(self).cell().waker is Some,
            final(self).cell().owed is None,
            exists|mid: Cell<Self::Waker>| #[trigger]
                old(self).cell().rely(mid) && r == mid.bits + 256 + result && mid.waker
                    == final(self).cell().waker,
            final(self).pending() <= old(self).pending(),
            final(self).pending() == old(self).pending() ==> {
                &&& r == old(self).cell().bits + 256 + result
                &&& final(self).cell().waker == old(self).cell().waker
            },
            final(self).notified() == old(self).notified(),
    {
        let ghost first = self.cell();
        let mut bits: u16 = self.load();
        loop
            invariant
                self.cell().ok(self.pending()),
                self.context() == old(self).context(),
                first == old(self).cell(),
                first.rely(self.cell()),
                first.wf(),
                self.cell().role.sender,
                self.cell().role == old(self).cell().role,
                !self.cell().set(),
                bits == self.cell().bits,
                self.pending() <= old(self).pending(),
                self.pending() == old(self).pending() ==> self.cell() == old(self).cell(),
                self.notified() == old(self).notified(),
            decreases self.pending(),
        {
            // Once the result is set, a waker cannot be set.
            let next_state: u16 = (bits | Entry::RESULT_SET) | result as u16;
            let ghost now = self.cell();
            proof {
                Cell::<Self::Waker>::lemma_set(bits, result);
                assert forall|mid: Cell<Self::Waker>| #[trigger]
                    self.cell().rely(mid) && mid.bits == bits implies mid.may_swap(next_state) by {
                    assert(next_state == mid.bits + 256 + result);
                }
            }
            match self.compare_exchange_weak(bits, next_state) {
                Ok(_) => {
                    proof {
                        let mid = Cell { bits, waker: self.cell().waker, ..now };
                        first.lemma_rely_transitive(now, mid);
                    }
                    return next_state;
                },
                Err(new_state) => {
                    proof {
                        first.lemma_rely_transitive(now, self.cell());
                    }
                    bits = new_state;
                },
            }
        }
    }

    /// Sets the result to the entry.
    ///
    /// Returns `true` if a waker had been installed before; it has been notified then. Otherwise,
    /// the task that waits for the result will find the result set when it installs its waker.
    ///
    /// The waker that is notified is the one that stood in the entry when the result was set, after
    /// the other task may have replaced it.
    fn set_result(&mut self, result: u8) -> (r: bool)
        requires
            old(self).cell().ok(old(self).pending()),
            old(self).cell().role.sender,
            !old(self).cell().set(),
        ensures
            final(self).cell().ok(final(self).pending()),
            final(self).context() == old(self).context(),
            final(self).cell().finalized(),
            final(self).cell().result() == result,
            final(self).cell().role == old(self).cell().role,
            !final(self).cell().role.claimed,
            final(self).cell().owed is None,
            r ==> {
                &&& final(self).notified().len() == old(self).notified().len() + 1
                &&& final(self).notified().drop_last() == old(self).notified()
                &&& final(self).cell().waker_set()
                &&& final(self).cell().waker is None
            },
            !r ==> {
                &&& final(self).notified() == old(self).notified()
                &&& final(self).cell().waker_set() ==> final(self).cell().waker is Some
            },
            exists|mid: Cell<Self::Waker>| #[trigger]
                old(self).cell().rely(mid) && r == mid.waker_set() && (r ==> mid.waker == Some(
                    final(self).notified().last(),
                )),
            final(self).pending() <= old(self).pending(),
            final(self).pending() == old(self).pending() ==> {
                &&& r == old(self).cell().waker_set()
                &&& final(self).cell().bits == old(self).cell().bits + 256 + result + 1024
                &&& r ==> final(self).notified().last() == old(self).cell().waker->0
                &&& !r ==> final(self).cell().waker == old(self).cell().waker
            },
    {
        let bits: u16 = self.publish_result(result);
        proof {
            let mid = choose|mid: Cell<Self::Waker>| #[trigger]
                old(self).cell().rely(mid) && bits == mid.bits + 256 + result && mid.waker
                    == self.cell().waker;
            assert(mid.bits % 256 == 0 && mid.bits / 256 % 2 == 0);
            assert(mid.waker_set() == (bits / 512 % 2 == 1));
            Cell::<Self::Waker>::lemma_flags(bits);
            assert forall|c: Cell<Self::Waker>, mid: Cell<Self::Waker>| #[trigger]
                c.rely(mid) && c.wf() && c.role.sender && !c.role.claimed && c.set()
                && !c.finalized() implies mid.may_swap(mid.bits | 1024) && mid.bits | 1024 == mid.bits
                + 1024 by {
                Cell::<Self::Waker>::lemma_flags(mid.bits);
            }
        }
        if bits & Entry::WAKER_SET == Entry::WAKER_SET {
            // A waker had been set before the result was set.
            if let Some(waker) = self.take_waker() {
                self.fetch_or(Entry::RESULT_FINALIZED);
                self.wake(waker);
                return true;
            }
        }
        self.fetch_or(Entry::RESULT_FINALIZED);
        false
    }

    /// Tries to get the result and acknowledges it.
    fn try_acknowledge_result(&mut self) -> (r: Option<u8>)
        requires
            old(self).cell().ok(old(self).pending()),
            !old(self).cell().role.sender,
        ensures
            final(self).cell().ok(final(self).pending()),
            final(self).context() == old(self).context(),
            final(self).cell().role == old(self).cell().role,
            final(self).cell().waker_set() == old(self).cell().waker_set(),
            old(self).cell().set() ==> final(self).cell().set() && final(self).cell().result()
                == old(self).cell().result(),
            r matches Some(result) ==> {
                &&& final(self).cell().finalized()
                &&& final(self).cell().acked()
                &&& final(self).cell().result() == result
            },
            r is None ==> old(self).cell().rely(final(self).cell()),
            r is None ==> !final(self).cell().finalized(),
            old(self).cell().finalized() ==> final(self).cell().waker == old(self).cell().waker,
            old(self).cell().finalized() ==> r == Some(old(self).cell().result()),
            final(self).pending() <= old(self).pending(),
            final(self).pending() == old(self).pending() ==> {
                &&& r is Some == old(self).cell().finalized()
                &&& r is None ==> final(self).cell() == old(self).cell()
            },
            final(self).notified() == old(self).notified(),
    {
        let bits: u16 = self.load();
        proof {
            Cell::<Self::Waker>::lemma_flags(bits);
        }
        if bits & Entry::RESULT_FINALIZED == Entry::RESULT_FINALIZED {
            let ghost loaded = self.cell();
            proof {
                loaded.lemma_ack();
                assert forall|mid: Cell<Self::Waker>| #[trigger] loaded.rely(mid) implies mid
                    == loaded by {}
            }
            self.fetch_or(Entry::RESULT_ACKED);
            return Some((bits & 255) as u8);
        }
        None
    }

    /// Gets the result and acknowledges it once it is finalized.
    fn acknowledge_result_sync(&mut self) -> (r: u8)
        requires
            old(self).cell().ok(old(self).pending()),
            !old(self).cell().role.sender,
            old(self).cell().set(),
        ensures
            final(self).cell().ok(final(self).pending()),
            final(self).context() == old(self).context(),
            final(self).cell().acked(),
            r == old(self).cell().result(),
            r == final(self).cell().result(),
            final(self).notified() == old(self).notified(),
    {
        loop
            invariant
                self.cell().ok(self.pending()),
                self.context() == old(self).context(),
                !self.cell().role.sender,
                self.cell().set(),
                self.cell().result() == old(self).cell().result(),
                self.notified() == old(self).notified(),
            decreases self.pending(),
        {
            if let Some(result) = self.try_acknowledge_result() {
                return result;
            }
            self.yield_now();
        }
    }

    /// Polls the result, and installs the waker if the result is not available yet.
    fn poll_result(&mut self, waker: Self::Waker) -> (r: Signal)
        requires
            old(self).cell().ok(old(self).pending()),
            !old(self).cell().role.sender,
        ensures
            final(self).cell().ok(final(self).pending()),
            final(self).context() == old(self).context(),
            final(self).cell().role == old(self).cell().role,
            old(self).cell().polls(final(self).cell(), old(self).pending(), waker, r),
            final(self).pending() <= old(self).pending(),
            final(self).notified() == old(self).notified(),
    {
        if let Some(result) = self.try_acknowledge_result() {
            return Signal::Ready(result);
        }
        let mut installable: bool = false;
        let bits: u16 = self.load();
        proof {
            Cell::<Self::Waker>::lemma_flags(bits);
        }
        if bits & Entry::RESULT_SET == Entry::RESULT_SET {
            // No need to install the waker.
            if let Some(result) = self.try_acknowledge_result() {
                return Signal::Ready(result);
            }
        } else if bits & Entry::WAKER_SET == Entry::WAKER_SET {
            // Replace the waker by clearing the flag first.
            let next_state: u16 = bits & !Entry::WAKER_SET;
            if self.compare_exchange_weak(bits, next_state).is_ok() {
                installable = true;
            }
        } else {
            installable = true;
        }

        if installable {
            self.put_waker(waker);
            let ghost ready = self.cell();
            proof {
                assert forall|mid: Cell<Self::Waker>| #[trigger]
                    ready.rely(mid) implies mid.may_swap(
                    mid.bits | 512,
                ) && mid.bits | 512 == mid.bits + 512 by {
                    Cell::<Self::Waker>::lemma_flags(mid.bits);
                }
            }
            let previous: u16 = self.fetch_or(Entry::WAKER_SET);
            proof {
                Cell::<Self::Waker>::lemma_flags(previous);
            }
            if previous & Entry::RESULT_SET == Entry::RESULT_SET {
                // The result has been set, so the waker will not be notified.
                Signal::Retry
            } else {
                Signal::Registered
            }
        } else {
            // The waker is not set, so the task has to come back.
            Signal::Retry
        }
    }

    /// Polls the result, asynchronously.
    fn poll_result_async(&mut self, waker: Self::Waker) -> (r: Signal)
        requires
            old(self).cell().ok(old(self).pending()),
            !old(self).cell().role.sender,
        ensures
            final(self).cell().ok(final(self).pending()),
            final(self).context() == old(self).context(),
            old(self).context().is_sync ==> {
                &&& r == Signal::Ready(Entry::ERROR_WRONG_MODE)
                &&& *final(self) == *old(self)
            },
            !old(self).context().is_sync ==> old(self).cell().polls(
                final(self).cell(),
                old(self).pending(),
                waker,
                r,
            ),
            final(self).pending() <= old(self).pending(),
            final(self).notified() == old(self).notified(),
    {
        if self.is_sync() {
            return Signal::Ready(Entry::ERROR_WRONG_MODE);
        }
        self.poll_result(waker)
    }

    /// Polls the result once, synchronously.
    ///
    /// The calling thread has to be parked if it is registered.
    fn poll_result_sync(&mut self, waker: Self::Waker) -> (r: Signal)
        requires
            old(self).cell().ok(old(self).pending()),
            !old(self).cell().role.sender,
        ensures
            final(self).cell().ok(final(self).pending()),
            final(self).context() == old(self).context(),
            !old(self).context().is_sync ==> {
                &&& r == Signal::Ready(Entry::ERROR_WRONG_MODE)
                &&& *final(self) == *old(self)
            },
            old(self).context().is_sync ==> old(self).cell().polls(
                final(self).cell(),
                old(self).pending(),
                waker,
                r,
            ),
            final(self).pending() <= old(self).pending(),
            final(self).notified() == old(self).notified(),
    {
        if !self.is_sync() {
            return Signal::Ready(Entry::ERROR_WRONG_MODE);
        }
        self.poll_result(waker)
    }

    /// Returns `true` if the result has been finalized.
    fn result_finalized(&mut self) -> (r: bool)
        requires
            old(self).cell().ok(old(self).pending()),
        ensures
            final(self).cell().ok(final(self).pending()),
            final(self).context() == old(self).context(),
            r == final(self).cell().finalized(),
            old(self).cell().rely(final(self).cell()),
            final(self).cell() != old(self).cell() ==> final(self).pending() < old(self).pending(),
            final(self).pending() <= old(self).pending(),
            final(self).notified() == old(self).notified(),
    {
        let bits: u16 = self.load();
        proof {
            Cell::<Self::Waker>::lemma_flags(bits);
        }
        bits & Entry::RESULT_FINALIZED == Entry::RESULT_FINALIZED
    }

    /// Checks if the entry has to be cleaned up before it is dropped.
    ///
    /// The wait queue entry was enqueued or had a result set but was not acknowledged: the owner
    /// will acquire the resource or has already acquired it without knowing it, therefore the
    /// resource needs to be released.
    fn prepare_drop(&mut self) -> (r: bool)
        requires
            old(self).cell().ok(old(self).pending()),
            !old(self).cell().role.sender,
        ensures
            final(self).cell().ok(final(self).pending()),
            final(self).context() == old(self).context(),
            old(self).cell().rely(final(self).cell()),
            r ==> !final(self).cell().acked(),
            !r && !final(self).cell().acked() ==> !final(self).cell().set(),
            old(self).pending() == 0 ==> r == ((old(self).context().enqueued || old(self).cell().set())
                && !old(self).cell().acked()),
            final(self).pending() <= old(self).pending(),
            final(self).notified() == old(self).notified(),
    {
        let enqueued: bool = self.is_enqueued();
        let bits: u16 = self.load();
        proof {
            Cell::<Self::Waker>::lemma_flags(bits);
        }
        (enqueued || bits & Entry::RESULT_SET == Entry::RESULT_SET) && bits & Entry::RESULT_ACKED
            != Entry::RESULT_ACKED
    }
}

/// Wait queue entry.
#[derive(Clone, Copy)]
pub struct Entry {
    /// The entry that was pushed right before this entry.
    next: usize,
    /// The entry that was pushed right after this entry.
    prev: usize,
    /// Operation type.
    opcode: Opcode,
    /// Monitors the result.
    monitor: Monitor,
}

/// Monitors the result.
#[derive(Clone, Copy)]
pub struct Monitor {
    /// Operation state.
    bits: u16,
    /// Identifies the task to notify.
    waker: Option<u64>,
    /// Identifies the task that was notified last.
    woken: Option<u64>,
    /// How the result is waited for.
    context: Context,
    /// The part that the task accessing the entry plays.
    role: Ghost<Role>,
    /// The task that still has to be notified.
    owed: Ghost<Option<u64>>,
    /// The tasks that were notified.
    notified: Ghost<Seq<u64>>,
}

impl Monitor {
    /// The operation state is consistent.
    #[verifier::type_invariant]
    pub closed spec fn inv(self) -> bool {
        &&& EntryCell::cell(&self).ok(0)
        &&& self.woken == (if self.notified@.len() == 0 {
            None
        } else {
            Some(self.notified@.last())
        })
    }

    /// Creates a new monitor.
    pub fn new(is_sync: bool) -> (r: Self)
        ensures
            !r.cell().set(),
            !r.cell().waker_set(),
            r.cell().waker is None,
            !r.cell().role.sender,
            r.context() == (Context { is_sync, enqueued: false }),
            r.notified() == Seq::<u64>::empty(),
    {
        Monitor {
            bits: 0,
            waker: None,
            woken: None,
            context: Context { is_sync, enqueued: false },
            role: Ghost(Role { sender: false, claimed: false }),
            owed: Ghost(None),
            notified: Ghost(Seq::empty()),
        }
    }

    /// The wait queue entry has been enqueued.
    pub fn enqueued(&mut self)
        ensures
            final(self).cell() == old(self).cell(),
            final(self).notified() == old(self).notified(),
            final(self).context() == (Context { enqueued: true, ..old(self).context() }),
    {
        proof {
            use_type_invariant(&*self);
        }
        self.context = Context { is_sync: self.context.is_sync, enqueued: true };
    }

    /// Sets the result, and returns the task that was notified.
    pub fn deliver(&mut self, result: u8) -> (r: Option<u64>)
        requires
            !old(self).cell().set(),
        ensures
            !final(self).cell().role.sender,
            final(self).cell().finalized(),
            final(self).cell().acked() == old(self).cell().acked(),
            final(self).cell().result() == result,
            final(self).context() == old(self).context(),
            r == (if old(self).cell().waker_set() {
                old(self).cell().waker
            } else {
                None
            }),
            final(self).notified() == (match r {
                Some(task) => old(self).notified().push(task),
                None => old(self).notified(),
            }),
    {
        proof {
            use_type_invariant(&*self);
        }
        self.role = Ghost(Role { sender: true, claimed: false });
        let notified: bool = self.set_result(result);
        proof {
            use_type_invariant(&*self);
        }
        self.role = Ghost(Role { sender: false, claimed: false });
        if notified {
            self.woken
        } else {
            None
        }
    }
}

impl EntryCell for Monitor {
    type Waker = u64;

    closed spec fn cell(&self) -> Cell<u64> {
        Cell { bits: self.bits, waker: self.waker, role: self.role@, owed: self.owed@ }
    }

    open spec fn pending(&self) -> nat {
        0
    }

    closed spec fn notified(&self) -> Seq<u64> {
        self.notified@
    }

    closed spec fn context(&self) -> Context {
        self.context
    }

    fn is_sync(&self) -> (r: bool) {
        self.context.is_sync
    }

    fn is_enqueued(&self) -> (r: bool) {
        self.context.enqueued
    }

    fn load(&mut self) -> (r: u16) {
        self.bits
    }

    fn compare_exchange_weak(&mut self, current: u16, new: u16) -> (r: Result<u16, u16>) {
        proof {
            use_type_invariant(&*self);
        }
        if self.bits == current {
            let ghost swapped = self.cell().swapped(new);
            proof {
                assert(self.cell().rely(self.cell()));
            }
            *self = Monitor { bits: new, role: Ghost(swapped.role), ..*self };
            Ok(current)
        } else {
            Err(self.bits)
        }
    }

    fn fetch_or(&mut self, flags: u16) -> (r: u16) {
        proof {
            use_type_invariant(&*self);
        }
        let previous: u16 = self.bits;
        let ghost swapped = self.cell().swapped(previous | flags);
        proof {
            assert(self.cell().rely(self.cell()));
        }
        *self = Monitor { bits: previous | flags, role: Ghost(swapped.role), ..*self };
        previous
    }

    fn put_waker(&mut self, waker: u64) {
        proof {
            use_type_invariant(&*self);
        }
        self.waker = Some(waker);
    }

    fn take_waker(&mut self) -> (r: Option<u64>) {
        proof {
            use_type_invariant(&*self);
        }
        let waker: Option<u64> = self.waker;
        *self = Monitor {
            waker: None,
            role: Ghost(Role { claimed: false, ..self.role@ }),
            owed: Ghost(waker),
            ..*self
        };
        waker
    }

    fn wake(&mut self, waker: u64) {
        proof {
            use_type_invariant(&*self);
        }
        *self = Monitor {
            woken: Some(waker),
            owed: Ghost(None),
            notified: Ghost(self.notified@.push(waker)),
            ..*self
        };
    }

    fn yield_now(&mut self) {
    }
}

impl Entry {
    /// A method is used in the wrong mode.
    pub const ERROR_WRONG_MODE: u8 = 255;

    /// Indicates that a result is set.
    pub const RESULT_SET: u16 = 256;

    /// Indicates that a waker is set.
    pub const WAKER_SET: u16 = 512;

    /// Indicates that a result is finalized.
    pub const RESULT_FINALIZED: u16 = 1024;

    /// Indicates that a result is acknowledged.
    pub const RESULT_ACKED: u16 = 2048;

    /// The entry is accessed by the task that waits for the result.
    #[verifier::type_invariant]
    pub closed spec fn inv(self) -> bool {
        &&& !self.monitor.cell().role.sender
        &&& !self.monitor.cell().set() ==> self.monitor.notified().len() == 0
    }

    /// The links, the operation type, and the result of the entry.
    pub closed spec fn node(self) -> Node {
        Node {
            next: self.next,
            prev: self.prev,
            opcode: self.opcode,
            is_sync: self.monitor.context().is_sync,
            result: if self.monitor.cell().set() {
                Some(self.monitor.cell().result())
            } else {
                None
            },
        }
    }

    /// The result has been acknowledged.
    pub closed spec fn acked(self) -> bool {
        self.monitor.cell().acked()
    }

    /// The task that will be notified once the result is set, or has been notified then.
    pub closed spec fn waiter(self) -> Option<u64> {
        if self.monitor.cell().set() {
            if self.monitor.notified().len() > 0 {
                Some(self.monitor.notified().last())
            } else {
                None
            }
        } else if self.monitor.cell().waker_set() {
            self.monitor.cell().waker
        } else {
            None
        }
    }

    /// How the result is waited for.
    pub closed spec fn context(self) -> Context {
        self.monitor.context()
    }

    /// Creates a new entry.
    pub fn new(opcode: Opcode, is_sync: bool) -> (r: Self)
        ensures
            r.node() == (Node { next: 0, prev: 0, opcode, is_sync, result: None }),
            !r.acked(),
            r.waiter() is None,
            r.context() == (Context { is_sync, enqueued: false }),
    {
        let monitor = Monitor::new(is_sync);
        proof {
            use_type_invariant(&monitor);
        }
        Entry { next: 0, prev: 0, opcode, monitor }
    }

    /// Returns the entry that was pushed right before this entry.
    pub fn next_entry(&self) -> (r: usize)
        ensures
            r == self.node().next,
    {
        self.next
    }

    /// Returns the entry that was pushed right after this entry.
    pub fn prev_entry(&self) -> (r: usize)
        ensures
            r == self.node().prev,
    {
        self.prev
    }

    /// Returns the operation code.
    pub fn opcode(&self) -> (r: Opcode)
        ensures
            r == self.node().opcode,
    {
        self.opcode
    }

    /// Updates the link to the entry that was pushed right before this entry.
    pub fn update_next_entry(&mut self, next: usize)
        ensures
            final(self).node() == (Node { next, ..old(self).node() }),
            final(self).acked() == old(self).acked(),
            final(self).waiter() == old(self).waiter(),
            final(self).context() == old(self).context(),
    {
        proof {
            use_type_invariant(&*self);
        }
        self.next = next;
    }

    /// Updates the link to the entry that was pushed right after this entry.
    pub fn update_prev_entry(&mut self, prev: usize)
        ensures
            final(self).node() == (Node { prev, ..old(self).node() }),
            final(self).acked() == old(self).acked(),
            final(self).waiter() == old(self).waiter(),
            final(self).context() == old(self).context(),
    {
        proof {
            use_type_invariant(&*self);
        }
        self.prev = prev;
    }

    /// The wait queue entry has been enqueued.
    pub fn enqueued(&mut self)
        ensures
            final(self).node() == old(self).node(),
            final(self).acked() == old(self).acked(),
            final(self).waiter() == old(self).waiter(),
            final(self).context() == (Context { enqueued: true, ..old(self).context() }),
    {
        proof {
            use_type_invariant(&*self);
        }
        let mut monitor = self.monitor;
        monitor.enqueued();
        self.monitor = monitor;
    }

    /// Returns `true` if the result is waited for synchronously.
    pub fn is_sync(&self) -> (r: bool)
        ensures
            r == self.node().is_sync,
    {
        self.monitor.is_sync()
    }

    /// Sets the result to the entry, and returns the task that has to be resumed.
    pub fn set_result(&mut self, result: u8) -> (r: Option<u64>)
        requires
            old(self).node().result is None,
        ensures
            final(self).node() == (Node { result: Some(result), ..old(self).node() }),
            final(self).acked() == old(self).acked(),
            final(self).context() == old(self).context(),
            final(self).waiter() == old(self).waiter(),
            r == old(self).waiter(),
    {
        proof {
            use_type_invariant(&*self);
        }
        let mut monitor = self.monitor;
        let woken: Option<u64> = monitor.deliver(result);
        proof {
            use_type_invariant(&monitor);
        }
        self.monitor = monitor;
        woken
    }

    /// Tries to get the result and acknowledges it.
    pub fn try_acknowledge_result(&mut self) -> (r: Option<u8>)
        ensures
            r == old(self).node().result,
            final(self).node() == old(self).node(),
            final(self).acked() == (old(self).node().result is Some),
            final(self).waiter() == old(self).waiter(),
            final(self).context() == old(self).context(),
    {
        proof {
            use_type_invariant(&*self);
        }
        let mut monitor = self.monitor;
        proof {
            use_type_invariant(&monitor);
        }
        let result: Option<u8> = monitor.try_acknowledge_result();
        proof {
            use_type_invariant(&monitor);
        }
        self.monitor = monitor;
        result
    }

    /// Polls the result, asynchronously.
    pub fn poll_result_async(&mut self, waker: u64) -> (r: Signal)
        ensures
            old(self).node().is_sync ==> r == Signal::Ready(Self::ERROR_WRONG_MODE)
                && *final(self) == *old(self),
            !old(self).node().is_sync ==> old(self).polls(*final(self), waker, r),
    {
        proof {
            use_type_invariant(&*self);
        }
        let mut monitor = self.monitor;
        proof {
            use_type_invariant(&monitor);
        }
        let signal: Signal = monitor.poll_result_async(waker);
        proof {
            use_type_invariant(&monitor);
        }
        self.monitor = monitor;
        signal
    }

    /// Polls the result once, synchronously.
    pub fn poll_result_sync(&mut self, waker: u64) -> (r: Signal)
        ensures
            !old(self).node().is_sync ==> r == Signal::Ready(Self::ERROR_WRONG_MODE)
                && *final(self) == *old(self),
            old(self).node().is_sync ==> old(self).polls(*final(self), waker, r),
    {
        proof {
            use_type_invariant(&*self);
        }
        let mut monitor = self.monitor;
        proof {
            use_type_invariant(&monitor);
        }
        let signal: Signal = monitor.poll_result_sync(waker);
        proof {
            use_type_invariant(&monitor);
        }
        self.monitor = monitor;
        signal
    }

    /// Checks if the entry has to be cleaned up before it is dropped.
    pub fn prepare_drop(&self) -> (r: bool)
        ensures
            r == ((self.context().enqueued || self.node().result is Some) && !self.acked()),
    {
        proof {
            use_type_invariant(self);
        }
        let mut monitor = self.monitor;
        proof {
            use_type_invariant(&monitor);
        }
        monitor.prepare_drop()
    }

    /// The entry becomes `new` when it is polled: the result is acknowledged if there is one, and
    /// the waker is installed otherwise.
    pub open spec fn polls(self, new: Self, waker: u64, signal: Signal) -> bool {
        &&& new.node() == self.node()
        &&& new.context() == self.context()
        &&& match self.node().result {
            Some(result) => {
                &&& signal == Signal::Ready(result)
                &&& new.acked()
                &&& new.waiter() == self.waiter()
            },
            None => {
                &&& signal == Signal::Registered
                &&& new.acked() == self.acked()
                &&& new.waiter() == Some(waker)
            },
        }
    }
}

} // verus!
