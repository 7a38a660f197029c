//! [`Gate`] is a synchronization primitive that blocks tasks to enter a critical section until they
//! are allowed to do so.
use std::sync::atomic::Ordering;

use vstd::prelude::*;

use crate::arena::Arena;
use crate::arena::Policy;
use crate::memory::Entries;
use crate::memory::Memory;
use crate::memory::Room;
use crate::memory::Tally;
use crate::opcode::Opcode;
use crate::pager;
use crate::pager::PagerHost;
use crate::pager::SyncResult;
use crate::sync_primitive::SyncPrimitive;
use crate::wait_queue::WaitQueue;

verus! {

/// [`Gate`] is a synchronization primitive that blocks tasks to enter a critical section until they
/// are allowed to do so.
pub struct Gate<S: SyncPrimitive = Arena> {
    /// [`Gate`] state.
    pub primitive: S,
}

/// Tasks holding a [`Pager`] can remotely get a permit to enter the [`Gate`].
///
/// It differs from [`pager::Pager`] in that it gives up waiting if it is polled asynchronously
/// although it was registered to be polled synchronously.
#[derive(Clone, Copy, Debug, Eq, PartialEq, Structural)]
pub struct Pager {
    /// The [`Pager`] as any synchronization primitive knows it.
    pager: pager::Pager,
}

/// The state of a [`Gate`].
///
/// [`Gate`] can be in one of three states.
///
/// * `Controlled` - The default state where tasks can enter the [`Gate`] if permitted.
/// * `Sealed` - The [`Gate`] is sealed and tasks immediately get rejected to enter it.
/// * `Open` - The [`Gate`] is open and tasks can immediately enter it.
#[derive(Clone, Copy, Debug, Eq, Ord, PartialEq, PartialOrd, Structural)]
pub enum State {
    /// The default state where tasks can enter the [`Gate`] if permitted.
    Controlled,
    /// The [`Gate`] is sealed and tasks immediately get rejected when they attempt to enter it.
    Sealed,
    /// The [`Gate`] is open and tasks can immediately enter it.
    Open,
}

/// Errors raised when accessing a [`Gate`].
#[derive(Clone, Copy, Debug, Eq, Ord, PartialEq, PartialOrd, Structural)]
pub enum Error {
    /// The [`Gate`] rejected the task.
    Rejected,
    /// The [`Gate`] has been sealed.
    Sealed,
    /// Spurious failure to enter a [`Gate`] in a [`Controlled`](State::Controlled) state.
    ///
    /// This can happen if a task holding a [`Pager`] gets cancelled or drops the [`Pager`] before
    /// the [`Gate`] has permitted or rejected the task; the task causes all the other waiting tasks
    /// of the [`Gate`] to get this error.
    SpuriousFailure,
    /// The [`Pager`] is not registered in any [`Gate`].
    NotRegistered,
    /// The wrong asynchronous/synchronous mode was used in a [`Pager`].
    WrongMode,
    /// Unknown error.
    Unknown,
    /// The result is not ready.
    NotReady,
}

impl State {
    /// The value that stands for the state.
    pub open spec fn value(self) -> u8 {
        match self {
            State::Controlled => 0,
            State::Sealed => 1,
            State::Open => 2,
        }
    }

    /// The state that a value stands for.
    pub open spec fn of(value: int) -> State {
        if value == 0 {
            State::Controlled
        } else if value == 1 {
            State::Sealed
        } else {
            State::Open
        }
    }
}

impl Error {
    /// The value that stands for the error.
    pub open spec fn value(self) -> u8 {
        match self {
            Error::Rejected => 4,
            Error::Sealed => 8,
            Error::SpuriousFailure => 12,
            Error::NotRegistered => 16,
            Error::WrongMode => 20,
            Error::Unknown => 24,
            Error::NotReady => 28,
        }
    }

    /// The error that a value stands for.
    pub open spec fn of(value: int) -> Error {
        if value == 4 {
            Error::Rejected
        } else if value == 8 {
            Error::Sealed
        } else if value == 12 {
            Error::SpuriousFailure
        } else if value == 16 {
            Error::NotRegistered
        } else if value == 20 {
            Error::WrongMode
        } else if value == 28 {
            Error::NotReady
        } else {
            Error::Unknown
        }
    }
}

impl From<State> for u8 {
    fn from(value: State) -> (r: Self) {
        match value {
            State::Controlled => 0,
            State::Sealed => 1,
            State::Open => 2,
        }
    }
}

impl vstd::std_specs::convert::FromSpecImpl<State> for u8 {
    open spec fn obeys_from_spec() -> bool {
        true
    }

    open spec fn from_spec(value: State) -> u8 {
        value.value()
    }
}

impl From<u8> for State {
    fn from(value: u8) -> (r: Self) {
        State::from(value as usize)
    }
}

impl vstd::std_specs::convert::FromSpecImpl<u8> for State {
    open spec fn obeys_from_spec() -> bool {
        true
    }

    open spec fn from_spec(value: u8) -> State {
        State::of(value as int)
    }
}

impl From<usize> for State {
    fn from(value: usize) -> (r: Self) {
        match value {
            0 => State::Controlled,
            1 => State::Sealed,
            _ => State::Open,
        }
    }
}

impl vstd::std_specs::convert::FromSpecImpl<usize> for State {
    open spec fn obeys_from_spec() -> bool {
        true
    }

    open spec fn from_spec(value: usize) -> State {
        State::of(value as int)
    }
}

impl From<Error> for u8 {
    fn from(value: Error) -> (r: Self) {
        match value {
            Error::Rejected => 4,
            Error::Sealed => 8,
            Error::SpuriousFailure => 12,
            Error::NotRegistered => 16,
            Error::WrongMode => 20,
            Error::Unknown => 24,
            Error::NotReady => 28,
        }
    }
}

impl vstd::std_specs::convert::FromSpecImpl<Error> for u8 {
    open spec fn obeys_from_spec() -> bool {
        true
    }

    open spec fn from_spec(value: Error) -> u8 {
        value.value()
    }
}

impl From<u8> for Error {
    fn from(value: u8) -> (r: Self) {
        Error::from(value as usize)
    }
}

impl vstd::std_specs::convert::FromSpecImpl<u8> for Error {
    open spec fn obeys_from_spec() -> bool {
        true
    }

    open spec fn from_spec(value: u8) -> Error {
        Error::of(value as int)
    }
}

impl From<usize> for Error {
    fn from(value: usize) -> (r: Self) {
        match value {
            4 => Error::Rejected,
            8 => Error::Sealed,
            12 => Error::SpuriousFailure,
            16 => Error::NotRegistered,
            20 => Error::WrongMode,
            28 => Error::NotReady,
            _ => Error::Unknown,
        }
    }
}

impl vstd::std_specs::convert::FromSpecImpl<usize> for Error {
    open spec fn obeys_from_spec() -> bool {
        true
    }

    open spec fn from_spec(value: usize) -> Error {
        Error::of(value as int)
    }
}

impl Gate {
    /// Mask to get the state value from `u8`.
    pub const STATE_MASK: u8 = 3;

    /// The value that stands for a state and an error.
    pub open spec fn encoded(outcome: State, error: Option<Error>) -> u8 {
        (outcome.value() + match error {
            Some(error) => error.value() as int,
            None => 0,
        }) as u8
    }

    /// The state and the error that a value stands for.
    pub open spec fn decoded(value: u8) -> (State, Option<Error>) {
        (
            State::of((value % 4) as int),
            if value < 4 {
                None
            } else {
                Some(Error::of(value - value % 4))
            },
        )
    }

    /// A value that stands for a state and an error leads back to them.
    pub proof fn law_decoded_is_encoded(state: State, error: Option<Error>)
        ensures
            Self::decoded(Self::encoded(state, error)) == (state, error),
    {
    }

    /// Converts `(State, Error)` into `u8`.
    pub fn into_u8(state: State, error: Option<Error>) -> (r: u8)
        ensures
            r == Self::encoded(state, error),
    {
        let state_value: u8 = u8::from(state);
        let error_value: u8 = match error {
            Some(error) => u8::from(error),
            None => 0,
        };
        assert(state_value | error_value == state_value + error_value) by (bit_vector)
            requires
                state_value < 4,
                error_value % 4 == 0,
        ;
        state_value | error_value
    }

    /// Converts `u8` into `(State, Error)`.
    pub fn from_u8(value: u8) -> (r: (State, Option<Error>))
        ensures
            r == Self::decoded(value),
    {
        assert(value & 3 == value % 4 && value & !3u8 == value - value % 4) by (bit_vector);
        let state = State::from(value & Self::STATE_MASK);
        let error: u8 = value & !Self::STATE_MASK;
        if error != 0 {
            (state, Some(Error::from(error)))
        } else {
            (state, None)
        }
    }
}

impl Default for Gate {
    fn default() -> (r: Self)
        ensures
            r.wf(),
            r.pending() == 0,
            r.current() == State::Controlled,
            r.memory().queue() == Seq::<usize>::empty(),
            r.memory().word == 0,
            r.memory() == Memory::fresh(r.memory().word, r.memory().discipline),
            r.primitive.room() == usize::MAX / 128,
            r.primitive.room() > 0,
            r.primitive.marks() == Set::<usize>::empty(),
    {
        Gate { primitive: Arena::new(Policy::Gate, 0) }
    }
}

impl<S: SyncPrimitive> Gate<S> {
    /// The [`Gate`] is consistent.
    pub open spec fn wf(&self) -> bool {
        &&& self.primitive.memory().ok(self.primitive.pending())
        &&& self.primitive.memory().discipline is Gate
    }

    /// The memory of the [`Gate`].
    pub open spec fn memory(&self) -> Memory {
        self.primitive.memory()
    }

    /// The number of times other tasks may still intervene.
    pub open spec fn pending(&self) -> nat {
        self.primitive.pending()
    }

    /// The current state of the [`Gate`].
    pub open spec fn current(&self) -> State {
        Self::state_of(self.memory())
    }

    /// The state of a gate.
    pub open spec fn state_of(memory: Memory) -> State {
        State::of(memory.data() as int)
    }

    /// Returns the current state of the [`Gate`].
    pub fn state(&self, mo: Ordering) -> (r: State)
        requires
            self.wf(),
        ensures
            exists|mid: Memory| #[trigger]
                self.memory().rely(mid) && (self.pending() == 0 ==> mid == self.memory())
                    && r == Self::state_of(mid),
    {
        State::from(WaitQueue::data(self.primitive.peek(mo)))
    }

    /// A gate that is not controlled has no waiting tasks.
    proof fn lemma_idle(memory: Memory)
        requires
            memory.wf(),
            memory.discipline is Gate,
        ensures
            !memory.busy(),
            !memory.held,
            !WaitQueue::flagged(memory.word),
            memory.data() <= 2,
            memory.word == memory.tail() + memory.data(),
            memory.data() > 0 ==> memory.queue() == Seq::<usize>::empty() && memory.word
                == memory.data(),
    {
        WaitQueue::lemma_split(memory.word);
        if memory.data() > 0 {
            assert(memory.queue() =~= Seq::<usize>::empty());
        }
    }

    /// The waiting tasks may be woken up, whatever the other tasks have done.
    proof fn lemma_may_wake_all(first: Memory, word: usize)
        requires
            first.discipline is Gate,
            word <= 2,
        ensures
            forall|mid: Memory| #[trigger]
                first.rely(mid) ==> {
                    &&& mid.may_swap(word)
                    &&& mid.swapped(word) == mid.emptied(word)
                    &&& mid.swapped(word).queue() == Seq::<usize>::empty()
                    &&& mid.swapped(word).owns(mid.tail(), mid.queue())
                },
    {
        WaitQueue::lemma_compose(word, 0, false, word as nat);
        assert forall|mid: Memory| #[trigger] first.rely(mid) implies {
            &&& mid.may_swap(word)
            &&& mid.swapped(word) == mid.emptied(word)
            &&& mid.swapped(word).queue() == Seq::<usize>::empty()
            &&& mid.swapped(word).owns(mid.tail(), mid.queue())
        } by {
            mid.lemma_may_empty(word);
        }
    }

    /// Wakes up all the waiting tasks and updates the state.
    ///
    /// Returns `(prev_state, number)` where `prev_state` is the previous state of the [`Gate`] and
    /// `number` is the number of tasks that were woken up.
    fn wake_all(&mut self, next_state: Option<State>, error: Option<Error>) -> (r: (State, usize))
        requires
            old(self).wf(),
        ensures
            final(self).wf(),
            exists|mid: Memory| #[trigger]
                old(self).memory().rely(mid) && Self::wakes(
                    mid,
                    final(self).memory(),
                    next_state,
                    error,
                    r,
                ) && (final(self).pending() == old(self).pending() ==> mid == old(self).memory()),
            r.1 == final(self).memory().delivered.len() - old(self).memory().delivered.len(),
            final(self).pending() == old(self).pending() ==> r.0 == (if old(self).memory().word % 64
                == 0 {
                State::Controlled
            } else if old(self).memory().word % 64 == 1 {
                State::Sealed
            } else {
                State::Open
            }),
            final(self).pending() <= old(self).pending(),
            final(self).primitive.room() == old(self).primitive.room(),
            final(self).primitive.marks() == old(self).primitive.marks(),
    {
        let ghost first = self.memory();
        let mut value: usize = self.primitive.load();
        loop
            invariant
                self.wf(),
                self.pending() <= old(self).pending(),
                self.primitive.room() == old(self).primitive.room(),
                self.primitive.marks() == old(self).primitive.marks(),
                first == old(self).memory(),
                first.wf(),
                first.rely(self.memory()),
                value == self.memory().word,
                self.memory() != first ==> self.pending() < old(self).pending(),
            decreases self.pending(),
        {
            let ghost now = self.memory();
            let prev_state = State::from(WaitQueue::data(value));
            let new_state = match next_state {
                Some(new_state) => new_state,
                None => prev_state,
            };
            let new_value: usize = Self::word_of(new_state);
            proof {
                Self::lemma_idle(now);
                Self::lemma_may_wake_all(now, new_value);
            }
            match self.primitive.compare_exchange(value, new_value) {
                Ok(_) => {
                    let ghost mid = Memory { word: value, nodes: self.memory().nodes, ..now };
                    proof {
                        first.lemma_rely_transitive(now, mid);
                    }
                    let result: u8 = Gate::into_u8(new_state, error);
                    let tail: usize = WaitQueue::to_anchor_ptr(value);
                    let number: usize = self.primitive.deliver(tail, result, Ghost(mid.queue()));
                    proof {
                        mid.lemma_dismisses(self.memory(), new_value, result);
                        assert(first.rely(mid) && Self::wakes(
                            mid,
                            self.memory(),
                            next_state,
                            error,
                            (prev_state, number),
                        ));
                    }
                    return (prev_state, number);
                },
                Err(new_value) => {
                    proof {
                        first.lemma_rely_transitive(now, self.memory());
                    }
                    value = new_value;
                },
            }
        }
    }

    /// The memory becomes `new` when all the waiting tasks are woken up.
    pub open spec fn wakes(
        memory: Memory,
        new: Memory,
        next_state: Option<State>,
        error: Option<Error>,
        outcome: (State, usize),
    ) -> bool {
        let target = match next_state {
            Some(target) => target,
            None => Self::state_of(memory),
        };
        &&& outcome.0 == Self::state_of(memory)
        &&& outcome.1 == memory.queue().len()
        &&& memory.dismisses(new, target.value() as usize, Gate::encoded(target, error))
    }

    /// Returns the state word of a gate where nobody waits.
    fn word_of(target: State) -> (r: usize)
        ensures
            r == target.value(),
            r <= 2,
    {
        u8::from(target) as usize
    }

    /// Resets the [`Gate`] to its initial state if it is not in a [`Controlled`](State::Controlled)
    /// state.
    ///
    /// Returns the previous state of the [`Gate`].
    pub fn reset(&mut self) -> (r: Option<State>)
        requires
            old(self).wf(),
        ensures
            final(self).wf(),
            r matches Some(prev_state) ==> exists|mid: Memory| #[trigger]
                old(self).memory().rely(mid) && prev_state == Self::state_of(mid) && prev_state
                    != State::Controlled && final(self).memory() == mid.counted(0) && (
                old(self).pending() == 0 ==> mid == old(self).memory()),
            r is None ==> {
                &&& old(self).memory().rely(final(self).memory())
                &&& final(self).current() == State::Controlled
                &&& old(self).pending() == 0 ==> final(self).memory() == old(self).memory()
            },
            old(self).pending() == 0 ==> {
                &&& r == (if old(self).current() == State::Controlled {
                    None
                } else {
                    Some(old(self).current())
                })
                &&& final(self).current() == State::Controlled
            },
            final(self).pending() <= old(self).pending(),
            final(self).primitive.room() == old(self).primitive.room(),
            final(self).primitive.marks() == old(self).primitive.marks(),
    {
        let ghost first = self.memory();
        let mut value: usize = self.primitive.load();
        loop
            invariant
                self.wf(),
                self.pending() <= old(self).pending(),
                self.primitive.room() == old(self).primitive.room(),
                self.primitive.marks() == old(self).primitive.marks(),
                first == old(self).memory(),
                first.wf(),
                first.rely(self.memory()),
                value == self.memory().word,
                self.memory() != first ==> self.pending() < old(self).pending(),
            decreases self.pending(),
        {
            let ghost now = self.memory();
            let prev_state = State::from(WaitQueue::data(value));
            if prev_state == State::Controlled {
                return None;
            }
            let new_value: usize = WaitQueue::addr(value);
            proof {
                Self::lemma_idle(now);
                Self::lemma_may_wake_all(now, 0);
                WaitQueue::lemma_compose(0, 0, false, 0);
            }
            match self.primitive.compare_exchange(value, new_value) {
                Ok(_) => {
                    proof {
                        let mid = Memory { word: value, nodes: self.memory().nodes, ..now };
                        first.lemma_rely_transitive(now, mid);
                        Self::lemma_idle(mid);
                        assert(mid.emptied(0).mine =~= mid.mine);
                        assert(first.rely(mid));
                    }
                    return Some(prev_state);
                },
                Err(new_value) => {
                    proof {
                        first.lemma_rely_transitive(now, self.memory());
                    }
                    value = new_value;
                },
            }
        }
    }

    /// Permits waiting tasks to enter the [`Gate`] if the [`Gate`] is in a
    /// [`Controlled`](State::Controlled) state.
    ///
    /// Returns the number of permitted tasks.
    ///
    /// # Errors
    ///
    /// Returns the state if the [`Gate`] is not in a [`Controlled`](State::Controlled) state.
    pub fn permit(&mut self) -> (r: Result<usize, State>)
        requires
            old(self).wf(),
        ensures
            final(self).wf(),
            exists|mid: Memory| #[trigger]
                old(self).memory().rely(mid) && Self::lets(mid, final(self).memory(), None, r) && (
                final(self).pending() == old(self).pending() ==> mid == old(self).memory()),
            r matches Ok(number) ==> number == final(self).memory().delivered.len()
                - old(self).memory().delivered.len(),
            final(self).pending() == old(self).pending() ==> (r is Ok <==> old(self).memory().word
                % 64 == 0),
            final(self).pending() <= old(self).pending(),
            final(self).primitive.room() == old(self).primitive.room(),
            final(self).primitive.marks() == old(self).primitive.marks(),
    {
        let ghost first = self.memory();
        let (prev_state, number) = self.wake_all(None, None);
        proof {
            Self::lemma_lets(first, self.memory(), None, (prev_state, number));
        }
        if prev_state == State::Controlled {
            Ok(number)
        } else {
            Err(prev_state)
        }
    }

    /// Rejects waiting tasks to enter the [`Gate`] if the [`Gate`] is in a
    /// [`Controlled`](State::Controlled) state.
    ///
    /// Returns the number of rejected tasks.
    ///
    /// # Errors
    ///
    /// Returns the state if the [`Gate`] is not in a [`Controlled`](State::Controlled) state.
    pub fn reject(&mut self) -> (r: Result<usize, State>)
        requires
            old(self).wf(),
        ensures
            final(self).wf(),
            exists|mid: Memory| #[trigger]
                old(self).memory().rely(mid) && Self::lets(
                    mid,
                    final(self).memory(),
                    Some(Error::Rejected),
                    r,
                ) && (final(self).pending() == old(self).pending() ==> mid == old(self).memory()),
            r matches Ok(number) ==> number == final(self).memory().delivered.len()
                - old(self).memory().delivered.len(),
            final(self).pending() == old(self).pending() ==> (r is Ok <==> old(self).memory().word
                % 64 == 0),
            final(self).pending() <= old(self).pending(),
            final(self).primitive.room() == old(self).primitive.room(),
            final(self).primitive.marks() == old(self).primitive.marks(),
    {
        let ghost first = self.memory();
        let (prev_state, number) = self.wake_all(None, Some(Error::Rejected));
        proof {
            Self::lemma_lets(first, self.memory(), Some(Error::Rejected), (prev_state, number));
        }
        if prev_state == State::Controlled {
            Ok(number)
        } else {
            Err(prev_state)
        }
    }

    /// The memory becomes `new` when the waiting tasks of a controlled gate are permitted or
    /// rejected; nothing happens to a gate that is not controlled.
    pub open spec fn lets(
        memory: Memory,
        new: Memory,
        error: Option<Error>,
        outcome: Result<usize, State>,
    ) -> bool {
        if Self::state_of(memory) == State::Controlled {
            &&& outcome matches Ok(number) && number == memory.queue().len()
            &&& memory.dismisses(new, 0, Gate::encoded(State::Controlled, error))
        } else {
            &&& outcome == Result::<usize, State>::Err(Self::state_of(memory))
            &&& new == memory
        }
    }

    /// Only the waiting tasks of a controlled gate are permitted or rejected.
    proof fn lemma_lets(first: Memory, new: Memory, error: Option<Error>, outcome: (State, usize))
        requires
            first.discipline is Gate,
        ensures
            forall|mid: Memory| #[trigger]
                first.rely(mid) && Self::wakes(mid, new, None, error, outcome) ==> Self::lets(
                    mid,
                    new,
                    error,
                    if outcome.0 == State::Controlled {
                        Ok(outcome.1)
                    } else {
                        Err(outcome.0)
                    },
                ),
    {
        assert forall|mid: Memory| #[trigger]
            first.rely(mid) && Self::wakes(mid, new, None, error, outcome) implies Self::lets(
            mid,
            new,
            error,
            if outcome.0 == State::Controlled {
                Ok(outcome.1)
            } else {
                Err(outcome.0)
            },
        ) by {
            Self::lemma_idle(mid);
            reveal(Tally::gain);
            reveal(Memory::calls);
            if outcome.0 != State::Controlled {
                assert(new.nodes =~= mid.nodes);
                assert(new.delivered =~= mid.delivered);
            }
        }
    }

    /// Opens the [`Gate`] to allow any tasks to enter it.
    ///
    /// Returns the number of tasks that were waiting to enter it.
    pub fn open(&mut self) -> (r: (State, usize))
        requires
            old(self).wf(),
        ensures
            final(self).wf(),
            exists|mid: Memory| #[trigger]
                old(self).memory().rely(mid) && Self::wakes(
                    mid,
                    final(self).memory(),
                    Some(State::Open),
                    None,
                    r,
                ) && (final(self).pending() == old(self).pending() ==> mid == old(self).memory()),
            r.1 == final(self).memory().delivered.len() - old(self).memory().delivered.len(),
            final(self).pending() == old(self).pending() ==> r.0 == (if old(self).memory().word % 64
                == 0 {
                State::Controlled
            } else if old(self).memory().word % 64 == 1 {
                State::Sealed
            } else {
                State::Open
            }),
            final(self).pending() <= old(self).pending(),
            final(self).primitive.room() == old(self).primitive.room(),
            final(self).primitive.marks() == old(self).primitive.marks(),
    {
        self.wake_all(Some(State::Open), None)
    }

    /// Seals the [`Gate`] to disallow tasks to enter.
    ///
    /// Returns the number of tasks that were waiting to enter the [`Gate`].
    pub fn seal(&mut self) -> (r: (State, usize))
        requires
            old(self).wf(),
        ensures
            final(self).wf(),
            exists|mid: Memory| #[trigger]
                old(self).memory().rely(mid) && Self::wakes(
                    mid,
                    final(self).memory(),
                    Some(State::Sealed),
                    Some(Error::Sealed),
                    r,
                ) && (final(self).pending() == old(self).pending() ==> mid == old(self).memory()),
            r.1 == final(self).memory().delivered.len() - old(self).memory().delivered.len(),
            final(self).pending() == old(self).pending() ==> r.0 == (if old(self).memory().word % 64
                == 0 {
                State::Controlled
            } else if old(self).memory().word % 64 == 1 {
                State::Sealed
            } else {
                State::Open
            }),
            final(self).pending() <= old(self).pending(),
            final(self).primitive.room() == old(self).primitive.room(),
            final(self).primitive.marks() == old(self).primitive.marks(),
    {
        self.wake_all(Some(State::Sealed), Some(Error::Sealed))
    }

    /// The value that a task is handed when it arrives at a gate that is not controlled.
    pub open spec fn arrival(memory: Memory) -> u8 {
        if Self::state_of(memory) == State::Sealed {
            Gate::encoded(State::Sealed, Some(Error::Sealed))
        } else {
            Gate::encoded(State::Open, None)
        }
    }

    /// The memory becomes `new` when a task arrives at the [`Gate`]: it waits if the [`Gate`] is
    /// controlled, and is handed a result otherwise.
    pub open spec fn joins(memory: Memory, new: Memory, entry: usize, alone: bool) -> bool {
        &&& memory.installs(new, entry, Opcode::Wait(0))
        &&& memory.answers(new, entry, Opcode::Wait(0))
        &&& match new.nodes[entry].result {
            Some(result) => Self::state_of(new) != State::Controlled && result == Self::arrival(new),
            None => Self::state_of(new) == State::Controlled,
        }
        &&& alone ==> {
            &&& memory.same_others(new, entry)
            &&& Self::state_of(new) == Self::state_of(memory)
            &&& new.queue() == (if Self::state_of(memory) == State::Controlled {
                memory.queue().push(entry)
            } else {
                memory.queue()
            })
        }
    }

    /// Pushes the wait queue entry.
    fn push_wait_queue_entry(&mut self, entry: usize, Ghost(first): Ghost<Memory>)
        requires
            old(self).wf(),
            first.wf(),
            first.discipline is Gate,
            first.prepares(old(self).memory(), entry, Opcode::Wait(0)),
            first.untouched(old(self).memory(), entry),
            first.delivered == old(self).memory().delivered,
        ensures
            final(self).wf(),
            final(self).memory().nodes[entry].is_sync == old(self).memory().nodes[entry].is_sync,
            Self::joins(
                first,
                final(self).memory(),
                entry,
                final(self).pending() == old(self).pending(),
            ),
            final(self).primitive.marks() == (if final(self).memory().nodes[entry].result is None {
                old(self).primitive.marks().insert(entry)
            } else {
                old(self).primitive.marks()
            }),
            final(self).primitive.room() == old(self).primitive.room(),
            final(self).pending() <= old(self).pending(),
    {
        let ghost opcode = Opcode::Wait(0);
        loop
            invariant
                self.wf(),
                opcode == Opcode::Wait(0),
                first.wf(),
                first.discipline is Gate,
                first.prepares(self.memory(), entry, opcode),
                self.memory().delivered == first.delivered,
                self.memory().nodes[entry].is_sync == old(self).memory().nodes[entry].is_sync,
                self.primitive.room() == old(self).primitive.room(),
                self.primitive.marks() == old(self).primitive.marks(),
                self.pending() <= old(self).pending(),
                self.pending() == old(self).pending() ==> first.untouched(self.memory(), entry),
            decreases self.pending(),
        {
            let ghost now = self.memory();
            let value: usize = self.primitive.load();
            let ghost loaded = self.memory();
            let ghost before = self.pending();
            proof {
                first.lemma_prepares_rely(now, loaded, entry, opcode);
                Self::lemma_idle(loaded);
                assert(loaded.mine.contains(entry));
            }
            let arrival: Option<u8> = match State::from(WaitQueue::data(value)) {
                State::Controlled => None,
                State::Sealed => Some(Gate::into_u8(State::Sealed, Some(Error::Sealed))),
                State::Open => Some(Gate::into_u8(State::Open, None)),
            };
            match arrival {
                Some(result) => {
                    self.primitive.set_result(entry, result);
                    proof {
                        first.lemma_installs_result(loaded, entry, opcode, result);
                    }
                    return ;
                },
                None => {
                    if self.primitive.try_push_wait_queue_entry(entry, value, || {  }).is_none() {
                        proof {
                            first.lemma_installs_pushed(
                                loaded,
                                self.memory(),
                                entry,
                                opcode,
                                value,
                                self.pending() == before,
                                self.pending() == old(self).pending(),
                            );
                            Self::lemma_idle(self.memory());
                            WaitQueue::lemma_split(self.memory().word);
                        }
                        return ;
                    }
                    proof {
                        first.lemma_prepares_missed(
                            loaded,
                            self.memory(),
                            entry,
                            opcode,
                            value,
                            self.pending() == before,
                            self.pending() == old(self).pending(),
                        );
                    }
                },
            }
        }
    }

    /// Registers a [`pager::Pager`] to allow it get a permit to enter the [`Gate`] remotely.
    ///
    /// `is_sync` indicates whether the [`pager::Pager`] will be polled asynchronously (`false`) or
    /// synchronously (`true`).
    ///
    /// Returns `false` if the [`pager::Pager`] was already registered.
    pub fn register_pager(&mut self, pager: &mut pager::Pager, is_sync: bool) -> (r: bool)
        requires
            old(self).wf(),
            old(pager).entry() is None ==> old(self).primitive.room() > 0,
        ensures
            final(self).wf(),
            r == old(pager).entry() is None,
            !r ==> *final(pager) == *old(pager) && *final(self) == *old(self),
            r ==> {
                &&& final(pager).entry() is Some
                &&& final(pager).synchronous() == is_sync
                &&& final(pager).wf(final(self).memory())
                &&& !final(pager).acked()
                &&& !old(self).primitive.marks().contains(final(pager).entry()->0)
                &&& final(pager).marks(final(self).memory(), old(self).primitive.marks())
                    == final(self).primitive.marks()
                &&& Self::joins(
                    old(self).memory(),
                    final(self).memory(),
                    final(pager).entry()->0,
                    final(self).pending() == old(self).pending(),
                )
            },
            final(self).primitive.room() == old(self).primitive.room() - (if r {
                1int
            } else {
                0
            }),
            final(self).pending() <= old(self).pending(),
    {
        if pager.is_registered() {
            return false;
        }
        let ghost first = self.memory();
        let entry: usize = self.primitive.construct(Opcode::Wait(0), is_sync);
        proof {
            first.lemma_prepares(entry, Opcode::Wait(0), is_sync);
        }
        pager.set_entry(entry, is_sync);
        self.push_wait_queue_entry(entry, Ghost(first));
        true
    }

    /// Registers a [`Pager`] that will be polled asynchronously.
    ///
    /// Returns `false` if the [`Pager`] was already registered.
    pub fn register_async(&mut self, pager: &mut Pager) -> (r: bool)
        requires
            old(self).wf(),
            old(pager)@.entry() is None ==> old(self).primitive.room() > 0,
        ensures
            final(self).wf(),
            r == old(pager)@.entry() is None,
            !r ==> *final(pager) == *old(pager) && *final(self) == *old(self),
            r ==> {
                &&& final(pager)@.entry() is Some
                &&& !final(pager)@.synchronous()
                &&& final(pager)@.wf(final(self).memory())
                &&& !final(pager)@.acked()
                &&& !old(self).primitive.marks().contains(final(pager)@.entry()->0)
                &&& final(pager)@.marks(final(self).memory(), old(self).primitive.marks())
                    == final(self).primitive.marks()
                &&& Self::joins(
                    old(self).memory(),
                    final(self).memory(),
                    final(pager)@.entry()->0,
                    final(self).pending() == old(self).pending(),
                )
            },
            final(self).primitive.room() == old(self).primitive.room() - (if r {
                1int
            } else {
                0
            }),
            final(self).pending() <= old(self).pending(),
    {
        self.register_pager(&mut pager.pager, false)
    }

    /// Registers a [`Pager`] that will be polled synchronously.
    ///
    /// Returns `false` if the [`Pager`] was already registered.
    pub fn register_sync(&mut self, pager: &mut Pager) -> (r: bool)
        requires
            old(self).wf(),
            old(pager)@.entry() is None ==> old(self).primitive.room() > 0,
        ensures
            final(self).wf(),
            r == old(pager)@.entry() is None,
            !r ==> *final(pager) == *old(pager) && *final(self) == *old(self),
            r ==> {
                &&& final(pager)@.entry() is Some
                &&& final(pager)@.synchronous()
                &&& final(pager)@.wf(final(self).memory())
                &&& !final(pager)@.acked()
                &&& !old(self).primitive.marks().contains(final(pager)@.entry()->0)
                &&& final(pager)@.marks(final(self).memory(), old(self).primitive.marks())
                    == final(self).primitive.marks()
                &&& Self::joins(
                    old(self).memory(),
                    final(self).memory(),
                    final(pager)@.entry()->0,
                    final(self).pending() == old(self).pending(),
                )
            },
            final(self).primitive.room() == old(self).primitive.room() - (if r {
                1int
            } else {
                0
            }),
            final(self).pending() <= old(self).pending(),
    {
        self.register_pager(&mut pager.pager, true)
    }

    /// Enters the [`Gate`] asynchronously.
    ///
    /// Returns the result of entering it if the task does not have to wait for it. Otherwise, the
    /// returned [`Pager`] is the one to poll.
    pub fn enter_async(&mut self) -> (r: (Option<Result<State, Error>>, Pager))
        requires
            old(self).wf(),
            old(self).primitive.room() > 0,
        ensures
            final(self).wf(),
            Self::enters(
                old(self).memory(),
                final(self).memory(),
                r,
                false,
                final(self).pending() == old(self).pending(),
            ),
            final(self).primitive.marks() == (match r.1@.entry() {
                Some(entry) => old(self).primitive.marks().insert(entry),
                None => old(self).primitive.marks(),
            }),
            final(self).primitive.room() == old(self).primitive.room() - (if r.1@.entry() is Some {
                1int
            } else {
                0
            }),
            final(self).pending() <= old(self).pending(),
    {
        let mut pager = Pager::default();
        self.register_async(&mut pager);
        let ghost joined = self.memory();
        let ghost registered = pager@;
        let ghost entry = pager@.entry()->0;
        let ghost after = self.pending();
        let result = pager.poll_async(self);
        proof {
            let mid = choose|mid: Memory| #[trigger]
                joined.rely(mid) && (self.pending() == after ==> mid == joined) && result
                    == registered.polled::<Self>(mid, false) && if registered.completed(mid, false) {
                    pager@.entry() is None && self.memory() == mid.without_entry(entry)
                } else {
                    pager@ == registered && self.memory() == mid
                };
            assert(mid.without_entry(entry) == mid.without_entry(entry));
        }
        (result, pager)
    }

    /// Enters the [`Gate`] synchronously.
    ///
    /// Returns the result of entering it if the task does not have to wait for it. Otherwise, the
    /// returned [`Pager`] is the one to poll.
    pub fn enter_sync(&mut self) -> (r: (Option<Result<State, Error>>, Pager))
        requires
            old(self).wf(),
            old(self).primitive.room() > 0,
        ensures
            final(self).wf(),
            Self::enters(
                old(self).memory(),
                final(self).memory(),
                r,
                true,
                final(self).pending() == old(self).pending(),
            ),
            final(self).primitive.marks() == (match r.1@.entry() {
                Some(entry) => old(self).primitive.marks().insert(entry),
                None => old(self).primitive.marks(),
            }),
            final(self).primitive.room() == old(self).primitive.room() - (if r.1@.entry() is Some {
                1int
            } else {
                0
            }),
            final(self).pending() <= old(self).pending(),
    {
        let mut pager = Pager::default();
        self.register_sync(&mut pager);
        let ghost joined = self.memory();
        let ghost registered = pager@;
        let ghost entry = pager@.entry()->0;
        let ghost after = self.pending();
        let result = pager.poll_sync(self);
        proof {
            let mid = choose|mid: Memory| #[trigger]
                joined.rely(mid) && (self.pending() == after ==> mid == joined) && result
                    == registered.polled::<Self>(mid, true) && if registered.completed(mid, true) {
                    pager@.entry() is None && self.memory() == mid.without_entry(entry)
                } else {
                    pager@ == registered && self.memory() == mid
                };
            assert(mid.without_entry(entry) == mid.without_entry(entry));
        }
        (result, pager)
    }

    /// The memory becomes `new` when a task tries to enter the [`Gate`].
    pub open spec fn enters(
        memory: Memory,
        new: Memory,
        outcome: (Option<Result<State, Error>>, Pager),
        is_sync: bool,
        alone: bool,
    ) -> bool {
        exists|joined: Memory, mid: Memory, entry: usize|
            #![trigger joined.rely(mid), mid.without_entry(entry)]
            Self::joins(memory, joined, entry, alone) && joined.wf() && joined.rely(mid) && (alone
                ==> mid == joined) && match outcome.0 {
                Some(result) => {
                    &&& outcome.1@.entry() is None
                    &&& mid.nodes[entry].result is Some
                    &&& result == Self::interpret(mid.nodes[entry].result->0, None)
                    &&& new == mid.without_entry(entry)
                },
                None => {
                    &&& outcome.1@.entry() == Some(entry)
                    &&& outcome.1@.synchronous() == is_sync
                    &&& outcome.1@.wf(new)
                    &&& mid.nodes[entry].result is None
                    &&& new == mid
                },
            }
    }

    /// The memory becomes `done` when a task gives up waiting at the [`Gate`]: all the waiting
    /// tasks are told so.
    pub open spec fn fails(memory: Memory, done: Memory, alone: bool) -> bool {
        exists|mid: Memory, woken: Memory| #[trigger]
            memory.rely(mid) && #[trigger] woken.rely(done) && mid.dismisses(
                woken,
                Self::state_of(mid).value() as usize,
                Gate::encoded(Self::state_of(mid), Some(Error::SpuriousFailure)),
            ) && (alone ==> mid == memory && woken == done)
    }

    /// An entry has left the queue once all the waiting tasks have been woken up.
    proof fn lemma_failed(first: Memory, seen: Memory, mid: Memory, woken: Memory, entry: usize)
        requires
            first.wf(),
            woken.wf(),
            first.own.contains(entry),
            !first.mine.contains(entry),
            first.rely(seen),
            seen.rely(mid),
            mid.dismisses(
                woken,
                Self::state_of(mid).value() as usize,
                Gate::encoded(Self::state_of(mid), Some(Error::SpuriousFailure)),
            ),
        ensures
            first.rely(mid),
            woken.rely(woken),
            woken.own.contains(entry),
            !woken.mine.contains(entry),
            !woken.queue().contains(entry),
    {
        first.lemma_rely_transitive(seen, mid);
        woken.lemma_rely_reflexive();
    }

    /// Each task that waits when the [`Gate`] is opened, sealed, or controlled learns the outcome.
    pub proof fn law_waiting_tasks_learn_the_outcome(
        memory: Memory,
        new: Memory,
        next_state: Option<State>,
        error: Option<Error>,
        outcome: (State, usize),
        entry: usize,
    )
        requires
            memory.wf(),
            memory.discipline is Gate,
            Self::wakes(memory, new, next_state, error, outcome),
            memory.queue().contains(entry),
        ensures
            new.nodes[entry].result is Some,
            Self::interpret(new.nodes[entry].result->0, None) == (match error {
                Some(error) => Err(error),
                None => Ok(
                    match next_state {
                        Some(target) => target,
                        None => Self::state_of(memory),
                    },
                ),
            }),
            !new.queue().contains(entry),
    {
        let i = memory.queue().index_of(entry);
        assert(memory.queue()[i] == entry);
        Gate::law_decoded_is_encoded(
            match next_state {
                Some(target) => target,
                None => Self::state_of(memory),
            },
            error,
        );
    }

    /// A task that arrives at an open [`Gate`] enters it, and one that arrives at a sealed [`Gate`]
    /// is told so.
    pub proof fn law_late_tasks_follow_the_state(memory: Memory, new: Memory, entry: usize)
        requires
            memory.wf(),
            memory.discipline is Gate,
            Self::joins(memory, new, entry, true),
        ensures
            Self::state_of(memory) == State::Open ==> new.nodes[entry].result is Some
                && Self::interpret(new.nodes[entry].result->0, None) == Result::<State, Error>::Ok(
                State::Open,
            ),
            Self::state_of(memory) == State::Sealed ==> new.nodes[entry].result is Some
                && Self::interpret(new.nodes[entry].result->0, None) == Result::<State, Error>::Err(
                Error::Sealed,
            ),
            Self::state_of(memory) == State::Controlled ==> new.nodes[entry].result is None,
    {
    }

    /// Seals the [`Gate`] if any tasks are waiting to enter it, since it is about to be dropped.
    pub fn close(&mut self)
        requires
            old(self).wf(),
        ensures
            final(self).wf(),
            final(self).pending() <= old(self).pending(),
            final(self).primitive.room() == old(self).primitive.room(),
            final(self).primitive.marks() == old(self).primitive.marks(),
            old(self).pending() == 0 ==> if old(self).memory().queue().len() == 0 {
                final(self).memory() == old(self).memory()
            } else {
                old(self).memory().dismisses(
                    final(self).memory(),
                    1,
                    Gate::encoded(State::Sealed, Some(Error::Sealed)),
                )
            },
            final(self).memory().queue().len() == 0,
            old(self).memory().rely(final(self).memory()) || exists|mid: Memory| #[trigger]
                old(self).memory().rely(mid) && mid.dismisses(
                    final(self).memory(),
                    1,
                    Gate::encoded(State::Sealed, Some(Error::Sealed)),
                ),
    {
        let ghost first = self.memory();
        let value: usize = self.primitive.load();
        if WaitQueue::addr(value) == 0 {
            return ;
        }
        let ghost seen = self.memory();
        let outcome = self.seal();
        proof {
            let mid = choose|mid: Memory| #[trigger]
                seen.rely(mid) && Self::wakes(
                    mid,
                    self.memory(),
                    Some(State::Sealed),
                    Some(Error::Sealed),
                    outcome,
                );
            first.lemma_rely_transitive(seen, mid);
        }
    }
}

impl View for Pager {
    type V = pager::Pager;

    closed spec fn view(&self) -> pager::Pager {
        self.pager
    }
}

impl Default for Pager {
    fn default() -> (r: Self)
        ensures
            r@.entry() is None,
    {
        Pager { pager: pager::Pager::default() }
    }
}

impl Pager {
    /// Returns `true` if the [`Pager`] is registered in a [`Gate`].
    pub fn is_registered(&self) -> (r: bool)
        ensures
            r == self@.entry() is Some,
    {
        self.pager.is_registered()
    }

    /// Returns `true` if the [`Pager`] can only be polled synchronously.
    pub fn is_sync(&self) -> (r: bool)
        ensures
            r == self@.synchronous(),
    {
        self.pager.is_sync()
    }

    /// Returns the wait queue entry of the [`Pager`].
    pub fn entry_addr(&self) -> (r: Option<usize>)
        ensures
            r == self@.entry(),
    {
        self.pager.entry_addr()
    }

    /// Waits for a permit to enter the [`Gate`] synchronously.
    ///
    /// Returns `None` if the task has to wait. A [`Pager`] that was registered to be polled
    /// asynchronously stays registered.
    pub fn poll_sync<S: SyncPrimitive>(&mut self, gate: &mut Gate<S>) -> (r: Option<
        Result<State, Error>,
    >)
        requires
            old(gate).wf(),
            old(self)@.wf(old(gate).memory()),
        ensures
            final(gate).wf(),
            final(gate).pending() <= old(gate).pending(),
            final(gate).room() == old(self)@.vacates(final(self)@, old(gate).room()),
            final(gate).marks() == old(self)@.unmarks(final(self)@, old(gate).marks()),
            final(self)@.wf(final(gate).memory()),
            old(self)@.polls::<Gate<S>>(
                old(gate).memory(),
                final(self)@,
                final(gate).memory(),
                true,
                final(gate).pending() == old(gate).pending(),
                r,
            ),
    {
        self.pager.poll_sync(gate)
    }

    /// Waits for a permit to enter the [`Gate`] asynchronously.
    ///
    /// Returns `None` if the task has to wait. A [`Pager`] that was registered to be polled
    /// synchronously is unregistered: the task gives up waiting.
    pub fn poll_async<S: SyncPrimitive>(&mut self, gate: &mut Gate<S>) -> (r: Option<
        Result<State, Error>,
    >)
        requires
            old(gate).wf(),
            old(self)@.wf(old(gate).memory()),
        ensures
            final(gate).wf(),
            final(gate).pending() <= old(gate).pending(),
            final(gate).room() == old(self)@.vacates(final(self)@, old(gate).room()),
            final(gate).marks() == old(self)@.unmarks(final(self)@, old(gate).marks()),
            final(self)@.wf(final(gate).memory()),
            if old(self)@.synchronous() {
                &&& r == Some(Result::<State, Error>::Err(Error::WrongMode))
                &&& final(self)@.entry() is None
                &&& old(self)@.abandons::<Gate<S>>(
                    old(gate).memory(),
                    final(gate).memory(),
                    old(gate).pending() == 0,
                )
            } else {
                old(self)@.polls::<Gate<S>>(
                    old(gate).memory(),
                    final(self)@,
                    final(gate).memory(),
                    false,
                    final(gate).pending() == old(gate).pending(),
                    r,
                )
            },
    {
        if self.pager.is_sync() {
            self.pager.cancel(gate);
            return Some(Err(Error::WrongMode));
        }
        self.pager.poll_async(gate)
    }

    /// Tries to get the result.
    pub fn try_poll<S: SyncPrimitive>(&mut self, gate: &mut Gate<S>) -> (r: Result<State, Error>)
        requires
            old(gate).wf(),
            old(self)@.wf(old(gate).memory()),
        ensures
            final(gate).wf(),
            final(gate).pending() <= old(gate).pending(),
            final(gate).room() == old(gate).room(),
            final(gate).marks() == old(gate).marks(),
            old(gate).memory().rely(final(gate).memory()),
            final(gate).memory() != old(gate).memory() ==> final(gate).pending() < old(
                gate,
            ).pending(),
            final(self)@.wf(final(gate).memory()),
            final(self)@.entry() == old(self)@.entry(),
            final(self)@.synchronous() == old(self)@.synchronous(),
            old(self)@.entry() matches Some(entry) ==> final(self)@.acked() == (
            final(gate).memory().nodes[entry].result is Some),
            r == (match old(self)@.entry() {
                None => Err(Error::NotRegistered),
                Some(entry) => match final(gate).memory().nodes[entry].result {
                    Some(value) => Gate::<S>::interpret(value, None),
                    None => Err(Error::NotReady),
                },
            }),
    {
        self.pager.try_poll(gate)
    }

    /// Unregisters the [`Pager`], since it is about to be dropped.
    ///
    /// The task gives up waiting, and all the other waiting tasks are told so.
    pub fn cancel<S: SyncPrimitive>(&mut self, gate: &mut Gate<S>)
        requires
            old(gate).wf(),
            old(self)@.wf(old(gate).memory()),
        ensures
            final(gate).wf(),
            final(self)@.entry() is None,
            final(gate).pending() <= old(gate).pending(),
            final(gate).room() == old(self)@.vacates(final(self)@, old(gate).room()),
            final(gate).marks() == old(self)@.unmarks(final(self)@, old(gate).marks()),
            old(self)@.abandons::<Gate<S>>(
                old(gate).memory(),
                final(gate).memory(),
                old(gate).pending() == 0,
            ),
    {
        self.pager.cancel(gate);
    }
}

impl<S: SyncPrimitive> SyncResult for Gate<S> {
    type Result = Result<State, Error>;

    open spec fn interpret(value: u8, pager_error: Option<pager::Error>) -> Self::Result {
        match pager_error {
            Some(pager::Error::NotRegistered) => Err(Error::NotRegistered),
            Some(pager::Error::WrongMode) => Err(Error::WrongMode),
            Some(pager::Error::NotReady) => Err(Error::NotReady),
            None => match Gate::decoded(value).1 {
                Some(error) => Err(error),
                None => Ok(Gate::decoded(value).0),
            },
        }
    }

    fn to_result(value: u8, pager_error: Option<pager::Error>) -> (r: Self::Result) {
        match pager_error {
            Some(pager::Error::NotRegistered) => Err(Error::NotRegistered),
            Some(pager::Error::WrongMode) => Err(Error::WrongMode),
            Some(pager::Error::NotReady) => Err(Error::NotReady),
            None => {
                let (outcome, error) = Gate::from_u8(value);
                match error {
                    Some(error) => Err(error),
                    None => Ok(outcome),
                }
            },
        }
    }
}

impl<S: SyncPrimitive> PagerHost for Gate<S> {
    open spec fn sound(&self) -> bool {
        self.wf()
    }

    open spec fn shared(&self) -> Memory {
        self.memory()
    }

    open spec fn turns(&self) -> nat {
        self.pending()
    }

    open spec fn marks(&self) -> Entries {
        self.primitive.marks()
    }

    open spec fn room(&self) -> Room {
        self.primitive.room()
    }

    open spec fn drops(memory: Memory, new: Memory, entry: usize, alone: bool) -> bool {
        exists|done: Memory| #[trigger]
            done.without_entry(entry) == new && done.nodes[entry].result is Some && {
                ||| memory.rely(done) && (alone ==> done == memory)
                ||| memory.nodes[entry].result is None && Self::fails(memory, done, alone)
            }
    }

    proof fn lemma_sound(&self) {
    }

    fn acknowledge(&mut self, entry: usize) -> (r: Option<u8>) {
        self.primitive.try_acknowledge_result(entry)
    }

    fn discard(&mut self, entry: usize) {
        self.primitive.discard(entry);
    }

    fn drop_wait_queue_entry(&mut self, entry: usize) {
        let ghost first = self.memory();
        let mut result: Option<u8> = self.acknowledge(entry);
        if result.is_none() {
            let ghost seen = self.memory();
            let outcome = self.wake_all(None, Some(Error::SpuriousFailure));
            let ghost woken = self.memory();
            let ghost after = self.pending();
            let ghost mid = choose|mid: Memory| #[trigger]
                seen.rely(mid) && Self::wakes(
                    mid,
                    woken,
                    None,
                    Some(Error::SpuriousFailure),
                    outcome,
                ) && (old(self).pending() == 0 ==> mid == seen);
            proof {
                Self::lemma_failed(first, seen, mid, woken, entry);
            }
            result = self.acknowledge(entry);
            while result.is_none()
                invariant
                    self.wf(),
                    self.primitive.room() == old(self).primitive.room(),
                    self.primitive.marks() == old(self).primitive.marks(),
                    woken.wf(),
                    woken.rely(self.memory()),
                    woken.own.contains(entry),
                    !woken.mine.contains(entry),
                    !woken.queue().contains(entry),
                    result == self.memory().nodes[entry].result,
                    self.pending() <= after,
                    after == 0 ==> self.memory() == woken,
                decreases self.pending(),
            {
                let ghost now = self.memory();
                self.primitive.yield_now();
                let ghost then = self.memory();
                proof {
                    woken.lemma_rely_transitive(now, then);
                }
                result = self.acknowledge(entry);
                proof {
                    woken.lemma_rely_transitive(then, self.memory());
                }
            }
        }
        let ghost done = self.memory();
        self.discard(entry);
        proof {
            assert(done.without_entry(entry) == self.memory());
        }
    }
}

} // verus!
