//! [`Pager`] allows the user to remotely wait for a desired resource.
use vstd::prelude::*;

use crate::memory::Entries;
use crate::memory::Memory;
use crate::memory::Room;

verus! {

/// Tasks holding a [`Pager`] can remotely acquire a desired resource.
///
/// [`Pager`] refers to a wait queue entry of the synchronization primitive that it is registered
/// in.
#[derive(Clone, Copy, Debug, Eq, PartialEq, Structural)]
pub struct Pager {
    /// The wait queue entry for the [`Pager`].
    entry: Option<usize>,
    /// The [`Pager`] can only be polled synchronously.
    is_sync: bool,
    /// The result has been acknowledged.
    acked: bool,
}

/// Errors that can occur when using a [`Pager`].
#[derive(Clone, Copy, Debug, Eq, PartialEq, Structural)]
pub enum Error {
    /// The [`Pager`] is not registered in a synchronization primitive.
    NotRegistered,
    /// The [`Pager`] is registered in a synchronization primitive with a different mode.
    WrongMode,
    /// The result is not ready.
    NotReady,
}

/// Defines result value interpretation interfaces.
pub trait SyncResult: Sized {
    /// Operation result type.
    type Result: Eq + PartialEq;

    /// The interpretation of a value.
    spec fn interpret(value: u8, pager_error: Option<Error>) -> Self::Result;

    /// Converts a `u8` value into a `Self::Result`.
    fn to_result(value: u8, pager_error: Option<Error>) -> (r: Self::Result)
        ensures
            r == Self::interpret(value, pager_error),
    ;
}

/// A synchronization primitive that a [`Pager`] can be registered in.
pub trait PagerHost: SyncResult {
    /// The primitive is consistent.
    spec fn sound(&self) -> bool;

    /// The memory of the primitive.
    spec fn shared(&self) -> Memory;

    /// The number of times other tasks may still intervene.
    spec fn turns(&self) -> nat;

    /// The entries that have been marked as pushed into the wait queue.
    spec fn marks(&self) -> Entries;

    /// The number of wait queue entries that can still be created.
    spec fn room(&self) -> Room;

    /// Returns the result that the entry has been handed, and acknowledges it.
    fn acknowledge(&mut self, entry: usize) -> (r: Option<u8>)
        requires
            old(self).sound(),
            old(self).shared().own.contains(entry),
        ensures
            final(self).sound(),
            r == final(self).shared().nodes[entry].result,
            old(self).shared().rely(final(self).shared()),
            final(self).turns() <= old(self).turns(),
            final(self).shared() != old(self).shared() ==> final(self).turns() < old(self).turns(),
            final(self).room() == old(self).room(),
            final(self).marks() == old(self).marks(),
    ;

    /// Destroys an entry that has been handed a result.
    fn discard(&mut self, entry: usize)
        requires
            old(self).sound(),
            old(self).shared().own.contains(entry),
            old(self).shared().nodes[entry].result is Some,
        ensures
            final(self).sound(),
            final(self).shared() == old(self).shared().without_entry(entry),
            final(self).shared().queue() == old(self).shared().queue(),
            final(self).turns() == old(self).turns(),
            final(self).room() == old(self).room() + 1,
            final(self).marks() == old(self).marks().remove(entry),
    ;

    /// A consistent primitive has consistent memory.
    proof fn lemma_sound(&self)
        requires
            self.sound(),
        ensures
            self.shared().wf(),
    ;

    /// The memory becomes `new` when a task gives up waiting in an entry.
    spec fn drops(memory: Memory, new: Memory, entry: usize, alone: bool) -> bool;

    /// Gives up waiting in an entry, releases what it has been handed, and destroys it.
    fn drop_wait_queue_entry(&mut self, entry: usize)
        requires
            old(self).sound(),
            old(self).shared().own.contains(entry),
            !old(self).shared().mine.contains(entry),
        ensures
            final(self).sound(),
            Self::drops(old(self).shared(), final(self).shared(), entry, old(self).turns() == 0),
            final(self).shared().own == old(self).shared().own.remove(entry),
            final(self).turns() <= old(self).turns(),
            final(self).room() == old(self).room() + 1,
            final(self).marks() == old(self).marks().remove(entry),
    ;
}

impl Default for Pager {
    fn default() -> (r: Self)
        ensures
            r.entry() is None,
    {
        Pager { entry: None, is_sync: false, acked: false }
    }
}

impl Pager {
    /// The wait queue entry of the [`Pager`].
    pub closed spec fn entry(self) -> Option<usize> {
        self.entry
    }

    /// The [`Pager`] can only be polled synchronously.
    ///
    /// A [`Pager`] that is not registered is not.
    pub open spec fn synchronous(self) -> bool {
        self.entry() is Some && self.sync_mode()
    }

    /// The result has been acknowledged, so the task owns what it has been handed.
    ///
    /// There is none to acknowledge while the [`Pager`] is not registered.
    pub open spec fn acked(self) -> bool {
        self.entry() is Some && self.acked_flag()
    }

    /// The [`Pager`] was registered last in order to be polled synchronously.
    pub closed spec fn sync_mode(self) -> bool {
        self.is_sync
    }

    /// The result of the last registration has been acknowledged.
    pub closed spec fn acked_flag(self) -> bool {
        self.acked
    }

    /// The [`Pager`] is not registered, or refers to an entry of the primitive that it waits in.
    pub open spec fn wf(self, memory: Memory) -> bool {
        self.entry() matches Some(entry) ==> {
            &&& memory.own.contains(entry)
            &&& !memory.mine.contains(entry)
            &&& memory.nodes[entry].is_sync == self.synchronous()
            &&& self.acked() ==> memory.nodes[entry].result is Some
        }
    }

    /// The entries that are marked after the [`Pager`] was registered, out of those that were
    /// marked before: its entry becomes one of them if the task has to wait.
    pub open spec fn marks(self, memory: Memory, before: Entries) -> Entries {
        match self.entry() {
            Some(entry) => if memory.nodes[entry].result is None {
                before.insert(entry)
            } else {
                before
            },
            None => before,
        }
    }

    /// The entries that are marked after the [`Pager`] was used and became `new`, out of those
    /// that were marked before: its entry is no longer one of them once it is unregistered.
    pub open spec fn unmarks(self, new: Pager, before: Entries) -> Entries {
        match self.entry() {
            Some(entry) => if new.entry() is None {
                before.remove(entry)
            } else {
                before
            },
            None => before,
        }
    }

    /// The number of entries that can be created after the [`Pager`] was used and became `new`, out
    /// of those that could be created before: its entry gives way to another one once it is
    /// unregistered.
    pub open spec fn vacates(self, new: Pager, before: Room) -> Room {
        if self.entry() is Some && new.entry() is None {
            before + 1
        } else {
            before
        }
    }

    /// Returns `true` if the [`Pager`] is registered in a synchronization primitive.
    pub fn is_registered(&self) -> (r: bool)
        ensures
            r == self.entry() is Some,
    {
        self.entry.is_some()
    }

    /// Returns `true` if the [`Pager`] can only be polled synchronously.
    pub fn is_sync(&self) -> (r: bool)
        ensures
            r == self.synchronous(),
    {
        self.entry.is_some() && self.is_sync
    }

    /// Returns the wait queue entry of the [`Pager`].
    pub fn entry_addr(&self) -> (r: Option<usize>)
        ensures
            r == self.entry(),
    {
        self.entry
    }

    /// Sets the wait queue entry.
    pub(crate) fn set_entry(&mut self, entry: usize, is_sync: bool)
        ensures
            final(self).entry() == Some(entry),
            final(self).synchronous() == is_sync,
            !final(self).acked(),
    {
        self.entry = Some(entry);
        self.is_sync = is_sync;
        self.acked = false;
    }

    /// The result of polling the [`Pager`] in the given mode.
    ///
    /// There is none while the entry has not been handed a result.
    pub open spec fn polled<H: PagerHost>(self, memory: Memory, is_sync: bool) -> Option<
        H::Result,
    > {
        match self.entry() {
            None => Some(H::interpret(0, Some(Error::NotRegistered))),
            Some(entry) => if self.synchronous() != is_sync {
                Some(H::interpret(0, Some(Error::WrongMode)))
            } else {
                match memory.nodes[entry].result {
                    Some(value) => Some(H::interpret(value, None)),
                    None => None,
                }
            },
        }
    }

    /// The [`Pager`] is polled in the mode that it was registered with, and the result is
    /// available.
    pub open spec fn completed(self, memory: Memory, is_sync: bool) -> bool {
        &&& self.entry() is Some
        &&& self.synchronous() == is_sync
        &&& memory.nodes[self.entry()->0].result is Some
    }

    /// The [`Pager`] and the memory of the primitive become `new` and `new_memory` when the
    /// [`Pager`] is polled in the given mode: it is unregistered once the result is available.
    pub open spec fn polls<H: PagerHost>(
        self,
        memory: Memory,
        new: Pager,
        new_memory: Memory,
        is_sync: bool,
        alone: bool,
        result: Option<H::Result>,
    ) -> bool {
        exists|mid: Memory| #[trigger]
            memory.rely(mid) && (alone ==> mid == memory) && result == self.polled::<H>(mid, is_sync)
                && if self.completed(mid, is_sync) {
                new.entry() is None && new_memory == mid.without_entry(self.entry()->0)
            } else {
                new == self && new_memory == mid
            }
    }

    /// Polls the [`Pager`], and unregisters it once the result is available.
    ///
    /// Returns `None` if the task has to wait.
    fn poll<H: PagerHost>(&mut self, host: &mut H, is_sync: bool) -> (r: Option<H::Result>)
        requires
            old(host).sound(),
            old(self).wf(old(host).shared()),
        ensures
            final(host).sound(),
            final(host).turns() <= old(host).turns(),
            final(host).room() == old(self).vacates(*final(self), old(host).room()),
            final(host).marks() == old(self).unmarks(*final(self), old(host).marks()),
            final(self).wf(final(host).shared()),
            old(self).polls::<H>(
                old(host).shared(),
                *final(self),
                final(host).shared(),
                is_sync,
                final(host).turns() == old(host).turns(),
                r,
            ),
    {
        proof {
            host.lemma_sound();
            host.shared().lemma_rely_reflexive();
        }
        let entry: usize = match self.entry {
            Some(entry) => entry,
            None => {
                return Some(H::to_result(0, Some(Error::NotRegistered)));
            },
        };
        if self.is_sync != is_sync {
            return Some(H::to_result(0, Some(Error::WrongMode)));
        }
        match host.acknowledge(entry) {
            Some(value) => {
                host.discard(entry);
                self.entry = None;
                Some(H::to_result(value, None))
            },
            None => None,
        }
    }

    /// Waits for the desired resource to become available asynchronously.
    ///
    /// Returns `None` if the task has to wait.
    pub fn poll_async<H: PagerHost>(&mut self, host: &mut H) -> (r: Option<H::Result>)
        requires
            old(host).sound(),
            old(self).wf(old(host).shared()),
        ensures
            final(host).sound(),
            final(host).turns() <= old(host).turns(),
            final(host).room() == old(self).vacates(*final(self), old(host).room()),
            final(host).marks() == old(self).unmarks(*final(self), old(host).marks()),
            final(self).wf(final(host).shared()),
            old(self).polls::<H>(
                old(host).shared(),
                *final(self),
                final(host).shared(),
                false,
                final(host).turns() == old(host).turns(),
                r,
            ),
    {
        self.poll(host, false)
    }

    /// Waits for the desired resource to become available synchronously.
    ///
    /// Returns `None` if the task has to wait.
    pub fn poll_sync<H: PagerHost>(&mut self, host: &mut H) -> (r: Option<H::Result>)
        requires
            old(host).sound(),
            old(self).wf(old(host).shared()),
        ensures
            final(host).sound(),
            final(host).turns() <= old(host).turns(),
            final(host).room() == old(self).vacates(*final(self), old(host).room()),
            final(host).marks() == old(self).unmarks(*final(self), old(host).marks()),
            final(self).wf(final(host).shared()),
            old(self).polls::<H>(
                old(host).shared(),
                *final(self),
                final(host).shared(),
                true,
                final(host).turns() == old(host).turns(),
                r,
            ),
    {
        self.poll(host, true)
    }

    /// Tries to get the result.
    pub fn try_poll<H: PagerHost>(&mut self, host: &mut H) -> (r: H::Result)
        requires
            old(host).sound(),
            old(self).wf(old(host).shared()),
        ensures
            final(host).sound(),
            final(host).turns() <= old(host).turns(),
            final(host).room() == old(self).vacates(*final(self), old(host).room()),
            final(host).marks() == old(self).unmarks(*final(self), old(host).marks()),
            old(host).shared().rely(final(host).shared()),
            final(host).shared() != old(host).shared() ==> final(host).turns() < old(host).turns(),
            final(self).wf(final(host).shared()),
            final(self).entry() == old(self).entry(),
            final(self).synchronous() == old(self).synchronous(),
            old(self).entry() matches Some(entry) ==> final(self).acked() == (
            final(host).shared().nodes[entry].result is Some),
            r == (match old(self).entry() {
                None => H::interpret(0, Some(Error::NotRegistered)),
                Some(entry) => match final(host).shared().nodes[entry].result {
                    Some(value) => H::interpret(value, None),
                    None => H::interpret(0, Some(Error::NotReady)),
                },
            }),
    {
        let entry: usize = match self.entry {
            Some(entry) => entry,
            None => {
                proof {
                    host.lemma_sound();
                    host.shared().lemma_rely_reflexive();
                }
                return H::to_result(0, Some(Error::NotRegistered));
            },
        };
        match host.acknowledge(entry) {
            Some(value) => {
                self.acked = true;
                H::to_result(value, None)
            },
            None => H::to_result(0, Some(Error::NotReady)),
        }
    }

    /// The memory of the primitive becomes `new` when the [`Pager`] is unregistered: the task gives
    /// up waiting, and what it has been handed is released unless the result was acknowledged.
    pub open spec fn abandons<H: PagerHost>(self, memory: Memory, new: Memory, alone: bool) -> bool {
        match self.entry() {
            None => new == memory,
            Some(entry) => {
                &&& new.own == memory.own.remove(entry)
                &&& if self.acked() {
                    new == memory.without_entry(entry)
                } else {
                    H::drops(memory, new, entry, alone)
                }
            },
        }
    }

    /// Unregisters the [`Pager`].
    ///
    /// The task gives up waiting, and what it has been handed is released unless the result was
    /// acknowledged.
    pub fn cancel<H: PagerHost>(&mut self, host: &mut H)
        requires
            old(host).sound(),
            old(self).wf(old(host).shared()),
        ensures
            final(host).sound(),
            final(self).entry() is None,
            final(host).turns() <= old(host).turns(),
            final(host).room() == old(self).vacates(*final(self), old(host).room()),
            final(host).marks() == old(self).unmarks(*final(self), old(host).marks()),
            old(self).abandons::<H>(
                old(host).shared(),
                final(host).shared(),
                old(host).turns() == 0,
            ),
    {
        if let Some(entry) = self.entry {
            if self.acked {
                host.discard(entry);
            } else {
                host.drop_wait_queue_entry(entry);
            }
            self.entry = None;
        }
    }
}

} // verus!
