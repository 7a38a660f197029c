//! [`Lock`] is a low-level locking primitive for both synchronous and asynchronous operations.
use std::sync::atomic::Ordering;

use vstd::prelude::*;

use crate::arena::Arena;
use crate::arena::Policy;
use crate::memory::Discipline;
use crate::memory::Entries;
use crate::memory::Memory;
use crate::memory::Room;
use crate::memory::Tally;
use crate::opcode::Opcode;
use crate::pager;
use crate::pager::Pager;
use crate::pager::PagerHost;
use crate::pager::SyncResult;
use crate::sync_primitive::Acquisition;
use crate::sync_primitive::SyncPrimitive;
use crate::wait_queue::WaitQueue;

verus! {

/// [`Lock`] is a low-level locking primitive for both synchronous and asynchronous operations.
///
/// The locking semantics are similar to [`RwLock`](std::sync::RwLock), however, [`Lock`] only
/// provides low-level locking and releasing methods, hence forcing the user to manage the scope of
/// acquired locks and the resources to protect.
pub struct Lock<S: SyncPrimitive = Arena> {
    /// [`Lock`] state.
    pub primitive: S,
}

/// Operation mode.
#[derive(Clone, Copy, Debug, Eq, PartialEq, Structural)]
pub enum Mode {
    /// Acquires an exclusive lock.
    Exclusive,
    /// Acquires a shared lock.
    Shared,
    /// Waits for the [`Lock`] to be free or poisoned.
    ///
    /// [`Self::WaitExclusive`], [`Self::WaitShared`], [`Lock::try_lock`], and [`Lock::try_share`]
    /// provide a way to bypass the fair queuing mechanism without spinning.
    WaitExclusive,
    /// Waits for a shared lock to be available or the [`Lock`] to be poisoned.
    ///
    /// If a [`Self::WaitExclusive`] entry is in front of a [`Self::WaitShared`] entry, the
    /// [`Self::WaitShared`] entry has to wait until the [`Self::WaitExclusive`] entry is processed.
    WaitShared,
}

/// What is known of a [`Lock`] at a moment, for diagnostic purposes.
#[derive(Clone, Copy, Debug, Eq, PartialEq, Structural)]
pub struct Status {
    /// State word.
    pub state: usize,
    /// An exclusive lock is held.
    pub locked: bool,
    /// The number of shared owners.
    pub share_count: usize,
    /// The lock is poisoned.
    pub poisoned: bool,
    /// The wait queue is being processed, or the lock is poisoned.
    pub wait_queue_being_processed: bool,
    /// Address of the newest wait queue entry.
    pub wait_queue_tail_addr: usize,
}

impl Lock {
    /// Maximum number of shared owners.
    pub const MAX_SHARED_OWNERS: usize = 62;

    /// Poisoned state.
    pub const POISONED_STATE: usize = 64;

    /// Successfully acquired the desired lock.
    pub const ACQUIRED: u8 = 0;

    /// Failed to acquire the desired lock.
    pub const NOT_ACQUIRED: u8 = 1;

    /// Poisoned error code.
    pub const POISONED: u8 = 2;
}

impl<S: SyncPrimitive> Lock<S> {
    /// The lock is consistent, and its wait queue is not being processed by the current task.
    pub open spec fn wf(&self) -> bool {
        &&& self.primitive.memory().ok(self.primitive.pending())
        &&& self.primitive.memory().discipline == (Discipline::Limited { limit: 62, poisonable: true })
        &&& self.primitive.memory().spare == Tally::none()
        &&& !self.primitive.memory().held
    }

    /// The memory of the lock.
    pub open spec fn memory(&self) -> Memory {
        self.primitive.memory()
    }

    /// The number of times other tasks may still intervene.
    pub open spec fn pending(&self) -> nat {
        self.primitive.pending()
    }

    /// Returns `true` if the lock is currently free.
    pub fn is_free(&self, mo: Ordering) -> (r: bool)
        requires
            self.wf(),
        ensures
            exists|mid: Memory| #[trigger]
                self.memory().rely(mid) && (self.pending() == 0 ==> mid == self.memory())
                    && r == (mid.word != 64 && mid.data() == 0),
    {
        let seen: usize = self.primitive.peek(mo);
        seen != Lock::POISONED_STATE && WaitQueue::data(seen) == 0
    }

    /// Returns `true` if an exclusive lock is currently held.
    pub fn is_locked(&self, mo: Ordering) -> (r: bool)
        requires
            self.wf(),
        ensures
            exists|mid: Memory| #[trigger]
                self.memory().rely(mid) && (self.pending() == 0 ==> mid == self.memory())
                    && r == (mid.data() == 63),
    {
        WaitQueue::data(self.primitive.peek(mo)) == WaitQueue::DATA_MASK
    }

    /// Returns `true` if shared locks are currently held.
    pub fn is_shared(&self, mo: Ordering) -> (r: bool)
        requires
            self.wf(),
        ensures
            exists|mid: Memory| #[trigger]
                self.memory().rely(mid) && (self.pending() == 0 ==> mid == self.memory())
                    && r == (0 < mid.data() < 63),
    {
        let share_state: usize = WaitQueue::data(self.primitive.peek(mo));
        share_state != 0 && share_state != WaitQueue::DATA_MASK
    }

    /// Returns `true` if the [`Lock`] is poisoned.
    pub fn is_poisoned(&self, mo: Ordering) -> (r: bool)
        requires
            self.wf(),
        ensures
            exists|mid: Memory| #[trigger]
                self.memory().rely(mid) && (self.pending() == 0 ==> mid == self.memory())
                    && r == (mid.word == 64),
    {
        self.primitive.peek(mo) == Lock::POISONED_STATE
    }

    /// Tries to acquire an exclusive lock.
    pub fn try_lock_internal(&mut self) -> (r: (u8, usize))
        requires
            old(self).wf(),
        ensures
            final(self).wf(),
            old(self).memory().attempts(
                final(self).memory(),
                Opcode::Exclusive,
                r.0,
                r.1,
                final(self).pending() == old(self).pending(),
            ),
            final(self).pending() <= old(self).pending(),
            final(self).primitive.room() == old(self).primitive.room(),
            final(self).primitive.marks() == old(self).primitive.marks(),
    {
        let ghost first = self.memory();
        proof {
            Self::lemma_may_take_all(first, Opcode::Exclusive);
            WaitQueue::lemma_compose(0, 0, false, 0);
        }
        match self.primitive.compare_exchange(0, WaitQueue::DATA_MASK) {
            Ok(_) => {
                proof {
                    let mid = Memory { word: 0, nodes: self.memory().nodes, ..first };
                    assert(first.rely(mid) && mid.takes(self.memory(), Opcode::Exclusive));
                }
                (Lock::ACQUIRED, 0)
            },
            Err(seen) => {
                let ghost now = self.memory();
                let r = self.try_lock_internal_slow(seen);
                proof {
                    first.lemma_attempts(
                        now,
                        self.memory(),
                        Opcode::Exclusive,
                        r.0,
                        r.1,
                        now == first && self.pending() == old(self).pending(),
                    );
                }
                r
            },
        }
    }

    /// Resources that are available may be acquired, whatever the other tasks have done.
    proof fn lemma_may_take_all(first: Memory, opcode: Opcode)
        requires
            first.discipline == (Discipline::Limited { limit: 62, poisonable: true }),
            opcode == Opcode::Exclusive || opcode == Opcode::Shared,
        ensures
            forall|mid: Memory| #[trigger]
                first.rely(mid) && mid.tail() == 0 && !WaitQueue::flagged(mid.word)
                    && crate::memory::admits(62, mid.data(), opcode) ==> {
                    &&& mid.word + opcode.held() <= usize::MAX
                    &&& mid.may_swap((mid.word + opcode.held()) as usize)
                    &&& mid.takes(mid.swapped((mid.word + opcode.held()) as usize), opcode)
                    &&& !mid.swapped((mid.word + opcode.held()) as usize).held
                },
    {
        assert forall|mid: Memory| #[trigger]
            first.rely(mid) && mid.tail() == 0 && !WaitQueue::flagged(mid.word)
                && crate::memory::admits(62, mid.data(), opcode) implies {
            &&& mid.word + opcode.held() <= usize::MAX
            &&& mid.may_swap((mid.word + opcode.held()) as usize)
            &&& mid.takes(mid.swapped((mid.word + opcode.held()) as usize), opcode)
            &&& !mid.swapped((mid.word + opcode.held()) as usize).held
        } by {
            WaitQueue::lemma_split(mid.word);
            mid.lemma_may_take((mid.word + opcode.held()) as usize, opcode);
        }
    }

    /// Tries to acquire an exclusive lock, slowly.
    fn try_lock_internal_slow(&mut self, seen: usize) -> (r: (u8, usize))
        requires
            old(self).wf(),
            seen == old(self).memory().word,
        ensures
            final(self).wf(),
            old(self).memory().attempts(
                final(self).memory(),
                Opcode::Exclusive,
                r.0,
                r.1,
                final(self).pending() == old(self).pending(),
            ),
            final(self).pending() <= old(self).pending(),
            final(self).primitive.room() == old(self).primitive.room(),
            final(self).primitive.marks() == old(self).primitive.marks(),
    {
        let ghost first = self.memory();
        let mut seen: usize = seen;
        proof {
            first.lemma_rely_reflexive();
        }
        loop
            invariant
                self.wf(),
                self.pending() <= old(self).pending(),
                self.primitive.room() == old(self).primitive.room(),
                self.primitive.marks() == old(self).primitive.marks(),
                first == old(self).memory(),
                first.wf(),
                first.rely(self.memory()),
                seen == self.memory().word,
                self.memory() != first ==> self.pending() < old(self).pending(),
            decreases self.pending(),
        {
            if seen == Lock::POISONED_STATE {
                return (Lock::POISONED, seen);
            } else if WaitQueue::addr(seen) != 0 || WaitQueue::data(seen) != 0 {
                // There is a waiting thread, so this thread should not acquire the lock.
                return (Lock::NOT_ACQUIRED, seen);
            }
            let ghost now = self.memory();
            proof {
                WaitQueue::lemma_split(seen);
                assert(seen == 0);
                assert(0usize | 63 == 63) by (bit_vector);
                Self::lemma_may_take_all(now, Opcode::Exclusive);
            }
            match self.primitive.compare_exchange(seen, seen | WaitQueue::DATA_MASK) {
                Ok(_) => {
                    proof {
                        let mid = Memory { word: seen, nodes: self.memory().nodes, ..now };
                        first.lemma_rely_transitive(now, mid);
                        assert(first.rely(mid) && mid.takes(self.memory(), Opcode::Exclusive));
                    }
                    return (Lock::ACQUIRED, 0);
                },
                Err(new_state) => {
                    proof {
                        first.lemma_rely_transitive(now, self.memory());
                    }
                    seen = new_state;
                },
            }
        }
    }

    /// Tries to acquire a shared lock.
    pub fn try_share_internal(&mut self) -> (r: (u8, usize))
        requires
            old(self).wf(),
        ensures
            final(self).wf(),
            old(self).memory().attempts(
                final(self).memory(),
                Opcode::Shared,
                r.0,
                r.1,
                final(self).pending() == old(self).pending(),
            ),
            final(self).pending() <= old(self).pending(),
            final(self).primitive.room() == old(self).primitive.room(),
            final(self).primitive.marks() == old(self).primitive.marks(),
    {
        let ghost first = self.memory();
        proof {
            Self::lemma_may_take_all(first, Opcode::Shared);
            WaitQueue::lemma_compose(0, 0, false, 0);
        }
        match self.primitive.compare_exchange(0, 1) {
            Ok(_) => {
                proof {
                    let mid = Memory { word: 0, nodes: self.memory().nodes, ..first };
                    assert(first.rely(mid) && mid.takes(self.memory(), Opcode::Shared));
                }
                (Lock::ACQUIRED, 0)
            },
            Err(seen) => {
                let ghost now = self.memory();
                let r = self.try_share_internal_slow(seen);
                proof {
                    first.lemma_attempts(
                        now,
                        self.memory(),
                        Opcode::Shared,
                        r.0,
                        r.1,
                        now == first && self.pending() == old(self).pending(),
                    );
                }
                r
            },
        }
    }

    /// Tries to acquire a shared lock, slowly.
    fn try_share_internal_slow(&mut self, seen: usize) -> (r: (u8, usize))
        requires
            old(self).wf(),
            seen == old(self).memory().word,
        ensures
            final(self).wf(),
            old(self).memory().attempts(
                final(self).memory(),
                Opcode::Shared,
                r.0,
                r.1,
                final(self).pending() == old(self).pending(),
            ),
            final(self).pending() <= old(self).pending(),
            final(self).primitive.room() == old(self).primitive.room(),
            final(self).primitive.marks() == old(self).primitive.marks(),
    {
        let ghost first = self.memory();
        let mut seen: usize = seen;
        proof {
            first.lemma_rely_reflexive();
        }
        loop
            invariant
                self.wf(),
                self.pending() <= old(self).pending(),
                self.primitive.room() == old(self).primitive.room(),
                self.primitive.marks() == old(self).primitive.marks(),
                first == old(self).memory(),
                first.wf(),
                first.rely(self.memory()),
                seen == self.memory().word,
                self.memory() != first ==> self.pending() < old(self).pending(),
            decreases self.pending(),
        {
            if seen == Lock::POISONED_STATE {
                return (Lock::POISONED, seen);
            } else if WaitQueue::addr(seen) != 0 || WaitQueue::data(seen)
                >= Lock::MAX_SHARED_OWNERS {
                // There is a waiting thread, or the lock can no longer be shared.
                return (Lock::NOT_ACQUIRED, seen);
            }
            let ghost now = self.memory();
            proof {
                WaitQueue::lemma_split(seen);
                Self::lemma_may_take_all(now, Opcode::Shared);
            }
            match self.primitive.compare_exchange(seen, seen + 1) {
                Ok(_) => {
                    proof {
                        let mid = Memory { word: seen, nodes: self.memory().nodes, ..now };
                        first.lemma_rely_transitive(now, mid);
                        assert(first.rely(mid) && mid.takes(self.memory(), Opcode::Shared));
                    }
                    return (Lock::ACQUIRED, 0);
                },
                Err(new_state) => {
                    proof {
                        first.lemma_rely_transitive(now, self.memory());
                    }
                    seen = new_state;
                },
            }
        }
    }

    /// Tries to acquire an exclusive lock.
    ///
    /// Returns `false` if the lock was not free.
    pub fn try_lock(&mut self) -> (r: bool)
        requires
            old(self).wf(),
        ensures
            final(self).wf(),
            r ==> exists|mid: Memory| #[trigger]
                old(self).memory().rely(mid) && mid.takes(final(self).memory(), Opcode::Exclusive),
            !r ==> {
                &&& old(self).memory().rely(final(self).memory())
                &&& final(self).memory().word == 64 || final(self).memory().may_wait(
                    Opcode::Exclusive,
                    final(self).memory().word,
                )
            },
            old(self).pending() == 0 ==> {
                &&& r == (old(self).memory().word == 0)
                &&& final(self).memory() == (if r {
                    old(self).memory().counted(63)
                } else {
                    old(self).memory()
                })
            },
            final(self).pending() <= old(self).pending(),
            final(self).primitive.room() == old(self).primitive.room(),
            final(self).primitive.marks() == old(self).primitive.marks(),
    {
        let ghost first = self.memory();
        let (result, seen) = self.try_lock_internal();
        proof {
            WaitQueue::lemma_split(first.word);
            WaitQueue::lemma_split(seen);
        }
        result == Lock::ACQUIRED
    }

    /// Tries to acquire a shared lock.
    ///
    /// Returns `false` if an exclusive lock is held, the number of shared owners has reached
    /// [`Lock::MAX_SHARED_OWNERS`], or the lock is poisoned.
    pub fn try_share(&mut self) -> (r: bool)
        requires
            old(self).wf(),
        ensures
            final(self).wf(),
            r ==> exists|mid: Memory| #[trigger]
                old(self).memory().rely(mid) && mid.takes(final(self).memory(), Opcode::Shared),
            !r ==> {
                &&& old(self).memory().rely(final(self).memory())
                &&& final(self).memory().word == 64 || final(self).memory().may_wait(
                    Opcode::Shared,
                    final(self).memory().word,
                )
            },
            old(self).pending() == 0 ==> {
                &&& r == (old(self).memory().word < 62)
                &&& final(self).memory() == (if r {
                    old(self).memory().counted((old(self).memory().word + 1) as usize)
                } else {
                    old(self).memory()
                })
            },
            final(self).pending() <= old(self).pending(),
            final(self).primitive.room() == old(self).primitive.room(),
            final(self).primitive.marks() == old(self).primitive.marks(),
    {
        let ghost first = self.memory();
        let (result, seen) = self.try_share_internal();
        proof {
            WaitQueue::lemma_split(first.word);
            WaitQueue::lemma_split(seen);
        }
        result == Lock::ACQUIRED
    }

    /// Acquires an exclusive lock or a shared lock, or starts to wait for it.
    fn acquire_with<F: FnOnce()>(
        &mut self,
        exclusive: bool,
        is_sync: bool,
        begin_wait: F,
    ) -> (r: Acquisition)
        requires
            old(self).wf(),
            old(self).memory().may_block(
                Self::opcode_of(exclusive),
                old(self).pending(),
            ) ==> old(self).primitive.room() > 0,
            old(self).memory().may_block(
                Self::opcode_of(exclusive),
                old(self).pending(),
            ) ==> begin_wait.requires(()),
        ensures
            final(self).wf(),
            old(self).memory().acquires(
                final(self).memory(),
                Self::opcode_of(exclusive),
                r,
                final(self).pending() == old(self).pending(),
            ),
            r is Waiting ==> begin_wait.ensures((), ()),
            final(self).primitive.room() == r.room(old(self).primitive.room()),
            r matches Acquisition::Waiting(entry) ==> final(self).memory().nodes[entry].is_sync
                == is_sync,
            final(self).primitive.marks() == r.marks(old(self).primitive.marks()),
            final(self).pending() <= old(self).pending(),
    {
        let ghost first = self.memory();
        let mut callback: F = begin_wait;
        let mode: Opcode = if exclusive {
            Opcode::Exclusive
        } else {
            Opcode::Shared
        };
        proof {
            first.lemma_rely_reflexive();
        }
        loop
            invariant
                self.wf(),
                first.may_block(mode, old(self).pending()) ==> {
                    &&& old(self).primitive.room() > 0
                    &&& begin_wait.requires(())
                },
                self.primitive.room() == old(self).primitive.room(),
                self.primitive.marks() == old(self).primitive.marks(),
                callback == begin_wait,
                mode == Self::opcode_of(exclusive),
                first == old(self).memory(),
                first.wf(),
                first.rely(self.memory()),
                self.pending() <= old(self).pending(),
                self.memory() != first ==> self.pending() < old(self).pending(),
            decreases self.pending(),
        {
            let ghost now = self.memory();
            let (result, seen) = if exclusive {
                self.try_lock_internal()
            } else {
                self.try_share_internal()
            };
            let ghost tried = self.memory();
            proof {
                first.lemma_attempts(
                    now,
                    tried,
                    mode,
                    result,
                    seen,
                    self.pending() == old(self).pending(),
                );
            }
            if result == Lock::ACQUIRED {
                return Acquisition::Done(true);
            } else if result == Lock::POISONED {
                return Acquisition::Done(false);
            }
            match self.primitive.wait_resources(seen, mode, is_sync, callback) {
                Ok(entry) => {
                    proof {
                        let alone = self.pending() == old(self).pending();
                        assert(first.rely(tried) && tried.may_wait(mode, seen));
                        assert(tried.enqueues(self.memory(), entry, mode, seen, alone));
                    }
                    return Acquisition::Waiting(entry);
                },
                Err(returned) => {
                    proof {
                        first.lemma_rely_transitive(tried, self.memory());
                    }
                    callback = returned;
                },
            }
        }
    }

    /// The operation that acquires a lock.
    pub open spec fn opcode_of(exclusive: bool) -> Opcode {
        if exclusive {
            Opcode::Exclusive
        } else {
            Opcode::Shared
        }
    }

    /// Acquires an exclusive lock asynchronously.
    ///
    /// It is done with `false` if the lock is poisoned. Otherwise, the lock is acquired, or the
    /// task waits for it and will be handed the result.
    pub fn lock_async(&mut self) -> (r: Acquisition)
        requires
            old(self).wf(),
            old(self).memory().may_block(
                Opcode::Exclusive,
                old(self).pending(),
            ) ==> old(self).primitive.room() > 0,
        ensures
            final(self).wf(),
            old(self).memory().acquires(
                final(self).memory(),
                Opcode::Exclusive,
                r,
                final(self).pending() == old(self).pending(),
            ),
            final(self).primitive.room() == r.room(old(self).primitive.room()),
            r matches Acquisition::Waiting(entry) ==> !final(self).memory().nodes[entry].is_sync,
            final(self).primitive.marks() == r.marks(old(self).primitive.marks()),
            final(self).pending() <= old(self).pending(),
    {
        self.lock_async_with(|| {  })
    }

    /// Acquires an exclusive lock asynchronously with a wait callback.
    ///
    /// It is done with `false` if the lock is poisoned. The callback is invoked when the task
    /// starts waiting for a lock.
    pub fn lock_async_with<F: FnOnce()>(&mut self, begin_wait: F) -> (r: Acquisition)
        requires
            old(self).wf(),
            old(self).memory().may_block(
                Opcode::Exclusive,
                old(self).pending(),
            ) ==> old(self).primitive.room() > 0,
            old(self).memory().may_block(
                Opcode::Exclusive,
                old(self).pending(),
            ) ==> begin_wait.requires(()),
        ensures
            final(self).wf(),
            old(self).memory().acquires(
                final(self).memory(),
                Opcode::Exclusive,
                r,
                final(self).pending() == old(self).pending(),
            ),
            r is Waiting ==> begin_wait.ensures((), ()),
            final(self).primitive.room() == r.room(old(self).primitive.room()),
            r matches Acquisition::Waiting(entry) ==> !final(self).memory().nodes[entry].is_sync,
            final(self).primitive.marks() == r.marks(old(self).primitive.marks()),
            final(self).pending() <= old(self).pending(),
    {
        self.acquire_with(true, false, begin_wait)
    }

    /// Acquires an exclusive lock synchronously.
    ///
    /// It is done with `false` if the lock is poisoned. Otherwise, the lock is acquired, or the
    /// task waits for it and will be handed the result.
    pub fn lock_sync(&mut self) -> (r: Acquisition)
        requires
            old(self).wf(),
            old(self).memory().may_block(
                Opcode::Exclusive,
                old(self).pending(),
            ) ==> old(self).primitive.room() > 0,
        ensures
            final(self).wf(),
            old(self).memory().acquires(
                final(self).memory(),
                Opcode::Exclusive,
                r,
                final(self).pending() == old(self).pending(),
            ),
            final(self).primitive.room() == r.room(old(self).primitive.room()),
            r matches Acquisition::Waiting(entry) ==> final(self).memory().nodes[entry].is_sync,
            final(self).primitive.marks() == r.marks(old(self).primitive.marks()),
            final(self).pending() <= old(self).pending(),
    {
        self.lock_sync_with(|| {  })
    }

    /// Acquires an exclusive lock synchronously with a wait callback.
    ///
    /// It is done with `false` if the lock is poisoned. The callback is invoked when the task
    /// starts waiting for a lock.
    pub fn lock_sync_with<F: FnOnce()>(&mut self, begin_wait: F) -> (r: Acquisition)
        requires
            old(self).wf(),
            old(self).memory().may_block(
                Opcode::Exclusive,
                old(self).pending(),
            ) ==> old(self).primitive.room() > 0,
            old(self).memory().may_block(
                Opcode::Exclusive,
                old(self).pending(),
            ) ==> begin_wait.requires(()),
        ensures
            final(self).wf(),
            old(self).memory().acquires(
                final(self).memory(),
                Opcode::Exclusive,
                r,
                final(self).pending() == old(self).pending(),
            ),
            r is Waiting ==> begin_wait.ensures((), ()),
            final(self).primitive.room() == r.room(old(self).primitive.room()),
            r matches Acquisition::Waiting(entry) ==> final(self).memory().nodes[entry].is_sync,
            final(self).primitive.marks() == r.marks(old(self).primitive.marks()),
            final(self).pending() <= old(self).pending(),
    {
        self.acquire_with(true, true, begin_wait)
    }

    /// Acquires a shared lock asynchronously.
    ///
    /// It is done with `false` if the lock is poisoned. Otherwise, the lock is acquired, or the
    /// task waits for it and will be handed the result.
    pub fn share_async(&mut self) -> (r: Acquisition)
        requires
            old(self).wf(),
            old(self).memory().may_block(
                Opcode::Shared,
                old(self).pending(),
            ) ==> old(self).primitive.room() > 0,
        ensures
            final(self).wf(),
            old(self).memory().acquires(
                final(self).memory(),
                Opcode::Shared,
                r,
                final(self).pending() == old(self).pending(),
            ),
            final(self).primitive.room() == r.room(old(self).primitive.room()),
            r matches Acquisition::Waiting(entry) ==> !final(self).memory().nodes[entry].is_sync,
            final(self).primitive.marks() == r.marks(old(self).primitive.marks()),
            final(self).pending() <= old(self).pending(),
    {
        self.share_async_with(|| {  })
    }

    /// Acquires a shared lock asynchronously with a wait callback.
    ///
    /// It is done with `false` if the lock is poisoned. The callback is invoked when the task
    /// starts waiting for a lock.
    pub fn share_async_with<F: FnOnce()>(&mut self, begin_wait: F) -> (r: Acquisition)
        requires
            old(self).wf(),
            old(self).memory().may_block(
                Opcode::Shared,
                old(self).pending(),
            ) ==> old(self).primitive.room() > 0,
            old(self).memory().may_block(
                Opcode::Shared,
                old(self).pending(),
            ) ==> begin_wait.requires(()),
        ensures
            final(self).wf(),
            old(self).memory().acquires(
                final(self).memory(),
                Opcode::Shared,
                r,
                final(self).pending() == old(self).pending(),
            ),
            r is Waiting ==> begin_wait.ensures((), ()),
            final(self).primitive.room() == r.room(old(self).primitive.room()),
            r matches Acquisition::Waiting(entry) ==> !final(self).memory().nodes[entry].is_sync,
            final(self).primitive.marks() == r.marks(old(self).primitive.marks()),
            final(self).pending() <= old(self).pending(),
    {
        self.acquire_with(false, false, begin_wait)
    }

    /// Acquires a shared lock synchronously.
    ///
    /// It is done with `false` if the lock is poisoned. Otherwise, the lock is acquired, or the
    /// task waits for it and will be handed the result.
    pub fn share_sync(&mut self) -> (r: Acquisition)
        requires
            old(self).wf(),
            old(self).memory().may_block(
                Opcode::Shared,
                old(self).pending(),
            ) ==> old(self).primitive.room() > 0,
        ensures
            final(self).wf(),
            old(self).memory().acquires(
                final(self).memory(),
                Opcode::Shared,
                r,
                final(self).pending() == old(self).pending(),
            ),
            final(self).primitive.room() == r.room(old(self).primitive.room()),
            r matches Acquisition::Waiting(entry) ==> final(self).memory().nodes[entry].is_sync,
            final(self).primitive.marks() == r.marks(old(self).primitive.marks()),
            final(self).pending() <= old(self).pending(),
    {
        self.share_sync_with(|| {  })
    }

    /// Acquires a shared lock synchronously with a wait callback.
    ///
    /// It is done with `false` if the lock is poisoned. The callback is invoked when the task
    /// starts waiting for a lock.
    pub fn share_sync_with<F: FnOnce()>(&mut self, begin_wait: F) -> (r: Acquisition)
        requires
            old(self).wf(),
            old(self).memory().may_block(
                Opcode::Shared,
                old(self).pending(),
            ) ==> old(self).primitive.room() > 0,
            old(self).memory().may_block(
                Opcode::Shared,
                old(self).pending(),
            ) ==> begin_wait.requires(()),
        ensures
            final(self).wf(),
            old(self).memory().acquires(
                final(self).memory(),
                Opcode::Shared,
                r,
                final(self).pending() == old(self).pending(),
            ),
            r is Waiting ==> begin_wait.ensures((), ()),
            final(self).primitive.room() == r.room(old(self).primitive.room()),
            r matches Acquisition::Waiting(entry) ==> final(self).memory().nodes[entry].is_sync,
            final(self).primitive.marks() == r.marks(old(self).primitive.marks()),
            final(self).pending() <= old(self).pending(),
    {
        self.acquire_with(false, true, begin_wait)
    }

    /// Releases an exclusive lock.
    ///
    /// Returns `true` if an exclusive lock was previously held and successfully released.
    pub fn release_lock(&mut self) -> (r: bool)
        requires
            old(self).wf(),
        ensures
            final(self).wf(),
            r ==> exists|mid: Memory| #[trigger]
                old(self).memory().rely(mid) && mid.releases(
                    final(self).memory(),
                    Opcode::Exclusive,
                    old(self).pending() == 0,
                ) && (old(self).pending() == 0 ==> mid == old(self).memory()),
            !r ==> {
                &&& old(self).memory().rely(final(self).memory())
                &&& final(self).memory().data() != 63
                &&& old(self).pending() == 0 ==> final(self).memory() == old(self).memory()
            },
            old(self).pending() == 0 ==> r == (old(self).memory().data() == 63),
            final(self).pending() <= old(self).pending(),
            final(self).primitive.room() == old(self).primitive.room(),
            final(self).primitive.marks() == old(self).primitive.marks(),
    {
        self.primitive.release_mode(Opcode::Exclusive)
    }

    /// Releases a shared lock.
    ///
    /// Returns `true` if a shared lock was previously held and successfully released.
    pub fn release_share(&mut self) -> (r: bool)
        requires
            old(self).wf(),
        ensures
            final(self).wf(),
            r ==> exists|mid: Memory| #[trigger]
                old(self).memory().rely(mid) && mid.releases(
                    final(self).memory(),
                    Opcode::Shared,
                    old(self).pending() == 0,
                ) && (old(self).pending() == 0 ==> mid == old(self).memory()),
            !r ==> {
                &&& old(self).memory().rely(final(self).memory())
                &&& final(self).memory().data() == 0 || final(self).memory().data() == 63
                &&& old(self).pending() == 0 ==> final(self).memory() == old(self).memory()
            },
            old(self).pending() == 0 ==> r == (0 < old(self).memory().data() < 63),
            final(self).pending() <= old(self).pending(),
            final(self).primitive.room() == old(self).primitive.room(),
            final(self).primitive.marks() == old(self).primitive.marks(),
    {
        self.primitive.release_mode(Opcode::Shared)
    }

    /// Poisons the lock with an exclusive lock held.
    ///
    /// Returns `false` if an exclusive lock is not held, or the lock was already poisoned.
    pub fn poison_lock(&mut self) -> (r: bool)
        requires
            old(self).wf(),
        ensures
            final(self).wf(),
            r ==> exists|mid: Memory| #[trigger]
                old(self).memory().rely(mid) && mid.poisons(final(self).memory()) && (
                old(self).pending() == 0 ==> mid == old(self).memory()),
            !r ==> {
                &&& old(self).memory().rely(final(self).memory())
                &&& final(self).memory().data() != 63
                &&& old(self).pending() == 0 ==> final(self).memory() == old(self).memory()
            },
            old(self).pending() == 0 ==> r == (old(self).memory().data() == 63),
            final(self).pending() <= old(self).pending(),
            final(self).primitive.room() == old(self).primitive.room(),
            final(self).primitive.marks() == old(self).primitive.marks(),
    {
        let ghost first = self.memory();
        proof {
            Self::lemma_may_poison_all(first);
            WaitQueue::lemma_compose(63, 0, false, 63);
        }
        match self.primitive.compare_exchange(WaitQueue::DATA_MASK, Lock::POISONED_STATE) {
            Ok(_) => {
                proof {
                    let mid = Memory { word: 63, nodes: self.memory().nodes, ..first };
                    assert(mid.queue() =~= Seq::<usize>::empty());
                    assert(first.rely(mid));
                    assert(self.memory().mine =~= mid.mine);
                    reveal(Memory::calls);
                    assert(mid.poisons(self.memory()));
                }
                true
            },
            Err(seen) => {
                let ghost now = self.memory();
                let poisoned: bool = self.poison_lock_internal(seen);
                proof {
                    let alone = old(self).pending() == 0;
                    if poisoned {
                        let mid = choose|mid: Memory| #[trigger]
                            now.rely(mid) && mid.poisons(self.memory()) && (alone ==> mid == now);
                        first.lemma_rely_transitive(now, mid);
                        assert(first.rely(mid) && mid.poisons(self.memory()));
                    } else {
                        first.lemma_rely_transitive(now, self.memory());
                    }
                }
                poisoned
            },
        }
    }

    /// The lock may be poisoned, whatever the other tasks have done.
    proof fn lemma_may_poison_all(first: Memory)
        requires
            first.discipline is Limited,
            first.discipline->poisonable,
        ensures
            forall|mid: Memory| #[trigger]
                first.rely(mid) && !WaitQueue::flagged(mid.word) ==> {
                    &&& mid.may_swap(64)
                    &&& mid.swapped(64).queue() == Seq::<usize>::empty()
                    &&& mid.swapped(64) == mid.emptied(64)
                    &&& mid.swapped(64).owns(mid.tail(), mid.queue())
                },
    {
        WaitQueue::lemma_compose(64, 0, true, 0);
        assert forall|mid: Memory| #[trigger]
            first.rely(mid) && !WaitQueue::flagged(mid.word) implies {
            &&& mid.may_swap(64)
            &&& mid.swapped(64).queue() == Seq::<usize>::empty()
            &&& mid.swapped(64) == mid.emptied(64)
            &&& mid.swapped(64).owns(mid.tail(), mid.queue())
        } by {
            mid.lemma_may_empty(64);
        }
    }

    /// Poisons the lock.
    fn poison_lock_internal(&mut self, seen: usize) -> (r: bool)
        requires
            old(self).wf(),
            seen == old(self).memory().word,
        ensures
            final(self).wf(),
            r ==> exists|mid: Memory| #[trigger]
                old(self).memory().rely(mid) && mid.poisons(final(self).memory()) && (
                old(self).pending() == 0 ==> mid == old(self).memory()),
            !r ==> {
                &&& old(self).memory().rely(final(self).memory())
                &&& final(self).memory().data() != 63
                &&& old(self).pending() == 0 ==> final(self).memory() == old(self).memory()
            },
            final(self).pending() <= old(self).pending(),
            final(self).primitive.room() == old(self).primitive.room(),
            final(self).primitive.marks() == old(self).primitive.marks(),
    {
        let ghost first = self.memory();
        let mut seen: usize = seen;
        proof {
            first.lemma_rely_reflexive();
        }
        loop
            invariant
                self.wf(),
                self.pending() <= old(self).pending(),
                self.primitive.room() == old(self).primitive.room(),
                self.primitive.marks() == old(self).primitive.marks(),
                first == old(self).memory(),
                first.wf(),
                first.rely(self.memory()),
                seen == self.memory().word,
                self.memory() != first ==> self.pending() < old(self).pending(),
            decreases self.pending(),
        {
            let ghost now = self.memory();
            if seen == Lock::POISONED_STATE || WaitQueue::data(seen) != WaitQueue::DATA_MASK {
                // Already poisoned or the lock is not held exclusively by the current thread.
                return false;
            }
            if WaitQueue::locked(seen) {
                // This only happens when an asynchronous task is being cancelled.
                self.primitive.yield_now();
                let ghost then = self.memory();
                seen = self.primitive.load();
                proof {
                    first.lemma_rely_transitive(now, then);
                    first.lemma_rely_transitive(then, self.memory());
                }
                continue;
            }
            proof {
                Self::lemma_may_poison_all(now);
            }
            match self.primitive.compare_exchange(seen, Lock::POISONED_STATE) {
                Ok(prev_state) => {
                    let ghost mid = Memory { word: seen, nodes: self.memory().nodes, ..now };
                    let ghost poisoned = self.memory();
                    proof {
                        first.lemma_rely_transitive(now, mid);
                    }
                    let tail: usize = WaitQueue::to_anchor_ptr(prev_state);
                    self.primitive.deliver(tail, Lock::POISONED, Ghost(mid.queue()));
                    proof {
                        mid.lemma_dismisses(self.memory(), 64, 2);
                        assert(self.memory().discipline == mid.discipline);
                    }
                    return true;
                },
                Err(new_state) => {
                    proof {
                        first.lemma_rely_transitive(now, self.memory());
                    }
                    seen = new_state;
                },
            }
        }
    }

    /// Clears poison from the lock.
    ///
    /// Returns `true` if the lock was successfully cleared.
    pub fn clear_poison(&mut self) -> (r: bool)
        requires
            old(self).wf(),
        ensures
            final(self).wf(),
            r ==> exists|mid: Memory| #[trigger]
                old(self).memory().rely(mid) && mid.word == 64 && final(self).memory()
                    == mid.counted(0) && (old(self).pending() == 0 ==> mid == old(self).memory()),
            !r ==> {
                &&& old(self).memory().rely(final(self).memory())
                &&& final(self).memory().word != 64
                &&& old(self).pending() == 0 ==> final(self).memory() == old(self).memory()
            },
            old(self).pending() == 0 ==> r == (old(self).memory().word == 64),
            final(self).pending() <= old(self).pending(),
            final(self).primitive.room() == old(self).primitive.room(),
            final(self).primitive.marks() == old(self).primitive.marks(),
    {
        let ghost first = self.memory();
        proof {
            assert forall|mid: Memory| #[trigger]
                first.rely(mid) && mid.word == 64 implies mid.may_swap(
                0,
            ) && mid.swapped(0) == mid.counted(0) by {
                mid.lemma_may_clear();
            }
        }
        let cleared: bool = self.primitive.compare_exchange(Lock::POISONED_STATE, 0).is_ok();
        proof {
            if cleared {
                let mid = Memory { word: 64, nodes: self.memory().nodes, ..first };
                assert(first.rely(mid));
            }
        }
        cleared
    }

    /// Checks if the lock is available to a task that waits for it without acquiring it.
    fn try_wait_internal(&mut self, mode: Mode) -> (r: (u8, usize))
        requires
            old(self).wf(),
            mode is WaitExclusive || mode is WaitShared,
        ensures
            final(self).wf(),
            old(self).memory().rely(final(self).memory()),
            r.1 == final(self).memory().word,
            r.0 == (if r.1 == 64 {
                2u8
            } else if final(self).memory().available(r.1, mode.opcode()) {
                0
            } else {
                1
            }),
            final(self).pending() <= old(self).pending(),
            final(self).memory() != old(self).memory() ==> final(self).pending()
                < old(self).pending(),
            final(self).primitive.room() == old(self).primitive.room(),
            final(self).primitive.marks() == old(self).primitive.marks(),
    {
        let seen: usize = self.primitive.load();
        let data: usize = WaitQueue::data(seen);
        let result: u8 = if seen == Lock::POISONED_STATE {
            Lock::POISONED
        } else if (mode == Mode::WaitExclusive && data == 0) || (mode == Mode::WaitShared && data
            < Lock::MAX_SHARED_OWNERS) {
            // If a lock is available, return immediately.
            Lock::ACQUIRED
        } else {
            Lock::NOT_ACQUIRED
        };
        (result, seen)
    }

    /// Registers a [`Pager`] to allow it to get an exclusive lock or a shared lock remotely.
    ///
    /// `is_sync` indicates whether the [`Pager`] will be polled asynchronously (`false`) or
    /// synchronously (`true`).
    ///
    /// Returns `false` if the [`Pager`] was already registered.
    #[verifier::spinoff_prover]
    #[verifier::rlimit(40)]
    pub fn register_pager(&mut self, pager: &mut Pager, mode: Mode, is_sync: bool) -> (r: bool)
        requires
            old(self).wf(),
            old(pager).entry() is None ==> old(self).primitive.room() > 0,
        ensures
            final(self).wf(),
            r == old(pager).entry() is None,
            !r ==> *final(pager) == *old(pager) && *final(self) == *old(self),
            r ==> {
                &&& final(pager).entry() is Some
                &&& final(pager).synchronous() == is_sync
                &&& final(pager).wf(final(self).memory())
                &&& !final(pager).acked()
                &&& !old(self).primitive.marks().contains(final(pager).entry()->0)
                &&& final(pager).marks(final(self).memory(), old(self).primitive.marks())
                    == final(self).primitive.marks()
                &&& old(self).memory().registers(
                    final(self).memory(),
                    final(pager).entry()->0,
                    mode.opcode(),
                    final(self).pending() == old(self).pending(),
                )
            },
            r && mode is WaitShared && final(self).pending() == old(self).pending() ==> (
            final(self).memory().nodes[final(pager).entry()->0].result == Some(0u8) <==> old(
                self,
            ).memory().word != 64 && old(self).memory().word % 64 < 62),
            r && mode is WaitExclusive && final(self).pending() == old(self).pending() ==> (
            final(self).memory().nodes[final(pager).entry()->0].result == Some(0u8) <==> old(
                self,
            ).memory().word != 64 && old(self).memory().word % 64 == 0),
            final(self).primitive.room() == old(self).primitive.room() - (if r {
                1int
            } else {
                0
            }),
            final(self).pending() <= old(self).pending(),
    {
        if pager.is_registered() {
            return false;
        }
        let opcode: Opcode = match mode {
            Mode::Exclusive => Opcode::Exclusive,
            Mode::Shared => Opcode::Shared,
            Mode::WaitExclusive => Opcode::Wait(63),
            Mode::WaitShared => Opcode::Wait(1),
        };
        let ghost first = self.memory();
        let entry: usize = self.primitive.construct(opcode, is_sync);
        let ghost made = self.memory();
        proof {
            first.lemma_prepares(entry, opcode, is_sync);
        }
        pager.set_entry(entry, is_sync);
        loop
            invariant
                self.wf(),
                opcode == mode.opcode(),
                first == old(self).memory(),
                first.wf(),
                first.spare == Tally::none(),
                !first.held,
                first.discipline == (Discipline::Limited { limit: 62, poisonable: true }),
                first.prepares(self.memory(), entry, opcode),
                self.memory().nodes[entry].is_sync == is_sync,
                self.memory().added == first.added,
                self.memory().received == first.received,
                self.memory().delivered == first.delivered,
                self.primitive.room() == old(self).primitive.room() - 1,
                self.primitive.marks() == old(self).primitive.marks(),
                !old(self).primitive.marks().contains(entry),
                old(pager).entry() is None,
                pager.entry() == Some(entry),
                pager.synchronous() == is_sync,
                !pager.acked(),
                self.pending() <= old(self).pending(),
                self.pending() == old(self).pending() ==> first.untouched(self.memory(), entry),
            decreases self.pending(),
        {
            let ghost now = self.memory();
            let ghost before = self.pending();
            let (result, seen) = match mode {
                Mode::Exclusive => self.try_lock_internal(),
                Mode::Shared => self.try_share_internal(),
                Mode::WaitExclusive | Mode::WaitShared => self.try_wait_internal(mode),
            };
            let ghost alone = self.pending() == old(self).pending();
            proof {
                assert(now.mine.contains(entry));
                if opcode is Wait {
                    first.lemma_prepares_rely(now, self.memory(), entry, opcode);
                } else {
                    first.lemma_tried(now, self.memory(), entry, opcode, result, seen, alone);
                }
            }
            if self.primitive.try_register(entry, result, seen, Ghost(first), Ghost(alone)) {
                return true;
            }
        }
    }

    /// Describes the lock.
    pub fn status(&self) -> (r: Status)
        requires
            self.wf(),
        ensures
            r == Self::status_of(r.state),
            exists|mid: Memory| #[trigger]
                self.memory().rely(mid) && (self.pending() == 0 ==> mid == self.memory())
                    && r.state == mid.word,
    {
        let state: usize = self.primitive.peek(Ordering::Relaxed);
        let lock_share_state: usize = WaitQueue::data(state);
        let locked: bool = lock_share_state == WaitQueue::DATA_MASK;
        Status {
            state,
            locked,
            share_count: if locked {
                0
            } else {
                lock_share_state
            },
            poisoned: state == Lock::POISONED_STATE,
            wait_queue_being_processed: WaitQueue::locked(state),
            wait_queue_tail_addr: WaitQueue::addr(state),
        }
    }

    /// What a state word tells of a lock.
    pub open spec fn status_of(word: usize) -> Status {
        Status {
            state: word,
            locked: WaitQueue::data_of(word) == 63,
            share_count: if WaitQueue::data_of(word) == 63 {
                0
            } else {
                word % 64
            },
            poisoned: word == 64,
            wait_queue_being_processed: WaitQueue::flagged(word),
            wait_queue_tail_addr: WaitQueue::addr_of(word),
        }
    }
}

impl Default for Lock {
    fn default() -> (r: Self)
        ensures
            r.wf(),
            r.pending() == 0,
            r.memory().word == 0,
            r.memory().queue() == Seq::<usize>::empty(),
            r.memory() == Memory::fresh(r.memory().word, r.memory().discipline),
            r.primitive.room() == usize::MAX / 128,
            r.primitive.room() > 0,
            r.primitive.marks() == Set::<usize>::empty(),
    {
        Lock { primitive: Arena::new(Policy::Limited(62, true), 0) }
    }
}

impl<S: SyncPrimitive> SyncResult for Lock<S> {
    type Result = Result<bool, pager::Error>;

    open spec fn interpret(value: u8, pager_error: Option<pager::Error>) -> Self::Result {
        match pager_error {
            Some(error) => Err(error),
            None => Ok(value == 0),
        }
    }

    fn to_result(value: u8, pager_error: Option<pager::Error>) -> (r: Self::Result) {
        match pager_error {
            Some(error) => Err(error),
            None => Ok(value == Lock::ACQUIRED),
        }
    }
}

impl<S: SyncPrimitive> PagerHost for Lock<S> {
    open spec fn sound(&self) -> bool {
        self.wf()
    }

    open spec fn shared(&self) -> Memory {
        self.memory()
    }

    open spec fn turns(&self) -> nat {
        self.pending()
    }

    open spec fn marks(&self) -> Entries {
        self.primitive.marks()
    }

    open spec fn room(&self) -> Room {
        self.primitive.room()
    }

    open spec fn drops(memory: Memory, new: Memory, entry: usize, alone: bool) -> bool {
        memory.cleans_up(new, entry, alone)
    }

    proof fn lemma_sound(&self) {
    }

    fn acknowledge(&mut self, entry: usize) -> (r: Option<u8>) {
        self.primitive.try_acknowledge_result(entry)
    }

    fn discard(&mut self, entry: usize) {
        self.primitive.discard(entry);
    }

    fn drop_wait_queue_entry(&mut self, entry: usize) {
        self.primitive.force_remove_wait_queue_entry(entry);
    }
}

impl Mode {
    /// The operation that the mode stands for.
    pub open spec fn opcode(self) -> Opcode {
        match self {
            Mode::Exclusive => Opcode::Exclusive,
            Mode::Shared => Opcode::Shared,
            Mode::WaitExclusive => Opcode::Wait(63),
            Mode::WaitShared => Opcode::Wait(1),
        }
    }
}

} // verus!
