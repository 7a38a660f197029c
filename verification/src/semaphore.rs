//! [`Semaphore`] is a synchronization primitive that allows a fixed number of threads to access a
//! resource concurrently.
use std::sync::atomic::Ordering;

use vstd::prelude::*;

use crate::arena::Arena;
use crate::arena::Policy;
use crate::memory::Discipline;
use crate::memory::Entries;
use crate::memory::Memory;
use crate::memory::Room;
use crate::memory::Tally;
use crate::opcode::Opcode;
use crate::pager;
use crate::pager::Pager;
use crate::pager::PagerHost;
use crate::pager::SyncResult;
use crate::sync_primitive::Acquisition;
use crate::sync_primitive::SyncPrimitive;
use crate::wait_queue::WaitQueue;

verus! {

/// [`Semaphore`] is a synchronization primitive that allows a fixed number of threads to access a
/// resource concurrently.
pub struct Semaphore<S: SyncPrimitive = Arena> {
    /// [`Semaphore`] state.
    pub primitive: S,
}

/// What is known of a [`Semaphore`] at a moment, for diagnostic purposes.
#[derive(Clone, Copy, Debug, Eq, PartialEq, Structural)]
pub struct Status {
    /// State word.
    pub state: usize,
    /// The number of available permits.
    pub available_permits: usize,
    /// The wait queue is being processed.
    pub wait_queue_being_processed: bool,
    /// Address of the newest wait queue entry.
    pub wait_queue_tail_addr: usize,
}

impl Semaphore {
    /// Maximum number of concurrent owners.
    pub const MAX_PERMITS: usize = 63;

    /// Creates a new [`Semaphore`] with the given number of initially available permits.
    ///
    /// The maximum number of available permits is [`MAX_PERMITS`](Self::MAX_PERMITS), and if a
    /// value greater than or equal to [`MAX_PERMITS`](Self::MAX_PERMITS) is provided, it will be
    /// set to [`MAX_PERMITS`](Self::MAX_PERMITS).
    #[must_use]
    pub fn with_permits(permits: usize) -> (r: Self)
        ensures
            r.wf(),
            r.pending() == 0,
            r.available() == (if permits < 63 {
                permits as int
            } else {
                63
            }),
            r.memory().queue() == Seq::<usize>::empty(),
            r.memory().word == 63 - r.available(),
            r.memory() == Memory::fresh(r.memory().word, r.memory().discipline),
            r.primitive.room() == usize::MAX / 128,
            r.primitive.room() > 0,
            r.primitive.marks() == Set::<usize>::empty(),
    {
        let adjusted_permits: usize = if permits < Self::MAX_PERMITS {
            permits
        } else {
            Self::MAX_PERMITS
        };
        Semaphore {
            primitive: Arena::new(
                Policy::Limited(63, false),
                Self::MAX_PERMITS - adjusted_permits,
            ),
        }
    }
}

impl Default for Semaphore {
    fn default() -> (r: Self)
        ensures
            r.wf(),
            r.pending() == 0,
            r.available() == 63,
            r.memory().queue() == Seq::<usize>::empty(),
            r.memory().word == 63 - r.available(),
            r.memory() == Memory::fresh(r.memory().word, r.memory().discipline),
            r.primitive.room() == usize::MAX / 128,
            r.primitive.room() > 0,
            r.primitive.marks() == Set::<usize>::empty(),
    {
        Semaphore::with_permits(Semaphore::MAX_PERMITS)
    }
}

impl<S: SyncPrimitive> Semaphore<S> {
    /// The semaphore is consistent, and its wait queue is not being processed by the current task.
    pub open spec fn wf(&self) -> bool {
        &&& self.primitive.memory().ok(self.primitive.pending())
        &&& self.primitive.memory().discipline == (Discipline::Limited {
            limit: 63,
            poisonable: false,
        })
        &&& self.primitive.memory().spare == Tally::none()
        &&& !self.primitive.memory().held
    }

    /// The memory of the semaphore.
    pub open spec fn memory(&self) -> Memory {
        self.primitive.memory()
    }

    /// The number of times other tasks may still intervene.
    pub open spec fn pending(&self) -> nat {
        self.primitive.pending()
    }

    /// The number of available permits.
    pub open spec fn available(&self) -> int {
        63 - self.memory().data()
    }

    /// The operation that acquires the given number of permits.
    ///
    /// A task that asks for more permits than there are waits for one more than there are.
    pub open spec fn permits(number: usize) -> Opcode {
        Opcode::Semaphore(
            if number <= 63 {
                number as u8
            } else {
                64
            },
        )
    }

    /// Returns `true` if the semaphore is currently open.
    pub fn is_open(&self, mo: Ordering) -> (r: bool)
        requires
            self.wf(),
        ensures
            exists|mid: Memory| #[trigger]
                self.memory().rely(mid) && (self.pending() == 0 ==> mid == self.memory())
                    && r == (mid.data() < 63),
    {
        WaitQueue::data(self.primitive.peek(mo)) != Semaphore::MAX_PERMITS
    }

    /// Returns `true` if the semaphore is currently closed.
    pub fn is_closed(&self, mo: Ordering) -> (r: bool)
        requires
            self.wf(),
        ensures
            exists|mid: Memory| #[trigger]
                self.memory().rely(mid) && (self.pending() == 0 ==> mid == self.memory())
                    && r == (mid.data() == 63),
    {
        WaitQueue::data(self.primitive.peek(mo)) == WaitQueue::DATA_MASK
    }

    /// Returns the number of available permits.
    pub fn available_permits(&self, mo: Ordering) -> (r: usize)
        requires
            self.wf(),
        ensures
            r <= 63,
            exists|mid: Memory| #[trigger]
                self.memory().rely(mid) && (self.pending() == 0 ==> mid == self.memory())
                    && r == 63 - mid.data(),
    {
        Semaphore::MAX_PERMITS - WaitQueue::data(self.primitive.peek(mo))
    }

    /// Tries to acquire permits.
    ///
    /// Returns `1` together with the state if there is a waiting task, or the permits are not
    /// available.
    fn try_acquire_internal(&mut self, permits: u8) -> (r: (u8, usize))
        requires
            old(self).wf(),
            permits <= 64,
        ensures
            final(self).wf(),
            r.0 != 2,
            old(self).memory().attempts(
                final(self).memory(),
                Opcode::Semaphore(permits),
                r.0,
                r.1,
                final(self).pending() == old(self).pending(),
            ),
            final(self).pending() <= old(self).pending(),
            final(self).primitive.room() == old(self).primitive.room(),
            final(self).primitive.marks() == old(self).primitive.marks(),
    {
        let ghost first = self.memory();
        let ghost opcode = Opcode::Semaphore(permits);
        let mut seen: usize = self.primitive.load();
        loop
            invariant
                self.wf(),
                permits <= 64,
                opcode == Opcode::Semaphore(permits),
                self.pending() <= old(self).pending(),
                self.primitive.room() == old(self).primitive.room(),
                self.primitive.marks() == old(self).primitive.marks(),
                first == old(self).memory(),
                first.wf(),
                first.rely(self.memory()),
                seen == self.memory().word,
                self.memory() != first ==> self.pending() < old(self).pending(),
            decreases self.pending(),
        {
            if WaitQueue::addr(seen) != 0 || WaitQueue::data(seen) + permits as usize
                > Semaphore::MAX_PERMITS {
                // There is a waiting thread, or the semaphore can no longer be shared.
                return (1, seen);
            }
            let ghost now = self.memory();
            proof {
                WaitQueue::lemma_split(seen);
                assert forall|mid: Memory| #[trigger] now.rely(mid) && mid.word == seen implies {
                    &&& mid.may_swap((seen + permits) as usize)
                    &&& mid.takes(mid.swapped((seen + permits) as usize), opcode)
                    &&& !mid.swapped((seen + permits) as usize).held
                } by {
                    mid.lemma_may_take((seen + permits) as usize, opcode);
                }
            }
            match self.primitive.compare_exchange(seen, seen + permits as usize) {
                Ok(_) => {
                    proof {
                        let mid = Memory { word: seen, nodes: self.memory().nodes, ..now };
                        first.lemma_rely_transitive(now, mid);
                        assert(first.rely(mid) && mid.takes(self.memory(), opcode));
                    }
                    return (0, 0);
                },
                Err(new_state) => {
                    proof {
                        first.lemma_rely_transitive(now, self.memory());
                    }
                    seen = new_state;
                },
            }
        }
    }

    /// Tries to get a permit from the semaphore.
    ///
    /// Returns `false` if no permits are available.
    pub fn try_acquire(&mut self) -> (r: bool)
        requires
            old(self).wf(),
        ensures
            final(self).wf(),
            r ==> exists|mid: Memory| #[trigger]
                old(self).memory().rely(mid) && mid.takes(
                    final(self).memory(),
                    Opcode::Semaphore(1),
                ),
            !r ==> {
                &&& old(self).memory().rely(final(self).memory())
                &&& final(self).memory().may_wait(
                    Opcode::Semaphore(1),
                    final(self).memory().word,
                )
            },
            old(self).pending() == 0 ==> {
                &&& r == (old(self).memory().word < 63)
                &&& final(self).memory() == (if r {
                    old(self).memory().counted((old(self).memory().word + 1) as usize)
                } else {
                    old(self).memory()
                })
            },
            final(self).pending() <= old(self).pending(),
            final(self).primitive.room() == old(self).primitive.room(),
            final(self).primitive.marks() == old(self).primitive.marks(),
    {
        let ghost first = self.memory();
        let (result, seen) = self.try_acquire_internal(1);
        proof {
            WaitQueue::lemma_split(first.word);
            WaitQueue::lemma_split(seen);
        }
        result == 0
    }

    /// Tries to get multiple permits from the semaphore.
    ///
    /// Returns `false` if the permits are not available, or if the count is greater than the
    /// maximum number of permits.
    pub fn try_acquire_many(&mut self, count: usize) -> (r: bool)
        requires
            old(self).wf(),
        ensures
            final(self).wf(),
            r ==> count <= 63 && exists|mid: Memory| #[trigger]
                old(self).memory().rely(mid) && mid.takes(
                    final(self).memory(),
                    Self::permits(count),
                ),
            !r && count <= 63 ==> {
                &&& old(self).memory().rely(final(self).memory())
                &&& final(self).memory().may_wait(
                    Self::permits(count),
                    final(self).memory().word,
                )
            },
            count > 63 ==> *final(self) == *old(self),
            old(self).pending() == 0 ==> {
                &&& r == (old(self).memory().word + count <= 63)
                &&& final(self).memory() == (if r {
                    Self::taken(old(self).memory(), count)
                } else {
                    old(self).memory()
                })
            },
            final(self).pending() <= old(self).pending(),
            final(self).primitive.room() == old(self).primitive.room(),
            final(self).primitive.marks() == old(self).primitive.marks(),
    {
        if count > Semaphore::MAX_PERMITS {
            return false;
        }
        let ghost first = self.memory();
        let (result, seen) = self.try_acquire_internal(Self::narrow(count));
        proof {
            WaitQueue::lemma_split(first.word);
            WaitQueue::lemma_split(seen);
        }
        result == 0
    }

    /// The memory after permits were acquired.
    pub open spec fn taken(memory: Memory, number: usize) -> Memory {
        memory.counted((memory.word + number) as usize)
    }

    /// Converts a number of permits.
    fn narrow(permits: usize) -> (r: u8)
        ensures
            r == (if permits <= 63 {
                permits as int
            } else {
                64
            }),
            Opcode::Semaphore(r) == Self::permits(permits),
    {
        if permits <= Semaphore::MAX_PERMITS {
            permits as u8
        } else {
            64
        }
    }

    /// Acquires permits, or starts to wait for them.
    fn acquire_many_with<F: FnOnce()>(
        &mut self,
        count: usize,
        is_sync: bool,
        begin_wait: F,
    ) -> (r: Acquisition)
        requires
            old(self).wf(),
            old(self).memory().may_block(
                Self::permits(count),
                old(self).pending(),
            ) ==> old(self).primitive.room() > 0,
            old(self).memory().may_block(
                Self::permits(count),
                old(self).pending(),
            ) ==> begin_wait.requires(()),
        ensures
            final(self).wf(),
            r != Acquisition::Done(false),
            count > 63 ==> r is Waiting,
            old(self).memory().acquires(
                final(self).memory(),
                Self::permits(count),
                r,
                final(self).pending() == old(self).pending(),
            ),
            r is Waiting ==> begin_wait.ensures((), ()),
            final(self).primitive.room() == r.room(old(self).primitive.room()),
            r matches Acquisition::Waiting(entry) ==> final(self).memory().nodes[entry].is_sync
                == is_sync,
            final(self).primitive.marks() == r.marks(old(self).primitive.marks()),
            final(self).pending() <= old(self).pending(),
    {
        let ghost first = self.memory();
        let mut callback: F = begin_wait;
        let permits: u8 = Self::narrow(count);
        let mode: Opcode = Opcode::Semaphore(permits);
        proof {
            first.lemma_rely_reflexive();
        }
        loop
            invariant
                self.wf(),
                first.may_block(mode, old(self).pending()) ==> {
                    &&& old(self).primitive.room() > 0
                    &&& begin_wait.requires(())
                },
                self.primitive.room() == old(self).primitive.room(),
                self.primitive.marks() == old(self).primitive.marks(),
                callback == begin_wait,
                permits <= 64,
                mode == Opcode::Semaphore(permits),
                mode == Self::permits(count),
                first == old(self).memory(),
                first.wf(),
                first.rely(self.memory()),
                self.pending() <= old(self).pending(),
                self.memory() != first ==> self.pending() < old(self).pending(),
            decreases self.pending(),
        {
            let ghost now = self.memory();
            let (result, seen) = self.try_acquire_internal(permits);
            let ghost tried = self.memory();
            proof {
                first.lemma_attempts(
                    now,
                    tried,
                    mode,
                    result,
                    seen,
                    self.pending() == old(self).pending(),
                );
            }
            if result == 0 {
                return Acquisition::Done(true);
            }
            match self.primitive.wait_resources(seen, mode, is_sync, callback) {
                Ok(entry) => {
                    proof {
                        let alone = self.pending() == old(self).pending();
                        assert(first.rely(tried) && tried.may_wait(mode, seen));
                        assert(tried.enqueues(self.memory(), entry, mode, seen, alone));
                    }
                    return Acquisition::Waiting(entry);
                },
                Err(returned) => {
                    proof {
                        first.lemma_rely_transitive(tried, self.memory());
                    }
                    callback = returned;
                },
            }
        }
    }

    /// Gets a permit from the semaphore asynchronously.
    pub fn acquire_async(&mut self) -> (r: Acquisition)
        requires
            old(self).wf(),
            old(self).memory().may_block(
                Opcode::Semaphore(1),
                old(self).pending(),
            ) ==> old(self).primitive.room() > 0,
        ensures
            final(self).wf(),
            r != Acquisition::Done(false),
            old(self).memory().acquires(
                final(self).memory(),
                Opcode::Semaphore(1),
                r,
                final(self).pending() == old(self).pending(),
            ),
            final(self).primitive.room() == r.room(old(self).primitive.room()),
            r matches Acquisition::Waiting(entry) ==> !final(self).memory().nodes[entry].is_sync,
            final(self).primitive.marks() == r.marks(old(self).primitive.marks()),
            final(self).pending() <= old(self).pending(),
    {
        self.acquire_async_with(|| {  })
    }

    /// Gets a permit from the semaphore asynchronously with a wait callback provided.
    ///
    /// The callback is invoked when the task starts waiting for a permit.
    pub fn acquire_async_with<F: FnOnce()>(&mut self, begin_wait: F) -> (r: Acquisition)
        requires
            old(self).wf(),
            old(self).memory().may_block(
                Opcode::Semaphore(1),
                old(self).pending(),
            ) ==> old(self).primitive.room() > 0,
            old(self).memory().may_block(
                Opcode::Semaphore(1),
                old(self).pending(),
            ) ==> begin_wait.requires(()),
        ensures
            final(self).wf(),
            r != Acquisition::Done(false),
            old(self).memory().acquires(
                final(self).memory(),
                Opcode::Semaphore(1),
                r,
                final(self).pending() == old(self).pending(),
            ),
            r is Waiting ==> begin_wait.ensures((), ()),
            final(self).primitive.room() == r.room(old(self).primitive.room()),
            r matches Acquisition::Waiting(entry) ==> !final(self).memory().nodes[entry].is_sync,
            final(self).primitive.marks() == r.marks(old(self).primitive.marks()),
            final(self).pending() <= old(self).pending(),
    {
        self.acquire_many_with(1, false, begin_wait)
    }

    /// Gets a permit from the semaphore synchronously.
    pub fn acquire_sync(&mut self) -> (r: Acquisition)
        requires
            old(self).wf(),
            old(self).memory().may_block(
                Opcode::Semaphore(1),
                old(self).pending(),
            ) ==> old(self).primitive.room() > 0,
        ensures
            final(self).wf(),
            r != Acquisition::Done(false),
            old(self).memory().acquires(
                final(self).memory(),
                Opcode::Semaphore(1),
                r,
                final(self).pending() == old(self).pending(),
            ),
            final(self).primitive.room() == r.room(old(self).primitive.room()),
            r matches Acquisition::Waiting(entry) ==> final(self).memory().nodes[entry].is_sync,
            final(self).primitive.marks() == r.marks(old(self).primitive.marks()),
            final(self).pending() <= old(self).pending(),
    {
        self.acquire_sync_with(|| {  })
    }

    /// Gets a permit from the semaphore synchronously with a wait callback provided.
    ///
    /// The callback is invoked when the task starts waiting for a permit.
    pub fn acquire_sync_with<F: FnOnce()>(&mut self, begin_wait: F) -> (r: Acquisition)
        requires
            old(self).wf(),
            old(self).memory().may_block(
                Opcode::Semaphore(1),
                old(self).pending(),
            ) ==> old(self).primitive.room() > 0,
            old(self).memory().may_block(
                Opcode::Semaphore(1),
                old(self).pending(),
            ) ==> begin_wait.requires(()),
        ensures
            final(self).wf(),
            r != Acquisition::Done(false),
            old(self).memory().acquires(
                final(self).memory(),
                Opcode::Semaphore(1),
                r,
                final(self).pending() == old(self).pending(),
            ),
            r is Waiting ==> begin_wait.ensures((), ()),
            final(self).primitive.room() == r.room(old(self).primitive.room()),
            r matches Acquisition::Waiting(entry) ==> final(self).memory().nodes[entry].is_sync,
            final(self).primitive.marks() == r.marks(old(self).primitive.marks()),
            final(self).pending() <= old(self).pending(),
    {
        self.acquire_many_with(1, true, begin_wait)
    }

    /// Gets multiple permits from the semaphore asynchronously.
    ///
    /// A task that asks for more than the maximum number of permits waits for ever, and so do those
    /// that start to wait after it, until it gives up.
    pub fn acquire_many_async(&mut self, count: usize) -> (r: Acquisition)
        requires
            old(self).wf(),
            old(self).memory().may_block(
                Self::permits(count),
                old(self).pending(),
            ) ==> old(self).primitive.room() > 0,
        ensures
            final(self).wf(),
            r != Acquisition::Done(false),
            count > 63 ==> r is Waiting,
            old(self).memory().acquires(
                final(self).memory(),
                Self::permits(count),
                r,
                final(self).pending() == old(self).pending(),
            ),
            final(self).primitive.room() == r.room(old(self).primitive.room()),
            r matches Acquisition::Waiting(entry) ==> !final(self).memory().nodes[entry].is_sync,
            final(self).primitive.marks() == r.marks(old(self).primitive.marks()),
            final(self).pending() <= old(self).pending(),
    {
        self.acquire_many_async_with(count, || {  })
    }

    /// Gets multiple permits from the semaphore asynchronously with a wait callback provided.
    ///
    /// The callback is invoked when the task starts waiting for permits.
    ///
    /// A task that asks for more than the maximum number of permits waits for ever, and so do those
    /// that start to wait after it, until it gives up.
    pub fn acquire_many_async_with<F: FnOnce()>(&mut self, count: usize, begin_wait: F) -> (r: Acquisition)
        requires
            old(self).wf(),
            old(self).memory().may_block(
                Self::permits(count),
                old(self).pending(),
            ) ==> old(self).primitive.room() > 0,
            old(self).memory().may_block(
                Self::permits(count),
                old(self).pending(),
            ) ==> begin_wait.requires(()),
        ensures
            final(self).wf(),
            r != Acquisition::Done(false),
            count > 63 ==> r is Waiting,
            old(self).memory().acquires(
                final(self).memory(),
                Self::permits(count),
                r,
                final(self).pending() == old(self).pending(),
            ),
            r is Waiting ==> begin_wait.ensures((), ()),
            final(self).primitive.room() == r.room(old(self).primitive.room()),
            r matches Acquisition::Waiting(entry) ==> !final(self).memory().nodes[entry].is_sync,
            final(self).primitive.marks() == r.marks(old(self).primitive.marks()),
            final(self).pending() <= old(self).pending(),
    {
        self.acquire_many_with(count, false, begin_wait)
    }

    /// Gets multiple permits from the semaphore synchronously.
    ///
    /// A task that asks for more than the maximum number of permits waits for ever, and so do those
    /// that start to wait after it, until it gives up.
    pub fn acquire_many_sync(&mut self, count: usize) -> (r: Acquisition)
        requires
            old(self).wf(),
            old(self).memory().may_block(
                Self::permits(count),
                old(self).pending(),
            ) ==> old(self).primitive.room() > 0,
        ensures
            final(self).wf(),
            r != Acquisition::Done(false),
            count > 63 ==> r is Waiting,
            old(self).memory().acquires(
                final(self).memory(),
                Self::permits(count),
                r,
                final(self).pending() == old(self).pending(),
            ),
            final(self).primitive.room() == r.room(old(self).primitive.room()),
            r matches Acquisition::Waiting(entry) ==> final(self).memory().nodes[entry].is_sync,
            final(self).primitive.marks() == r.marks(old(self).primitive.marks()),
            final(self).pending() <= old(self).pending(),
    {
        self.acquire_many_sync_with(count, || {  })
    }

    /// Gets multiple permits from the semaphore synchronously with a wait callback provided.
    ///
    /// The callback is invoked when the task starts waiting for permits.
    ///
    /// A task that asks for more than the maximum number of permits waits for ever, and so do those
    /// that start to wait after it, until it gives up.
    pub fn acquire_many_sync_with<F: FnOnce()>(&mut self, count: usize, begin_wait: F) -> (r: Acquisition)
        requires
            old(self).wf(),
            old(self).memory().may_block(
                Self::permits(count),
                old(self).pending(),
            ) ==> old(self).primitive.room() > 0,
            old(self).memory().may_block(
                Self::permits(count),
                old(self).pending(),
            ) ==> begin_wait.requires(()),
        ensures
            final(self).wf(),
            r != Acquisition::Done(false),
            count > 63 ==> r is Waiting,
            old(self).memory().acquires(
                final(self).memory(),
                Self::permits(count),
                r,
                final(self).pending() == old(self).pending(),
            ),
            r is Waiting ==> begin_wait.ensures((), ()),
            final(self).primitive.room() == r.room(old(self).primitive.room()),
            r matches Acquisition::Waiting(entry) ==> final(self).memory().nodes[entry].is_sync,
            final(self).primitive.marks() == r.marks(old(self).primitive.marks()),
            final(self).pending() <= old(self).pending(),
    {
        self.acquire_many_with(count, true, begin_wait)
    }

    /// Releases a permit.
    ///
    /// Returns `true` if a permit was successfully released.
    pub fn release(&mut self) -> (r: bool)
        requires
            old(self).wf(),
        ensures
            final(self).wf(),
            r ==> exists|mid: Memory| #[trigger]
                old(self).memory().rely(mid) && mid.releases(
                    final(self).memory(),
                    Opcode::Semaphore(1),
                    old(self).pending() == 0,
                ) && (old(self).pending() == 0 ==> mid == old(self).memory()),
            !r ==> {
                &&& old(self).memory().rely(final(self).memory())
                &&& final(self).memory().data() == 0
                &&& old(self).pending() == 0 ==> final(self).memory() == old(self).memory()
            },
            old(self).pending() == 0 ==> r == (old(self).memory().data() > 0),
            final(self).pending() <= old(self).pending(),
            final(self).primitive.room() == old(self).primitive.room(),
            final(self).primitive.marks() == old(self).primitive.marks(),
    {
        self.primitive.release_mode(Opcode::Semaphore(1))
    }

    /// Releases permits.
    ///
    /// Returns `true` if the specified number of permits were successfully released.
    pub fn release_many(&mut self, count: usize) -> (r: bool)
        requires
            old(self).wf(),
        ensures
            final(self).wf(),
            r ==> count <= 63 && exists|mid: Memory| #[trigger]
                old(self).memory().rely(mid) && mid.releases(
                    final(self).memory(),
                    Self::permits(count),
                    old(self).pending() == 0,
                ) && (old(self).pending() == 0 ==> mid == old(self).memory()),
            !r && count <= 63 ==> {
                &&& old(self).memory().rely(final(self).memory())
                &&& final(self).memory().data() < count
                &&& old(self).pending() == 0 ==> final(self).memory() == old(self).memory()
            },
            count > 63 ==> *final(self) == *old(self),
            old(self).pending() == 0 ==> r == (old(self).memory().data() >= count),
            final(self).pending() <= old(self).pending(),
            final(self).primitive.room() == old(self).primitive.room(),
            final(self).primitive.marks() == old(self).primitive.marks(),
    {
        if count > Semaphore::MAX_PERMITS {
            return false;
        }
        let permits: u8 = Self::narrow(count);
        self.primitive.release_mode(Opcode::Semaphore(permits))
    }

    /// Registers a [`Pager`] to allow it to get permits remotely.
    ///
    /// `is_sync` indicates whether the [`Pager`] will be polled asynchronously (`false`) or
    /// synchronously (`true`).
    ///
    /// Returns `false` if the [`Pager`] was already registered, or if the count is greater than the
    /// maximum number of permits.
    #[verifier::spinoff_prover]
    #[verifier::rlimit(40)]
    pub fn register_pager(&mut self, pager: &mut Pager, count: usize, is_sync: bool) -> (r: bool)
        requires
            old(self).wf(),
            count <= 63 && old(pager).entry() is None ==> old(self).primitive.room() > 0,
        ensures
            final(self).wf(),
            r == (count <= 63 && old(pager).entry() is None),
            !r ==> *final(pager) == *old(pager) && *final(self) == *old(self),
            r ==> {
                &&& final(pager).entry() is Some
                &&& final(pager).synchronous() == is_sync
                &&& final(pager).wf(final(self).memory())
                &&& !final(pager).acked()
                &&& !old(self).primitive.marks().contains(final(pager).entry()->0)
                &&& final(pager).marks(final(self).memory(), old(self).primitive.marks())
                    == final(self).primitive.marks()
                &&& old(self).memory().registers(
                    final(self).memory(),
                    final(pager).entry()->0,
                    Self::permits(count),
                    final(self).pending() == old(self).pending(),
                )
            },
            final(self).primitive.room() == old(self).primitive.room() - (if r {
                1int
            } else {
                0
            }),
            final(self).pending() <= old(self).pending(),
    {
        if count > Semaphore::MAX_PERMITS || pager.is_registered() {
            return false;
        }
        let permits: u8 = Self::narrow(count);
        let opcode: Opcode = Opcode::Semaphore(permits);
        let ghost first = self.memory();
        let entry: usize = self.primitive.construct(opcode, is_sync);
        proof {
            first.lemma_prepares(entry, opcode, is_sync);
        }
        pager.set_entry(entry, is_sync);
        loop
            invariant
                self.wf(),
                count <= 63,
                permits <= 63,
                opcode == Opcode::Semaphore(permits),
                opcode == Self::permits(count),
                first == old(self).memory(),
                first.wf(),
                first.spare == Tally::none(),
                !first.held,
                first.discipline == (Discipline::Limited { limit: 63, poisonable: false }),
                first.prepares(self.memory(), entry, opcode),
                self.memory().nodes[entry].is_sync == is_sync,
                self.memory().added == first.added,
                self.memory().received == first.received,
                self.memory().delivered == first.delivered,
                self.primitive.room() == old(self).primitive.room() - 1,
                self.primitive.marks() == old(self).primitive.marks(),
                !old(self).primitive.marks().contains(entry),
                old(pager).entry() is None,
                pager.entry() == Some(entry),
                pager.synchronous() == is_sync,
                !pager.acked(),
                self.pending() <= old(self).pending(),
                self.pending() == old(self).pending() ==> first.untouched(self.memory(), entry),
            decreases self.pending(),
        {
            let ghost now = self.memory();
            let (result, seen) = self.try_acquire_internal(permits);
            let ghost alone = self.pending() == old(self).pending();
            proof {
                assert(now.mine.contains(entry));
                first.lemma_tried(now, self.memory(), entry, opcode, result, seen, alone);
            }
            if self.primitive.try_register(entry, result, seen, Ghost(first), Ghost(alone)) {
                return true;
            }
        }
    }

    /// Describes the semaphore.
    pub fn status(&self) -> (r: Status)
        requires
            self.wf(),
        ensures
            r.available_permits == 63 - WaitQueue::data_of(r.state),
            r.wait_queue_being_processed == WaitQueue::flagged(r.state),
            r.wait_queue_tail_addr == WaitQueue::addr_of(r.state),
            exists|mid: Memory| #[trigger]
                self.memory().rely(mid) && (self.pending() == 0 ==> mid == self.memory())
                    && r.state == mid.word,
    {
        let state: usize = self.primitive.peek(Ordering::Relaxed);
        Status {
            state,
            available_permits: Semaphore::MAX_PERMITS - WaitQueue::data(state),
            wait_queue_being_processed: WaitQueue::locked(state),
            wait_queue_tail_addr: WaitQueue::addr(state),
        }
    }
}

impl<S: SyncPrimitive> SyncResult for Semaphore<S> {
    type Result = Result<(), pager::Error>;

    open spec fn interpret(value: u8, pager_error: Option<pager::Error>) -> Self::Result {
        match pager_error {
            Some(error) => Err(error),
            None => Ok(()),
        }
    }

    fn to_result(_value: u8, pager_error: Option<pager::Error>) -> (r: Self::Result) {
        match pager_error {
            Some(error) => Err(error),
            None => Ok(()),
        }
    }
}

impl<S: SyncPrimitive> PagerHost for Semaphore<S> {
    open spec fn sound(&self) -> bool {
        self.wf()
    }

    open spec fn shared(&self) -> Memory {
        self.memory()
    }

    open spec fn turns(&self) -> nat {
        self.pending()
    }

    open spec fn marks(&self) -> Entries {
        self.primitive.marks()
    }

    open spec fn room(&self) -> Room {
        self.primitive.room()
    }

    open spec fn drops(memory: Memory, new: Memory, entry: usize, alone: bool) -> bool {
        memory.cleans_up(new, entry, alone)
    }

    proof fn lemma_sound(&self) {
    }

    fn acknowledge(&mut self, entry: usize) -> (r: Option<u8>) {
        self.primitive.try_acknowledge_result(entry)
    }

    fn discard(&mut self, entry: usize) {
        self.primitive.discard(entry);
    }

    fn drop_wait_queue_entry(&mut self, entry: usize) {
        self.primitive.force_remove_wait_queue_entry(entry);
    }
}

} // verus!
