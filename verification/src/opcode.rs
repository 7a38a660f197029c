//! Primitive synchronization operation types.
use vstd::prelude::*;

use crate::wait_queue::WaitQueue;

verus! {

/// Operation types.
#[derive(Clone, Copy, Debug, Eq, PartialEq, Structural)]
pub enum Opcode {
    /// Acquires exclusive ownership.
    Exclusive,
    /// Acquires shared ownership.
    Shared,
    /// Acquires semaphores.
    Semaphore(u8),
    /// Waits until the given number of resources is available without acquiring any of them.
    Wait(u8),
}

impl Opcode {
    /// The number of resources a completed operation holds.
    pub open spec fn held(self) -> nat {
        match self {
            Opcode::Exclusive => 63,
            Opcode::Shared => 1,
            Opcode::Semaphore(permits) => permits as nat,
            Opcode::Wait(_) => 0,
        }
    }

    /// The number of resources that must be available for the operation to complete.
    pub open spec fn desired(self) -> nat {
        match self {
            Opcode::Wait(permits) => permits as nat,
            _ => self.held(),
        }
    }

    /// The operation holds no more than the state word can count, or asks for more than there can
    /// ever be.
    pub open spec fn valid(self) -> bool {
        self.held() <= 64
    }

    /// `data` resources are in use and the operation's share of them can be given back.
    pub open spec fn releasable(self, data: nat) -> bool {
        match self {
            Opcode::Exclusive => data == 63,
            Opcode::Shared => 1 <= data < 63,
            Opcode::Semaphore(permits) => data >= permits,
            Opcode::Wait(_) => true,
        }
    }

    /// Checks if the resource expressed in `self` can be released from `state`.
    pub fn can_release(self, state: usize) -> (r: bool)
        ensures
            r == self.releasable(WaitQueue::data_of(state)),
    {
        let data: usize = WaitQueue::data(state);
        match self {
            Opcode::Exclusive => data == WaitQueue::DATA_MASK,
            Opcode::Shared => data >= 1 && data != WaitQueue::DATA_MASK,
            Opcode::Semaphore(_) => data >= self.release_count(),
            Opcode::Wait(_) => true,
        }
    }

    /// Converts the operation mode into a `usize` value representing resources held by the
    /// corresponding synchronization primitive.
    pub fn release_count(self) -> (r: usize)
        ensures
            r == self.held(),
    {
        match self {
            Opcode::Exclusive => WaitQueue::DATA_MASK,
            Opcode::Shared => 1,
            Opcode::Semaphore(permits) => permits as usize,
            Opcode::Wait(_) => 0,
        }
    }

    /// Converts the operation mode into the number of resources that have to be available.
    pub fn desired_count(self) -> (r: usize)
        ensures
            r == self.desired(),
    {
        match self {
            Opcode::Wait(permits) => permits as usize,
            _ => self.release_count(),
        }
    }
}

} // verus!
