//! What a state word holds, and where the parts of a wait queue are located.
use vstd::prelude::*;

use crate::config::Config;
use crate::config::DefaultConfig;
use crate::wait_queue::Location;
use crate::wait_queue::WaitQueue;

verus! {

/// A state word falls into a resource count below 64, the processing flag, and an address that is a
/// multiple of 128; none of them is lost.
#[verifier::spinoff_prover]
pub proof fn law_parts(word: usize, data: usize, locked: bool, addr: usize, anchor: usize)
    requires
        call_ensures(WaitQueue::data, (word,), data),
        call_ensures(WaitQueue::locked, (word,), locked),
        call_ensures(WaitQueue::addr, (word,), addr),
        call_ensures(WaitQueue::to_anchor_ptr, (word,), anchor),
    ensures
        data < 64,
        addr % 128 == 0,
        word == addr + (if locked {
            64int
        } else {
            0
        }) + data,
        anchor == addr,
{
    WaitQueue::lemma_split(word);
}

/// Replacing the address of a state word, or setting its processing flag, affects nothing else.
#[verifier::spinoff_prover]
pub proof fn law_replacement(
    word: usize,
    addr: usize,
    moved: usize,
    locked: usize,
    data: usize,
    flag: bool,
    place: usize,
)
    requires
        addr % 128 == 0,
        word % 128 < 64,
        call_ensures(WaitQueue::with_addr, (word, addr), moved),
        call_ensures(WaitQueue::with_locked, (word,), locked),
        call_ensures(WaitQueue::data, (moved,), data),
        call_ensures(WaitQueue::locked, (moved,), flag),
        call_ensures(WaitQueue::addr, (moved,), place),
    ensures
        place == addr,
        data == word % 64,
        !flag,
        moved == addr + word % 128,
        locked == word + 64,
{
    WaitQueue::lemma_split(moved);
    WaitQueue::lemma_split(word);
}

/// The anchor of a wait queue is the first multiple of 128 in it; the entry takes the half of the
/// wait queue that the anchor does not lie in, and can be found through the anchor, as the wait
/// queue can be found through the entry.
#[verifier::spinoff_prover]
pub proof fn law_location(
    queue: WaitQueue,
    location: Location,
    anchor: (usize, usize),
    entry: usize,
    start: usize,
)
    requires
        queue.wf(),
        call_ensures(WaitQueue::construct, (&queue,), location),
        call_ensures(WaitQueue::anchor_ptr, (&queue,), anchor),
        call_ensures(WaitQueue::to_entry_ptr, (location.anchor, location.anchor_val), entry),
        call_ensures(WaitQueue::to_wait_queue_ptr, (location.entry, location.offset), start),
    ensures
        location.anchor % 128 == 0,
        queue.start <= location.anchor < queue.start + 128,
        anchor.0 == location.anchor,
        anchor.1 == location.anchor - queue.start,
        location.anchor_val == u64::MAX - (location.anchor - queue.start),
        location.entry == (if location.anchor - queue.start < 64 {
            queue.start + 64
        } else {
            queue.start as int
        }),
        location.offset == location.entry - queue.start,
        entry == location.entry,
        start == queue.start,
{
    reveal(WaitQueue::aligned);
    queue.law_parts_are_disjoint();
}

/// An anchor that was not set leads nowhere; otherwise, the entry lies in the half of the wait
/// queue that the anchor does not lie in.
#[verifier::spinoff_prover]
pub proof fn law_to_entry_ptr(anchor: usize, offset: u64, r: usize, nowhere: usize)
    requires
        offset < 128,
        offset <= anchor,
        anchor + 64 <= usize::MAX,
        call_ensures(WaitQueue::to_entry_ptr, (anchor, 0), nowhere),
        call_ensures(WaitQueue::to_entry_ptr, (anchor, (u64::MAX - offset) as u64), r),
    ensures
        nowhere == 0,
        r == anchor - offset + (if offset < 64 {
            64int
        } else {
            0
        }),
{
}

/// A task tries 16384 times by default before it starts to wait.
pub proof fn law_spin_count(r: usize)
    requires
        call_ensures(DefaultConfig::spin_count, (), r),
    ensures
        r == 16384,
{
}

} // verus!
