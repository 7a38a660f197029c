//! Wait queue implementation.
use vstd::prelude::*;

verus! {

/// Storage of a wait queue entry: 128 bytes, located by their address.
///
/// One of the two halves holds the entry; the other one holds the anchor, a word at an address with
/// enough alignment to leave room for the processing flag and the resource count in a state word.
#[derive(Clone, Copy, Debug, Eq, PartialEq, Structural)]
pub struct WaitQueue {
    /// Address of the first byte of the wait queue.
    pub start: usize,
}

/// Where the parts of a wait queue are located.
#[derive(Clone, Copy, Debug, Eq, PartialEq, Structural)]
pub struct Location {
    /// Address of the anchor.
    pub anchor: usize,
    /// Value of the anchor.
    pub anchor_val: u64,
    /// Address of the entry.
    pub entry: usize,
    /// Offset of the entry within the wait queue.
    pub offset: u16,
}

impl WaitQueue {
    /// The number of resources in use according to a state word.
    pub open spec fn data_of(word: usize) -> nat {
        (word % 64) as nat
    }

    /// The wait queue is being processed, or the primitive is poisoned.
    pub open spec fn flagged(word: usize) -> bool {
        word % 128 >= 64
    }

    /// The address of the newest wait queue entry, zero when nobody waits.
    pub open spec fn addr_of(word: usize) -> usize {
        (word - word % 128) as usize
    }

    /// An address that can be stored in a state word.
    #[verifier::opaque]
    pub open spec fn aligned(addr: usize) -> bool {
        addr % 128 == 0
    }

    /// Resources are taken off a state word.
    pub proof fn lemma_reduce(word: usize, new: usize)
        requires
            new <= word,
            word - new <= Self::data_of(word),
        ensures
            Self::addr_of(new) == Self::addr_of(word),
            Self::flagged(new) == Self::flagged(word),
            Self::data_of(new) == Self::data_of(word) - (word - new),
    {
        assert(new - new % 128 == word - word % 128 && (new % 128 >= 64) == (word % 128 >= 64)
            && new % 64 == word % 64 - (word - new)) by (bit_vector)
            requires
                new <= word,
                word - new <= word % 64,
        ;
    }

    /// The processing flag is set while resources are taken off a state word.
    pub proof fn lemma_lock(word: usize, number: nat)
        requires
            !Self::flagged(word),
            number <= Self::data_of(word),
        ensures
            word + 64 - number <= usize::MAX,
            Self::addr_of((word + 64 - number) as usize) == Self::addr_of(word),
            Self::flagged((word + 64 - number) as usize),
            Self::data_of((word + 64 - number) as usize) == Self::data_of(word) - number,
    {
        assert((word | 64) == word + 64) by (bit_vector)
            requires
                word % 128 < 64,
        ;
        let less: usize = number as usize;
        let new: usize = (word + 64 - number) as usize;
        assert(new - new % 128 == word - word % 128 && new % 128 >= 64 && new % 64 == word % 64
            - less) by (bit_vector)
            requires
                word % 128 < 64,
                less <= word % 64,
                new == word + 64 - less,
        ;
    }

    /// Resources are added to a state word.
    pub proof fn lemma_raise(word: usize, number: usize)
        requires
            Self::data_of(word) + number < 64,
        ensures
            word + number <= usize::MAX,
            Self::addr_of((word + number) as usize) == Self::addr_of(word),
            Self::flagged((word + number) as usize) == Self::flagged(word),
            Self::data_of((word + number) as usize) == Self::data_of(word) + number,
    {
        assert((word | 63) == word - word % 64 + 63) by (bit_vector);
        let new: usize = (word + number) as usize;
        assert(new - new % 128 == word - word % 128 && (new % 128 >= 64) == (word % 128 >= 64)
            && new % 64 == word % 64 + number) by (bit_vector)
            requires
                word % 64 + number < 64,
                new == word + number,
        ;
    }

    /// Replacing the address part of a state word keeps the resource count.
    pub proof fn lemma_tag(word: usize, addr: usize, new: usize)
        requires
            Self::aligned(addr),
            new == addr + word % 128,
        ensures
            Self::data_of(new) == Self::data_of(word),
    {
        reveal(WaitQueue::aligned);
        Self::lemma_split(word);
        Self::lemma_compose(new, addr, Self::flagged(word), Self::data_of(word));
    }

    /// A state word falls into an address, the processing flag and a resource count.
    pub proof fn lemma_split(word: usize)
        ensures
            Self::aligned(Self::addr_of(word)),
            Self::addr_of(word) % 128 == 0,
            Self::data_of(word) < 64,
            word == Self::addr_of(word) + (if Self::flagged(word) {
                64int
            } else {
                0
            }) + Self::data_of(word),
            Self::addr_of(word) + 127 <= usize::MAX,
    {
        reveal(WaitQueue::aligned);
        let addr: usize = Self::addr_of(word);
        assert(addr % 128 == 0 && word == addr + (if word % 128 >= 64 {
            64usize
        } else {
            0usize
        }) + word % 64 && addr + 127 == (addr | 127)) by (bit_vector)
            requires
                addr == word - word % 128,
        ;
    }

    /// A state word is made of an address, the processing flag and a resource count.
    pub proof fn lemma_compose(word: usize, addr: usize, locked: bool, data: nat)
        requires
            addr % 128 == 0,
            data < 64,
            word == addr + (if locked { 64int } else { 0 }) + data,
        ensures
            Self::addr_of(word) == addr,
            Self::flagged(word) == locked,
            Self::data_of(word) == data,
    {
        let low: usize = ((if locked {
            64int
        } else {
            0
        }) + data) as usize;
        assert(word - word % 128 == addr && word % 128 == low && word % 64 == low % 64)
            by (bit_vector)
            requires
                addr % 128 == 0,
                low < 128,
                word == addr + low,
        ;
    }

    /// Virtual alignment of the wait queue.
    pub const VIRTUAL_ALIGNMENT: usize = 128;

    /// Indicates that the wait queue is being processed by a thread.
    pub const LOCKED_FLAG: usize = 64;

    /// Mask to extract additional information tagged with the wait queue memory address.
    pub const DATA_MASK: usize = 63;

    /// Mask to extract the memory address part from a `usize` value.
    pub const ADDR_MASK: usize = !(64 | 63);

    /// Extracts the resource count from a state word.
    pub fn data(state: usize) -> (r: usize)
        ensures
            r == Self::data_of(state),
            r < 64,
    {
        assert(state & 63 == state % 64) by (bit_vector);
        state & Self::DATA_MASK
    }

    /// Extracts the address of the newest wait queue entry from a state word.
    pub fn addr(state: usize) -> (r: usize)
        ensures
            r == Self::addr_of(state),
            r % 128 == 0,
    {
        assert(state & !(64usize | 63usize) == state - state % 128) by (bit_vector);
        state & Self::ADDR_MASK
    }

    /// Checks if the wait queue is being processed.
    pub fn locked(state: usize) -> (r: bool)
        ensures
            r == Self::flagged(state),
    {
        assert((state & 64 == 64) == (state % 128 >= 64)) by (bit_vector);
        state & Self::LOCKED_FLAG == Self::LOCKED_FLAG
    }

    /// Replaces the address part of a state word.
    pub fn with_addr(state: usize, addr: usize) -> (r: usize)
        requires
            Self::aligned(addr),
        ensures
            Self::addr_of(r) == addr,
            Self::flagged(r) == Self::flagged(state),
            Self::data_of(r) == Self::data_of(state),
            r == addr + state % 128,
    {
        proof {
            reveal(WaitQueue::aligned);
        }
        let r: usize = (state & !Self::ADDR_MASK) | addr;
        assert(r - r % 128 == addr && (r % 128 >= 64) == (state % 128 >= 64) && r % 64 == state
            % 64 && r == addr + state % 128) by (bit_vector)
            requires
                addr % 128 == 0,
                r == (state & !(!(64usize | 63usize))) | addr,
        ;
        r
    }

    /// Sets the processing flag of a state word.
    pub fn with_locked(state: usize) -> (r: usize)
        requires
            !Self::flagged(state),
        ensures
            Self::addr_of(r) == Self::addr_of(state),
            Self::flagged(r),
            Self::data_of(r) == Self::data_of(state),
            r == state + 64,
    {
        let r: usize = state | Self::LOCKED_FLAG;
        assert(r - r % 128 == state - state % 128 && r % 128 >= 64 && r % 64 == state % 64 && r
            == state + 64) by (bit_vector)
            requires
                state % 128 < 64,
                r == state | 64,
        ;
        r
    }

    /// The storage has the alignment and the extent of a wait queue.
    pub open spec fn wf(self) -> bool {
        &&& 0 < self.start
        &&& self.start % 8 == 0
        &&& self.start + 128 <= usize::MAX
    }

    /// The distance from the first byte to the next multiple of the virtual alignment.
    pub open spec fn anchor_offset(self) -> int {
        (128 - self.start % 128) % 128
    }

    /// The address of the entry.
    pub open spec fn entry_addr(self) -> int {
        if self.anchor_offset() < 64 {
            self.start + 64
        } else {
            self.start as int
        }
    }

    /// The address of the entry that an anchor leads to, zero if there is none.
    pub open spec fn entry_of(anchor_ptr: usize, anchor_val: u64) -> int {
        if anchor_val == 0 {
            0
        } else if u64::MAX - anchor_val < 64 {
            anchor_ptr - (u64::MAX - anchor_val) + 64
        } else {
            anchor_ptr - (u64::MAX - anchor_val)
        }
    }

    /// Returns the address of the anchor that is used to locate the wait queue entry, and its
    /// offset.
    pub fn anchor_ptr(&self) -> (r: (usize, usize))
        requires
            self.wf(),
        ensures
            r.0 == self.start + self.anchor_offset(),
            r.1 == self.anchor_offset(),
            r.1 < 128,
            Self::aligned(r.0),
            Self::addr_of(r.0) == r.0,
    {
        let misalignment: usize = self.start % Self::VIRTUAL_ALIGNMENT;
        let anchor_addr: usize = if misalignment == 0 {
            // Perfectly aligned, so the anchor is at the start address, and the entry is at 64th
            // byte.
            //
            // `128: start/anchor | 192: entry`.
            self.start
        } else {
            // If the address is not perfectly aligned, we need to round up to the next multiple of
            // `Self::VIRTUAL_ALIGNMENT`.
            //
            // `32: start/entry | 128: anchor`.
            // `64: start/entry | 128: anchor`.
            // `96: start | 128: anchor | 160: entry`.
            self.start + (Self::VIRTUAL_ALIGNMENT - misalignment)
        };
        proof {
            reveal(WaitQueue::aligned);
        }
        (anchor_addr, anchor_addr - self.start)
    }

    /// Converts a synchronization primitive state into the address of an anchor.
    ///
    /// Returns `0` if nobody waits.
    pub fn to_anchor_ptr(state: usize) -> (r: usize)
        ensures
            r == Self::addr_of(state),
            Self::aligned(r),
    {
        proof {
            Self::lemma_split(state);
        }
        Self::addr(state)
    }

    /// Returns the address of the entry derived from the address and the value of an anchor.
    ///
    /// Returns `0` if no entry exists.
    pub fn to_entry_ptr(anchor_ptr: usize, anchor_val: u64) -> (r: usize)
        requires
            anchor_val != 0 ==> u64::MAX - anchor_val <= anchor_ptr && anchor_ptr + 64 <= usize::MAX,
        ensures
            r == Self::entry_of(anchor_ptr, anchor_val),
    {
        if anchor_val == 0 {
            // No entry exists.
            return 0;
        }
        let offset: usize = (u64::MAX - anchor_val) as usize;
        let start_addr: usize = anchor_ptr - offset;
        if offset < Self::VIRTUAL_ALIGNMENT / 2 {
            // The anchor is in the first half, so the entry is in the second half.
            start_addr + Self::VIRTUAL_ALIGNMENT / 2
        } else {
            // The anchor is in the second half, so the entry is in the first half.
            start_addr
        }
    }

    /// Returns the address of the wait queue that an entry belongs to.
    pub fn to_wait_queue_ptr(entry_ptr: usize, offset: u16) -> (r: usize)
        requires
            offset <= entry_ptr,
        ensures
            r == entry_ptr - offset,
    {
        entry_ptr - offset as usize
    }

    /// Locates the parts of the wait queue.
    pub fn construct(&self) -> (r: Location)
        requires
            self.wf(),
        ensures
            r == self.location(),
    {
        let (anchor, anchor_offset) = self.anchor_ptr();
        // `0` represents the initial state, therefore take the complement of the offset.
        let anchor_val: u64 = u64::MAX - anchor_offset as u64;
        let entry: usize = Self::to_entry_ptr(anchor, anchor_val);
        Location { anchor, anchor_val, entry, offset: (entry - self.start) as u16 }
    }

    /// Where the parts of the wait queue are located.
    pub open spec fn location(self) -> Location {
        Location {
            anchor: (self.start + self.anchor_offset()) as usize,
            anchor_val: (u64::MAX - self.anchor_offset()) as u64,
            entry: self.entry_addr() as usize,
            offset: (self.entry_addr() - self.start) as u16,
        }
    }

    /// The anchor and the entry lie within the wait queue, and do not overlap.
    #[verifier::spinoff_prover]
    #[verifier::rlimit(60)]
    pub proof fn law_parts_are_disjoint(self)
        requires
            self.wf(),
        ensures
            self.start <= self.location().anchor,
            self.location().anchor + 8 <= self.start + 128,
            self.start <= self.location().entry,
            self.location().entry + 64 <= self.start + 128,
            self.location().entry % 8 == 0,
            Self::aligned(self.location().anchor),
            self.location().anchor != 0,
            self.location().anchor_val != 0,
            self.location().anchor + 8 <= self.location().entry || self.location().entry + 64
                <= self.location().anchor,
    {
        reveal(WaitQueue::aligned);
        let start = self.start;
        let offset: usize = self.anchor_offset() as usize;
        let anchor: usize = (start + offset) as usize;
        assert(offset % 8 == 0 && offset < 128 && anchor % 128 == 0) by (bit_vector)
            requires
                start % 8 == 0,
                (start % 128 == 0 && offset == 0) || (start % 128 > 0 && offset + start % 128 == 128),
                anchor == start + offset,
        ;
        assert(offset <= 56 || 64 <= offset <= 120);
    }

    /// A state word that holds the anchor leads to the entry, and the entry leads back to the wait
    /// queue.
    pub proof fn law_anchor_leads_to_entry(self, word: usize, locked: bool, data: nat)
        requires
            self.wf(),
            data < 64,
            word == self.location().anchor + (if locked {
                64int
            } else {
                0
            }) + data,
        ensures
            Self::addr_of(word) == self.location().anchor,
            Self::entry_of(Self::addr_of(word), self.location().anchor_val)
                == self.location().entry,
            self.location().entry - self.location().offset == self.start,
            Self::flagged(word) == locked,
            Self::data_of(word) == data,
    {
        reveal(WaitQueue::aligned);
        self.law_parts_are_disjoint();
        Self::lemma_compose(word, self.location().anchor, locked, data);
    }

    /// The anchors of wait queues that do not overlap differ, so that an anchor identifies a wait
    /// queue.
    pub proof fn law_anchor_identifies_wait_queue(self, other: Self)
        requires
            self.wf(),
            other.wf(),
            self.start + 128 <= other.start,
        ensures
            self.location().anchor < other.location().anchor,
    {
    }
}

} // verus!
