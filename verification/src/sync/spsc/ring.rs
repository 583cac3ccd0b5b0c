//! A single-producer, single-consumer queue for sending values across
//! tasks: a ring buffer of a fixed capacity.
//!
//! The position of the queue within the buffer and the flags of the channel
//! are packed into one state word:
//!
//! ```text
//! flags | begin | count
//! ```
//!
//! `count` is the number of values in the queue, in the lowest
//! [`INDEX_BITS`] bits; `begin` is the index of the slot of the oldest value,
//! in the next [`INDEX_BITS`] bits; the flags take the bits above. The three
//! fields fit a word of 32 bits, so the layout is the same on every target.
use vstd::prelude::*;
use vstd::arithmetic::div_mod::{
    lemma_fundamental_div_mod_converse_div, lemma_fundamental_div_mod_converse_mod,
};

pub mod receiver;

verus! {

/// Number of bits of each of the two index fields of the state word.
pub const INDEX_BITS: usize = 14;

/// The bits of the lowest index field of the state word.
pub const INDEX_MASK: usize = 0x3fff;

/// Maximum capacity of the channel.
pub const MAX_CAPACITY: usize = 0x3fff;

/// Flag of the state word: the channel is closed.
pub const COMPLETE: usize = 0x4000_0000;

/// The number of values in the queue, as `state` holds it.
pub open spec fn count_of(state: usize) -> int {
    state as int % 0x4000
}

/// The index of the slot of the oldest value, as `state` holds it.
pub open spec fn begin_of(state: usize) -> int {
    (state as int / 0x4000) % 0x4000
}

/// The flags of the channel, as `state` holds them.
pub open spec fn flags_of(state: usize) -> int {
    state as int / 0x1000_0000
}

/// Whether the channel is closed, as `state` holds it.
pub open spec fn complete_of(state: usize) -> bool {
    (state as int / 0x4000_0000) % 2 == 1
}

/// The state word that holds `flags`, `begin` and `count`.
pub open spec fn word(flags: int, begin: int, count: int) -> int {
    flags * 0x1000_0000 + begin * 0x4000 + count
}

/// The state word `state` after the oldest value was taken out of it, in a
/// ring of `capacity` slots: the queue starts one slot further round the
/// ring and holds one value less, and the flags are as they were.
pub open spec fn taken_word(state: usize, capacity: int) -> usize {
    word(flags_of(state), (begin_of(state) + 1) % capacity, count_of(state) - 1) as usize
}

/// The state word `state` with the flag [`COMPLETE`] set, and every other
/// bit as it was.
pub open spec fn closed_word(state: usize) -> usize {
    if complete_of(state) {
        state
    } else {
        (state + COMPLETE) as usize
    }
}

/// A state word put together from the flags of `state` and two index fields
/// is a word, and holds what it was made of.
pub proof fn lemma_word(state: usize, begin: int, count: int)
    requires
        0 <= begin < 0x4000,
        0 <= count < 0x4000,
    ensures
        0 <= word(flags_of(state), begin, count) <= usize::MAX,
        flags_of(word(flags_of(state), begin, count) as usize) == flags_of(state),
        begin_of(word(flags_of(state), begin, count) as usize) == begin,
        count_of(word(flags_of(state), begin, count) as usize) == count,
        complete_of(word(flags_of(state), begin, count) as usize) == complete_of(state),
{
    let high = state | 0xfff_ffff;
    assert(high == (state / 0x1000_0000) * 0x1000_0000 + 0xfff_ffff) by (bit_vector)
        requires
            high == state | 0xfff_ffff,
    ;
    let flags = flags_of(state);
    let packed = word(flags, begin, count);
    let low = begin * 0x4000 + count;
    lemma_fundamental_div_mod_converse_div(packed, 0x1000_0000, flags, low);
    lemma_fundamental_div_mod_converse_div(packed, 0x4000, flags * 0x4000 + begin, count);
    lemma_fundamental_div_mod_converse_mod(packed, 0x4000, flags * 0x4000 + begin, count);
    lemma_fundamental_div_mod_converse_mod(flags * 0x4000 + begin, 0x4000, flags, begin);
    let quarter = flags / 4;
    let rest = flags % 4;
    lemma_fundamental_div_mod_converse_div(
        packed,
        0x4000_0000,
        quarter,
        rest * 0x1000_0000 + low,
    );
    lemma_fundamental_div_mod_converse_div(
        state as int,
        0x4000_0000,
        quarter,
        rest * 0x1000_0000 + state % 0x1000_0000,
    );
}

/// Setting the flag that closes the channel keeps the index fields and the
/// other flags.
pub proof fn lemma_closed_word(state: usize)
    ensures
        complete_of(closed_word(state)),
        count_of(closed_word(state)) == count_of(state),
        begin_of(closed_word(state)) == begin_of(state),
        flags_of(closed_word(state)) == if complete_of(state) {
            flags_of(state)
        } else {
            flags_of(state) + 4
        },
{
    let closed = state | COMPLETE;
    assert(closed == if (state / 0x4000_0000) % 2 == 1 {
        state as int
    } else {
        state + 0x4000_0000
    }) by (bit_vector)
        requires
            closed == state | 0x4000_0000,
    ;
}

/// The state of a channel: the state word, the slots of the ring, and the
/// error left by the sender, if any.
#[verifier::ext_equal]
pub struct RingState<T, E> {
    pub state: usize,
    pub slots: Seq<Option<T>>,
    pub err: Option<E>,
}

impl<T, E> RingState<T, E> {
    /// The number of slots of the ring.
    pub open spec fn capacity(self) -> int {
        self.slots.len() as int
    }

    /// The number of values in the queue.
    pub open spec fn count(self) -> int {
        count_of(self.state)
    }

    /// The index of the slot of the oldest value.
    pub open spec fn begin(self) -> int {
        begin_of(self.state)
    }

    /// Whether the channel is closed.
    pub open spec fn complete(self) -> bool {
        complete_of(self.state)
    }

    /// The index of the slot of the value at place `k` of the queue.
    pub open spec fn slot(self, k: int) -> int {
        (self.begin() + k) % self.capacity()
    }

    /// The values waiting to be received, oldest first.
    pub open spec fn queue(self) -> Seq<T> {
        Seq::new(self.count() as nat, |k: int| self.slots[self.slot(k)].unwrap())
    }

    /// The invariant of a channel: the ring has at most [`MAX_CAPACITY`]
    /// slots, the queue lies within the ring, and each of its slots holds a
    /// value.
    pub open spec fn wf(self) -> bool {
        &&& self.capacity() <= MAX_CAPACITY
        &&& self.count() <= self.capacity()
        &&& self.capacity() > 0 ==> self.begin() < self.capacity()
        &&& forall|k: int| 0 <= k < self.count() ==> (#[trigger] self.slots[self.slot(k)]).is_some()
    }
}

/// The shared state of a channel.
pub struct Inner<T, E> {
    /// The state word.
    state: usize,
    /// The slots of the ring. The slots of the queue hold a value each.
    buffer: Vec<Option<T>>,
    /// The error left by the sender.
    err: Option<E>,
}

impl<T, E> View for Inner<T, E> {
    type V = RingState<T, E>;

    closed spec fn view(&self) -> RingState<T, E> {
        RingState { state: self.state, slots: self.buffer@, err: self.err }
    }
}

impl<T, E> Inner<T, E> {
    /// Builds the state of a channel from its parts: the state word, the
    /// slots of the ring and the error. Parts that do not fit together are
    /// refused: a ring of more than [`MAX_CAPACITY`] slots, a queue that is
    /// longer than the ring or starts outside it, or a slot of the queue
    /// without a value.
    pub fn from_parts(state: usize, buffer: Vec<Option<T>>, err: Option<E>) -> (inner: Option<
        Inner<T, E>,
    >)
        ensures
            inner.is_some() <==> (RingState { state, slots: buffer@, err }).wf(),
            inner matches Some(inner) ==> inner@ == (RingState { state, slots: buffer@, err }),
    {
        let ghost ring = RingState { state, slots: buffer@, err };
        let capacity = buffer.len();
        let count = state & INDEX_MASK;
        let begin = (state >> INDEX_BITS) & INDEX_MASK;
        assert(count == state % 0x4000 && begin == (state / 0x4000) % 0x4000) by (bit_vector)
            requires
                count == state & 0x3fff,
                begin == (state >> 14) & 0x3fff,
        ;
        if capacity > MAX_CAPACITY || count > capacity || (capacity > 0 && begin >= capacity) {
            return None;
        }
        let mut k: usize = 0;
        while k < count
            invariant
                k <= count <= capacity <= MAX_CAPACITY,
                capacity == buffer.len(),
                capacity > 0 ==> begin < capacity,
                count == ring.count(),
                begin == ring.begin(),
                ring == (RingState { state, slots: buffer@, err }),
                forall|i: int| 0 <= i < k ==> (#[trigger] ring.slots[ring.slot(i)]).is_some(),
            decreases count - k,
        {
            if buffer[(begin + k) % capacity].is_none() {
                assert(!ring.slots[ring.slot(k as int)].is_some());
                return None;
            }
            k = k + 1;
        }
        Some(Inner { state, buffer, err })
    }
}

} // verus!
