//! The receiving half of the ring channel.
use vstd::prelude::*;
use vstd::arithmetic::div_mod::{
    lemma_add_mod_noop, lemma_fundamental_div_mod_converse_mod, lemma_small_mod,
};
use crate::sync::spsc::ring::{
    begin_of, closed_word, complete_of, count_of, flags_of, lemma_closed_word, lemma_word,
    taken_word, word, Inner, RingState, COMPLETE, INDEX_BITS, INDEX_MASK, MAX_CAPACITY,
};

verus! {

/// The receiving-half of the ring channel.
#[must_use]
pub struct Receiver<T, E> {
    inner: Inner<T, E>,
}

impl<T, E> View for Receiver<T, E> {
    type V = RingState<T, E>;

    closed spec fn view(&self) -> RingState<T, E> {
        self.inner@
    }
}

/// What receiving does to a channel in state `ring`. Where the queue holds a
/// value, the oldest one is taken out of the state word and out of its slot,
/// and nothing else changes. From an empty queue of a closed channel, the
/// error is taken. An empty queue of an open channel stays as it is.
pub open spec fn after_recv<T, E>(ring: RingState<T, E>) -> RingState<T, E> {
    if ring.count() > 0 {
        RingState {
            state: taken_word(ring.state, ring.capacity()),
            slots: ring.slots.update(ring.begin(), None),
            err: ring.err,
        }
    } else if ring.complete() {
        RingState { err: None, ..ring }
    } else {
        ring
    }
}

/// What the receiver is given from a channel in state `ring`: the oldest
/// value; from an empty queue of a closed channel, the error, if the sender
/// left one; and nothing otherwise.
pub open spec fn received<T, E>(ring: RingState<T, E>) -> Result<Option<T>, E> {
    if ring.count() > 0 {
        Ok(Some(ring.queue()[0]))
    } else if ring.complete() && ring.err.is_some() {
        Err(ring.err.unwrap())
    } else {
        Ok(None)
    }
}

/// What a poll gives from a channel in state `ring`: the next item of the
/// stream, the end of the stream, or nothing yet.
pub open spec fn polled<T, E>(ring: RingState<T, E>) -> Option<Option<Result<T, E>>> {
    if ring.count() > 0 {
        Some(Some(Ok(ring.queue()[0])))
    } else if !ring.complete() {
        None
    } else {
        match ring.err {
            Some(err) => Some(Some(Err(err))),
            None => Some(None),
        }
    }
}

/// What closing does to a channel in state `ring`: the flag [`COMPLETE`] of
/// the state word is set, and nothing else changes.
pub open spec fn after_close<T, E>(ring: RingState<T, E>) -> RingState<T, E> {
    RingState { state: closed_word(ring.state), ..ring }
}

/// A step within the ring from a slot leads to another slot.
proof fn lemma_ring_step(begin: int, step: int, capacity: int)
    requires
        0 <= begin < capacity,
        0 < step < capacity,
    ensures
        0 <= (begin + step) % capacity < capacity,
        (begin + step) % capacity != begin,
        ((begin + 1) % capacity + (step - 1)) % capacity == (begin + step) % capacity,
{
    lemma_add_mod_noop(begin + 1, step - 1, capacity);
    lemma_small_mod((step - 1) as nat, capacity as nat);
    if begin + step < capacity {
        lemma_small_mod((begin + step) as nat, capacity as nat);
    } else {
        lemma_fundamental_div_mod_converse_mod(begin + step, capacity, 1, begin + step - capacity);
    }
}

/// Receiving keeps the invariant of a channel. A value is received from the
/// slot where the queue begins; the queue then begins one slot further round
/// the ring and has lost its first value, while the flags stay. Without a
/// value to receive, the queue and the state word stay as they are.
pub proof fn lemma_after_recv<T, E>(ring: RingState<T, E>)
    requires
        ring.wf(),
    ensures
        after_recv(ring).wf(),
        after_recv(ring).capacity() == ring.capacity(),
        after_recv(ring).complete() == ring.complete(),
        flags_of(after_recv(ring).state) == flags_of(ring.state),
        ring.count() > 0 ==> {
            &&& ring.slots[ring.begin()].is_some()
            &&& ring.queue()[0] == ring.slots[ring.begin()].unwrap()
            &&& after_recv(ring).queue() == ring.queue().drop_first()
            &&& after_recv(ring).begin() == (ring.begin() + 1) % ring.capacity()
            &&& after_recv(ring).count() == ring.count() - 1
        },
        ring.count() == 0 ==> after_recv(ring).state == ring.state && after_recv(ring).slots
            == ring.slots,
{
    let after = after_recv(ring);
    let begin = ring.begin();
    let capacity = ring.capacity();
    let count = ring.count();
    if count > 0 {
        lemma_word(ring.state, (begin + 1) % capacity, count - 1);
        assert(ring.slot(0) == begin) by {
            lemma_small_mod(begin as nat, capacity as nat);
        }
        assert(ring.slots[ring.slot(0)].is_some());
        if capacity > 1 {
            lemma_ring_step(begin, 1, capacity);
        } else {
            assert((begin + 1) % capacity == 0);
        }
        assert forall|k: int| 0 <= k < count - 1 implies after.slot(k) == ring.slot(k + 1)
            && after.slot(k) != begin by {
            lemma_ring_step(begin, k + 1, capacity);
        }
        assert forall|k: int| 0 <= k < after.count() implies (
        #[trigger] after.slots[after.slot(k)]).is_some() by {
            assert(ring.slots[ring.slot(k + 1)].is_some());
        }
        assert(after.queue() =~= ring.queue().drop_first());
    }
}

/// Closing keeps the invariant of a channel, its queue and its error.
pub proof fn lemma_after_close<T, E>(ring: RingState<T, E>)
    requires
        ring.wf(),
    ensures
        after_close(ring).wf(),
        after_close(ring).complete(),
        after_close(ring).queue() == ring.queue(),
        after_close(ring).begin() == ring.begin(),
        after_close(ring).count() == ring.count(),
{
    let after = after_close(ring);
    lemma_closed_word(ring.state);
    assert forall|k: int| 0 <= k < after.count() implies (
    #[trigger] after.slots[after.slot(k)]).is_some() by {
        assert(ring.slots[ring.slot(k)].is_some());
    }
    assert(after.queue() =~= ring.queue());
}

impl<T, E> Receiver<T, E> {
    /// Creates the receiving half of the channel `inner`.
    pub fn new(inner: Inner<T, E>) -> (receiver: Self)
        requires
            inner@.wf(),
        ensures
            receiver@ == inner@,
    {
        Self { inner }
    }

    /// Gracefully close this receiver, preventing any subsequent attempts to
    /// send to it.
    ///
    /// The values that wait in the queue, and the error, can still be
    /// received.
    pub fn close(&mut self)
        requires
            old(self)@.wf(),
        ensures
            final(self)@.wf(),
            final(self)@ == after_close(old(self)@),
    {
        self.inner.close_half()
    }

    /// Attempts to receive a value outside of the context of a task.
    ///
    /// A return value of `Ok(None)` must be considered immediately stale (out
    /// of date) unless [`close`](Receiver::close) has been called first.
    pub fn try_recv(&mut self) -> (r: Result<Option<T>, E>)
        requires
            old(self)@.wf(),
        ensures
            final(self)@.wf(),
            r == received(old(self)@),
            final(self)@ == after_recv(old(self)@),
    {
        self.inner.try_recv()
    }

    /// Decides what a poll of the receiver gives: the next item of the
    /// stream, which is the oldest value or the error that the sender left;
    /// the end of the stream, where the channel is closed and holds neither;
    /// or nothing yet, where the channel is open and its queue is empty.
    pub fn poll_next(&mut self) -> (r: Option<Option<Result<T, E>>>)
        requires
            old(self)@.wf(),
        ensures
            final(self)@.wf(),
            r == polled(old(self)@),
            final(self)@ == after_recv(old(self)@),
    {
        proof {
            lemma_after_recv(self@);
        }
        let mut state = self.inner.state;
        match self.inner.take_index_try(&mut state) {
            Some(value) => {
                self.inner.state = state;
                Some(self.inner.take_index_finalize(value))
            },
            None => None,
        }
    }
}

impl<T, E> Inner<T, E> {
    /// Sets the flag that closes the channel.
    fn close_half(&mut self)
        requires
            old(self)@.wf(),
        ensures
            final(self)@.wf(),
            final(self)@ == after_close(old(self)@),
    {
        proof {
            lemma_after_close(self@);
        }
        let state = self.state;
        let closed = state | COMPLETE;
        assert(closed == if (state / 0x4000_0000) % 2 == 1 {
            state as int
        } else {
            state + 0x4000_0000
        }) by (bit_vector)
            requires
                closed == state | 0x4000_0000,
        ;
        self.state = closed;
    }

    /// Takes the oldest value out of the state word `state`, which holds
    /// `count` values: the queue then starts one slot further round the ring
    /// and holds one value less, and the flags stay. Returns the index of the
    /// slot of that value.
    pub fn take_index(&self, state: &mut usize, count: usize) -> (begin: usize)
        requires
            0 < self@.capacity() <= MAX_CAPACITY,
            0 < count <= INDEX_MASK,
        ensures
            begin == begin_of(*old(state)),
            *final(state) == word(
                flags_of(*old(state)),
                (begin + 1) % self@.capacity(),
                count - 1,
            ),
    {
        let word = *state;
        let begin = (word >> INDEX_BITS) & INDEX_MASK;
        let both = INDEX_BITS << 1;
        assert(both == 28) by (bit_vector)
            requires
                both == 14usize << 1,
        ;
        let flags = word >> both;
        assert(begin == (word / 0x4000) % 0x4000 && flags == word / 0x1000_0000) by (bit_vector)
            requires
                begin == (word >> 14) & 0x3fff,
                flags == word >> 28,
        ;
        let next = begin.wrapping_add(1) % self.buffer.len();
        let rest = count.wrapping_sub(1);
        let packed = (((flags << INDEX_BITS) | next) << INDEX_BITS) | rest;
        assert(packed == flags * 0x1000_0000 + next * 0x4000 + rest) by (bit_vector)
            requires
                flags == word >> 28,
                next < 0x4000,
                rest < 0x4000,
                packed == (((flags << 14) | next) << 14) | rest,
        ;
        *state = packed;
        begin
    }

    /// The number of values in the queue that the state word `state` holds.
    pub fn get_count(state: usize) -> (count: usize)
        ensures
            count == count_of(state),
    {
        assert(state & 0x3fff == state % 0x4000) by (bit_vector);
        state & INDEX_MASK
    }

    /// Receives from the channel.
    fn try_recv(&mut self) -> (r: Result<Option<T>, E>)
        requires
            old(self)@.wf(),
        ensures
            final(self)@.wf(),
            r == received(old(self)@),
            final(self)@ == after_recv(old(self)@),
    {
        proof {
            lemma_after_recv(self@);
        }
        let mut state = self.state;
        match self.take_index_try(&mut state) {
            Some(Ok(index)) => {
                self.state = state;
                Ok(Some(self.take_value(index)))
            },
            Some(Err(())) => {
                match self.err.take() {
                    Some(err) => Err(err),
                    None => Ok(None),
                }
            },
            None => Ok(None),
        }
    }

    /// Decides what receiving does to the state word `state`. Where the
    /// queue holds a value, the oldest one is taken out of `state`, and the
    /// index of its slot is returned. Where the queue is empty, `state` stays
    /// as it is: an open channel has nothing to give yet, and a closed
    /// channel has come to its end.
    pub fn take_index_try(&self, state: &mut usize) -> (r: Option<Result<usize, ()>>)
        requires
            self@.capacity() <= MAX_CAPACITY,
            count_of(*old(state)) > 0 ==> self@.capacity() > 0,
        ensures
            count_of(*old(state)) > 0 ==> r == Some(
                Ok::<usize, ()>(begin_of(*old(state)) as usize),
            ) && *final(state) == taken_word(*old(state), self@.capacity()),
            count_of(*old(state)) == 0 ==> *final(state) == *old(state),
            count_of(*old(state)) == 0 && !complete_of(*old(state)) ==> r.is_none(),
            count_of(*old(state)) == 0 && complete_of(*old(state)) ==> r == Some(
                Err::<usize, ()>(()),
            ),
    {
        let word = *state;
        let count = Self::get_count(word);
        if count != 0 {
            Some(Ok(self.take_index(state, count)))
        } else {
            assert((word & 0x4000_0000 == 0) <==> (word / 0x4000_0000) % 2 != 1) by (bit_vector);
            if word & COMPLETE == 0 {
                None
            } else {
                Some(Err(()))
            }
        }
    }

    /// Gives what was decided on: the value of the slot at the index, which
    /// is taken out of the slot, or the error that the sender left, if any,
    /// which is taken too.
    fn take_index_finalize(&mut self, value: Result<usize, ()>) -> (r: Option<Result<T, E>>)
        requires
            value matches Ok(index) ==> index < old(self)@.capacity() && old(
                self,
            )@.slots[index as int].is_some(),
        ensures
            value matches Ok(index) ==> r == Some(
                Ok::<T, E>(old(self)@.slots[index as int].unwrap()),
            ) && final(self)@ == (RingState {
                slots: old(self)@.slots.update(index as int, None),
                ..old(self)@
            }),
            value.is_err() ==> final(self)@ == (RingState { err: None, ..old(self)@ }),
            value.is_err() ==> match old(self)@.err {
                Some(err) => r == Some(Err::<T, E>(err)),
                None => r.is_none(),
            },
    {
        match value {
            Ok(index) => Some(Ok(self.take_value(index))),
            Err(()) => match self.err.take() {
                Some(err) => Some(Err(err)),
                None => None,
            },
        }
    }

    /// Takes the value out of the slot at `index`.
    fn take_value(&mut self, index: usize) -> (value: T)
        requires
            index < old(self)@.capacity(),
            old(self)@.slots[index as int].is_some(),
        ensures
            value == old(self)@.slots[index as int].unwrap(),
            final(self)@ == (RingState {
                slots: old(self)@.slots.update(index as int, None),
                ..old(self)@
            }),
    {
        let slot = &mut self.buffer[index];
        slot.take().unwrap()
    }
}

} // verus!
