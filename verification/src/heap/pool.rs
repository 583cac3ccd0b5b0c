//! A memory pool: a region of memory cut into blocks of one size.
use vstd::prelude::*;
use crate::heap::bytes::{fill_zero, get_word, put_word, splice, zeroed, LINK_SIZE};
use crate::heap::request::{AllocInit, Layout};
use crate::heap::state::PoolState;

verus! {

/// A memory pool: a region of memory cut into blocks of one size, with the
/// list of its free blocks threaded through the blocks themselves.
pub struct Pool {
    /// Address of the first block.
    base: usize,
    /// Size of every block in bytes.
    block_size: usize,
    /// Number of blocks in the region.
    capacity: usize,
    /// Number of blocks handed out at least once.
    cursor: usize,
    /// Address of the most recently freed block, or zero.
    free_head: usize,
    /// The bytes of the region.
    storage: Vec<u8>,
    /// The free list, head first.
    free: Ghost<Seq<int>>,
}

impl View for Pool {
    type V = PoolState;

    closed spec fn view(&self) -> PoolState {
        PoolState {
            base: self.base as int,
            block_size: self.block_size as int,
            capacity: self.capacity as int,
            cursor: self.cursor as int,
            free: self.free@,
            bytes: self.storage@,
        }
    }
}

impl Pool {
    /// The invariant of a pool: that of its state, with the head of the free
    /// list at hand.
    pub closed spec fn wf(&self) -> bool {
        &&& self@.wf()
        &&& self.free_head == self@.head()
    }

    /// What a well-formed pool shows of its state.
    pub proof fn lemma_wf(&self)
        requires
            self.wf(),
        ensures
            self@.wf(),
            0 <= self@.capacity <= usize::MAX,
            0 <= self@.block_size <= usize::MAX,
            0 < self@.base <= usize::MAX,
    {
    }

    /// Creates a pool of `capacity` blocks of `size` bytes at `address`. No
    /// block is handed out and every byte is zero.
    pub fn new(address: usize, size: usize, capacity: usize) -> (pool: Pool)
        requires
            0 < address,
            address + size * capacity <= usize::MAX,
        ensures
            pool.wf(),
            pool@ == (PoolState {
                base: address as int,
                block_size: size as int,
                capacity: capacity as int,
                cursor: 0,
                free: Seq::empty(),
                bytes: Seq::new((size * capacity) as nat, |i: int| 0u8),
            }),
    {
        assert(0 <= size * capacity) by (nonlinear_arith)
            requires
                0 <= size,
                0 <= capacity,
        ;
        let storage = zeroed(size * capacity);
        Pool {
            base: address,
            block_size: size,
            capacity,
            cursor: 0,
            free_head: 0,
            storage,
            free: Ghost(Seq::empty()),
        }
    }

    /// The size of the blocks of the pool.
    pub fn size(&self) -> (size: usize)
        ensures
            size == self@.block_size,
    {
        self.block_size
    }

    /// The address of the first block of the pool.
    pub fn address(&self) -> (address: usize)
        ensures
            address == self@.base,
    {
        self.base
    }

    /// The address of the byte past the last block of the pool.
    pub fn edge(&self) -> (edge: usize)
        requires
            self.wf(),
        ensures
            edge == self@.edge(),
    {
        self.base + self.block_size * self.capacity
    }

    /// Hands out a block: the most recently freed one, or else the next block
    /// never handed out, or else nothing.
    pub fn allocate(&mut self) -> (ptr: Option<usize>)
        requires
            old(self).wf(),
        ensures
            final(self).wf(),
            final(self)@ == old(self)@.after_alloc(),
            old(self)@.exhausted() ==> ptr.is_none(),
            !old(self)@.exhausted() ==> ptr == Some(old(self)@.next_block() as usize)
                && old(self)@.next_block() <= usize::MAX,
    {
        proof {
            if !self@.exhausted() {
                self@.lemma_alloc();
            }
        }
        if self.free_head != 0 {
            let head = self.free_head;
            let next = get_word(&self.storage, head - self.base);
            self.free_head = next as usize;
            self.free = Ghost(self.free@.drop_first());
            Some(head)
        } else if self.cursor < self.capacity {
            assert(self.cursor * self.block_size <= self.capacity * self.block_size)
                by (nonlinear_arith)
                requires
                    0 <= self.block_size,
                    0 <= self.cursor < self.capacity,
            ;
            assert(self.capacity * self.block_size == self.block_size * self.capacity)
                by (nonlinear_arith);
            let ptr = self.base + self.cursor * self.block_size;
            self.cursor = self.cursor + 1;
            Some(ptr)
        } else {
            None
        }
    }

    /// Takes back the block at `ptr`. The first bytes of the block then hold
    /// the address of the block freed before it.
    pub fn dealloc(&mut self, ptr: usize)
        requires
            old(self).wf(),
            old(self)@.is_allocated(ptr as int),
            old(self)@.block_size >= LINK_SIZE,
        ensures
            final(self).wf(),
            final(self)@ == old(self)@.after_free(ptr as int),
    {
        proof {
            self@.lemma_free(ptr as int);
        }
        put_word(&mut self.storage, ptr - self.base, self.free_head as u64);
        self.free_head = ptr;
        self.free = Ghost(seq![ptr as int] + self.free@);
    }

    /// The byte at address `addr` of the region.
    pub fn read_byte(&self, addr: usize) -> (value: u8)
        requires
            self.wf(),
            self@.base <= addr < self@.edge(),
        ensures
            value == self@.byte(addr as int),
    {
        self.storage[addr - self.base]
    }

    /// Writes `value` at address `addr`, which lies in a block that is handed
    /// out.
    pub fn write_byte(&mut self, addr: usize, value: u8)
        requires
            old(self).wf(),
            old(self)@.in_allocated(addr as int, 1),
        ensures
            final(self).wf(),
            final(self)@ == old(self)@.with_bytes(addr as int, seq![value]),
    {
        proof {
            self@.lemma_write(addr as int, seq![value]);
        }
        self.storage.set(addr - self.base, value);
        assert(self.storage@ == splice(old(self).storage@, addr - self.base, seq![value]));
    }

    /// Sets every byte of the block at `ptr`, which is handed out, to zero.
    pub fn zero_block(&mut self, ptr: usize)
        requires
            old(self).wf(),
            old(self)@.is_allocated(ptr as int),
        ensures
            final(self).wf(),
            final(self)@ == old(self)@.initialized(ptr as int, AllocInit::Zeroed),
    {
        proof {
            let k = choose|k: int| 0 <= k < self@.cursor && self@.block(k) == ptr;
            assert(!self@.free.contains(self@.block(k)));
            self@.lemma_write(ptr as int, Seq::new(self@.block_size as nat, |i: int| 0u8));
        }
        fill_zero(&mut self.storage, ptr - self.base, self.block_size);
    }
}

/// A value that a pool can be tested against: a request that the pool may be
/// able to serve, or an address that may lie below the end of the pool.
pub trait Fits: Copy {
    /// Whether the value fits a pool in state `pool`.
    spec fn fits_spec(self, pool: PoolState) -> bool;

    /// Whether the value fits `pool`.
    fn fits(self, pool: &Pool) -> (fits: bool)
        requires
            pool.wf(),
        ensures
            fits == self.fits_spec(pool@),
    ;
}

/// A request fits a pool whose blocks are at least as large as the request.
impl Fits for &Layout {
    open spec fn fits_spec(self, pool: PoolState) -> bool {
        self.size() <= pool.block_size
    }

    fn fits(self, pool: &Pool) -> (fits: bool) {
        self.size() <= pool.block_size
    }
}

/// An address fits a pool whose region ends above the address.
impl Fits for usize {
    open spec fn fits_spec(self, pool: PoolState) -> bool {
        self < pool.edge()
    }

    fn fits(self, pool: &Pool) -> (fits: bool) {
        self < pool.edge()
    }
}

} // verus!
