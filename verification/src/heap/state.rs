//! The state of a memory pool, and what allocation and release do to it.
use vstd::prelude::*;
use crate::heap::bytes::{
    lemma_word_roundtrip, lemma_word_untouched, splice, word_at, word_bytes, LINK_SIZE,
};
use crate::heap::request::AllocInit;

verus! {

/// The state of a pool: its geometry, how far it has been used, the free
/// list, and the bytes of its region.
///
/// The region starts at address `base` and holds `capacity` blocks of
/// `block_size` bytes. The first `cursor` blocks have been handed out at least
/// once. `free` lists the addresses of the blocks that were given back and not
/// handed out again, the most recently freed first. `bytes` holds the region's
/// contents, the byte at `base` first.
#[verifier::ext_equal]
pub struct PoolState {
    pub base: int,
    pub block_size: int,
    pub capacity: int,
    pub cursor: int,
    pub free: Seq<int>,
    pub bytes: Seq<u8>,
}

impl PoolState {
    /// The address of the byte past the last block.
    pub open spec fn edge(self) -> int {
        self.base + self.block_size * self.capacity
    }

    /// The address of the block with index `k`.
    pub open spec fn block(self, k: int) -> int {
        self.base + k * self.block_size
    }

    /// Whether `addr` is the address of a block that was handed out at least
    /// once.
    pub open spec fn owns(self, addr: int) -> bool {
        exists|k: int| 0 <= k < self.cursor && #[trigger] self.block(k) == addr
    }

    /// Whether `addr` is the address of a block that is handed out now.
    pub open spec fn is_allocated(self, addr: int) -> bool {
        self.owns(addr) && !self.free.contains(addr)
    }

    /// Whether the `len` bytes from `addr` on lie within one block that is
    /// handed out now.
    pub open spec fn in_allocated(self, addr: int, len: int) -> bool {
        exists|k: int|
            0 <= k < self.cursor && !self.free.contains(#[trigger] self.block(k)) && self.block(k)
                <= addr && addr + len <= self.block(k) + self.block_size
    }

    /// The head of the free list: its first address, or zero if it is empty.
    pub open spec fn head(self) -> int {
        if self.free.len() == 0 {
            0
        } else {
            self.free[0]
        }
    }

    /// The address that the free block `free[i]` holds in its first bytes: the
    /// next entry of the free list, or zero at its end.
    pub open spec fn link(self, i: int) -> int {
        if i + 1 < self.free.len() {
            self.free[i + 1]
        } else {
            0
        }
    }

    /// The invariant of a pool. The region does not contain address zero and
    /// ends within the address space, every block is in exactly one of three
    /// states (never handed out, handed out, free), and each free block holds
    /// the address of the next one.
    pub open spec fn wf(self) -> bool {
        &&& 0 < self.base
        &&& 0 <= self.block_size
        &&& 0 <= self.cursor <= self.capacity
        &&& self.edge() <= usize::MAX
        &&& self.bytes.len() == self.block_size * self.capacity
        &&& self.free.no_duplicates()
        &&& self.free.len() > 0 ==> self.block_size >= LINK_SIZE
        &&& forall|i: int|
            0 <= i < self.free.len() ==> self.owns(#[trigger] self.free[i]) && word_at(
                self.bytes,
                self.free[i] - self.base,
            ) == self.link(i)
    }

    /// Whether `other` has the geometry of this state: the same region cut
    /// into the same blocks.
    pub open spec fn same_geometry(self, other: PoolState) -> bool {
        &&& self.base == other.base
        &&& self.block_size == other.block_size
        &&& self.capacity == other.capacity
    }

    /// Whether the pool has no block left to hand out.
    pub open spec fn exhausted(self) -> bool {
        self.free.len() == 0 && self.cursor >= self.capacity
    }

    /// The address of the block that the next allocation hands out, if the
    /// pool is not exhausted: the most recently freed block, or else the first
    /// block that was never handed out.
    pub open spec fn next_block(self) -> int {
        if self.free.len() > 0 {
            self.free[0]
        } else {
            self.block(self.cursor)
        }
    }

    /// The byte at address `addr`.
    pub open spec fn byte(self, addr: int) -> u8 {
        self.bytes[addr - self.base]
    }

    /// The state after an allocation.
    pub open spec fn after_alloc(self) -> PoolState {
        if self.free.len() > 0 {
            PoolState { free: self.free.drop_first(), ..self }
        } else if self.cursor < self.capacity {
            PoolState { cursor: self.cursor + 1, ..self }
        } else {
            self
        }
    }

    /// The state after the block at `addr` was freed: the block is the new
    /// head of the free list and its first bytes hold the old head.
    pub open spec fn after_free(self, addr: int) -> PoolState {
        PoolState {
            free: seq![addr] + self.free,
            bytes: splice(self.bytes, addr - self.base, word_bytes(self.head())),
            ..self
        }
    }

    /// The state after `data` was written to the bytes from address `addr` on.
    pub open spec fn with_bytes(self, addr: int, data: Seq<u8>) -> PoolState {
        PoolState { bytes: splice(self.bytes, addr - self.base, data), ..self }
    }

    /// The state after the block at `addr` was initialized as `init` asks.
    pub open spec fn initialized(self, addr: int, init: AllocInit) -> PoolState {
        match init {
            AllocInit::Uninitialized => self,
            AllocInit::Zeroed => self.with_bytes(
                addr,
                Seq::new(self.block_size as nat, |i: int| 0u8),
            ),
        }
    }

    /// The state after `n` allocations.
    pub open spec fn after_allocs(self, n: nat) -> PoolState
        decreases n,
    {
        if n == 0 {
            self
        } else {
            self.after_allocs((n - 1) as nat).after_alloc()
        }
    }

    /// The state after the blocks at `addrs` were freed, in that order.
    pub open spec fn after_frees(self, addrs: Seq<int>) -> PoolState
        decreases addrs.len(),
    {
        if addrs.len() == 0 {
            self
        } else {
            self.after_frees(addrs.drop_last()).after_free(addrs.last())
        }
    }

    /// The region of a pool does not end before it starts.
    pub proof fn lemma_edge(self)
        requires
            self.wf(),
        ensures
            self.base <= self.edge(),
    {
        assert(0 <= self.block_size * self.capacity) by (nonlinear_arith)
            requires
                0 <= self.block_size,
                0 <= self.capacity,
        ;
    }

    /// A block of the pool lies within its region.
    pub proof fn lemma_block_in_region(self, k: int)
        requires
            0 <= self.block_size,
            0 <= k < self.capacity,
        ensures
            self.base <= self.block(k),
            self.block(k) + self.block_size <= self.edge(),
    {
        assert(0 <= k * self.block_size && (k + 1) * self.block_size <= self.capacity
            * self.block_size) by (nonlinear_arith)
            requires
                0 <= self.block_size,
                0 <= k < self.capacity,
        ;
        assert((k + 1) * self.block_size == k * self.block_size + self.block_size
            && self.capacity * self.block_size == self.block_size * self.capacity)
            by (nonlinear_arith);
    }

    /// Two different blocks do not overlap.
    pub proof fn lemma_blocks_apart(self, j: int, k: int)
        requires
            0 <= self.block_size,
            j < k,
        ensures
            self.block(j) + self.block_size <= self.block(k),
    {
        assert(j * self.block_size + self.block_size <= k * self.block_size) by (nonlinear_arith)
            requires
                0 <= self.block_size,
                j < k,
        ;
    }

    /// A block that was handed out lies within the region, and any two such
    /// blocks do not overlap.
    pub proof fn lemma_owned(self, a: int, b: int)
        requires
            self.wf(),
            self.owns(a),
            self.owns(b),
        ensures
            self.base <= a,
            a + self.block_size <= self.edge(),
            a != b ==> a + self.block_size <= b || b + self.block_size <= a,
    {
        let ka = choose|k: int| 0 <= k < self.cursor && self.block(k) == a;
        let kb = choose|k: int| 0 <= k < self.cursor && self.block(k) == b;
        self.lemma_block_in_region(ka);
        if ka < kb {
            self.lemma_blocks_apart(ka, kb);
        } else if kb < ka {
            self.lemma_blocks_apart(kb, ka);
        }
    }

    /// States that differ in their bytes only hand out the same blocks.
    pub proof fn lemma_same_blocks(self, other: PoolState, a: int)
        requires
            self.same_geometry(other),
            self.cursor == other.cursor,
            self.free == other.free,
        ensures
            self.owns(a) == other.owns(a),
            self.is_allocated(a) == other.is_allocated(a),
    {
        if self.owns(a) {
            let k = choose|k: int| 0 <= k < self.cursor && self.block(k) == a;
            assert(other.block(k) == a);
        }
        if other.owns(a) {
            let k = choose|k: int| 0 <= k < other.cursor && other.block(k) == a;
            assert(self.block(k) == a);
        }
    }

    /// A range of bytes within a block that is handed out lies within one
    /// block that is handed out.
    pub proof fn lemma_in_allocated(self, a: int, addr: int, len: int)
        requires
            self.is_allocated(a),
            a <= addr,
            addr + len <= a + self.block_size,
        ensures
            self.in_allocated(addr, len),
    {
        let ka = choose|k: int| 0 <= k < self.cursor && self.block(k) == a;
        assert(!self.free.contains(self.block(ka)));
    }

    /// An allocation keeps the invariant and the blocks that are handed out,
    /// and hands out one more, which lies within the region.
    pub proof fn lemma_alloc(self)
        requires
            self.wf(),
            !self.exhausted(),
        ensures
            self.after_alloc().wf(),
            self.block_size > 0 ==> !self.is_allocated(self.next_block()),
            self.after_alloc().is_allocated(self.next_block()),
            self.base <= self.next_block(),
            self.next_block() + self.block_size <= self.edge(),
            forall|a: int| self.is_allocated(a) ==> self.after_alloc().is_allocated(a),
            0 <= self.after_alloc().head() <= usize::MAX,
    {
        let after = self.after_alloc();
        if after.free.len() > 0 {
            let f = after.free[0];
            assert(self.free.contains(f)) by {
                if self.free.len() > 0 {
                    assert(self.free[1] == f);
                }
            }
            let kf = choose|k: int| 0 <= k < self.cursor && self.block(k) == f;
            self.lemma_block_in_region(kf);
        }
        if self.free.len() > 0 {
            assert forall|i: int| 0 <= i < after.free.len() implies after.owns(
                #[trigger] after.free[i],
            ) && word_at(after.bytes, after.free[i] - after.base) == after.link(i) by {
                let f = self.free[i + 1];
                assert(after.free[i] == f);
                let kf = choose|k: int| 0 <= k < self.cursor && self.block(k) == f;
                assert(after.block(kf) == f);
                assert(after.link(i) == self.link(i + 1));
            }
            assert(self.free[0] == self.next_block());
            assert(self.free.contains(self.free[0]));
            let k = choose|k: int| 0 <= k < self.cursor && self.block(k) == self.free[0];
            self.lemma_block_in_region(k);
            assert(after.block(k) == self.next_block());
            assert(!after.free.contains(self.next_block())) by {
                if after.free.contains(self.next_block()) {
                    let i = choose|i: int|
                        0 <= i < after.free.len() && after.free[i] == self.next_block();
                    assert(self.free[i + 1] == self.free[0]);
                }
            }
            assert forall|a: int| self.is_allocated(a) implies after.is_allocated(a) by {
                let ka = choose|k: int| 0 <= k < self.cursor && self.block(k) == a;
                assert(after.block(ka) == a);
                if after.free.contains(a) {
                    let i = choose|i: int| 0 <= i < after.free.len() && after.free[i] == a;
                    assert(self.free[i + 1] == a);
                }
            }
        } else {
            self.lemma_block_in_region(self.cursor);
            assert(after.block(self.cursor) == self.next_block());
            assert forall|i: int| 0 <= i < after.free.len() implies after.owns(
                #[trigger] after.free[i],
            ) && word_at(after.bytes, after.free[i] - after.base) == after.link(i) by {
            }
            if self.owns(self.next_block()) {
                let k = choose|k: int| 0 <= k < self.cursor && self.block(k) == self.next_block();
                self.lemma_blocks_apart(k, self.cursor);
            }
            assert forall|a: int| self.is_allocated(a) implies after.is_allocated(a) by {
                let k = choose|k: int| 0 <= k < self.cursor && self.block(k) == a;
                assert(after.block(k) == a);
            }
        }
    }

    /// A block that is handed out after an allocation was handed out before
    /// it, unless it is the block that the allocation has handed out.
    pub proof fn lemma_alloc_only(self, a: int)
        requires
            !self.exhausted(),
            self.after_alloc().is_allocated(a),
            a != self.next_block(),
        ensures
            self.is_allocated(a),
    {
        let after = self.after_alloc();
        let k = choose|k: int| 0 <= k < after.cursor && after.block(k) == a;
        assert(self.block(k) == a);
        if self.free.len() > 0 && self.free.contains(a) {
            let i = choose|i: int| 0 <= i < self.free.len() && self.free[i] == a;
            assert(after.free[i - 1] == a);
        }
    }

    /// A block that is handed out after another block was freed was handed
    /// out before.
    pub proof fn lemma_free_only(self, addr: int, a: int)
        requires
            self.after_free(addr).is_allocated(a),
        ensures
            self.is_allocated(a),
            a != addr,
    {
        let after = self.after_free(addr);
        let k = choose|k: int| 0 <= k < after.cursor && after.block(k) == a;
        assert(self.block(k) == a);
        assert(after.free[0] == addr);
        if self.free.contains(a) {
            let i = choose|i: int| 0 <= i < self.free.len() && self.free[i] == a;
            assert(after.free[i + 1] == a);
        }
    }

    /// Freeing a block that is handed out keeps the invariant, if a block is
    /// large enough to hold a link.
    pub proof fn lemma_free(self, addr: int)
        requires
            self.wf(),
            self.is_allocated(addr),
            self.block_size >= LINK_SIZE,
        ensures
            self.after_free(addr).wf(),
            self.base <= addr,
            addr + LINK_SIZE <= self.edge(),
            0 <= self.head() <= usize::MAX,
            !self.after_free(addr).is_allocated(addr),
            forall|a: int|
                self.is_allocated(a) && a != addr ==> #[trigger] self.after_free(addr).is_allocated(
                    a,
                ),
    {
        let after = self.after_free(addr);
        assert(after.free[0] == addr);
        assert forall|a: int| self.is_allocated(a) && a != addr implies #[trigger] after.is_allocated(
            a,
        ) by {
            let k = choose|k: int| 0 <= k < self.cursor && self.block(k) == a;
            assert(after.block(k) == a);
            if after.free.contains(a) {
                let n = choose|n: int| 0 <= n < after.free.len() && after.free[n] == a;
                assert(self.free[n - 1] == a);
            }
        }
        let off = addr - self.base;
        let ka = choose|k: int| 0 <= k < self.cursor && self.block(k) == addr;
        self.lemma_block_in_region(ka);
        if self.free.len() > 0 {
            let k0 = choose|k: int| 0 <= k < self.cursor && self.block(k) == self.free[0];
            self.lemma_block_in_region(k0);
        }
        assert forall|i: int| 0 <= i < after.free.len() implies after.owns(
            #[trigger] after.free[i],
        ) && word_at(after.bytes, after.free[i] - after.base) == after.link(i) by {
            if i == 0 {
                assert(after.block(ka) == addr);
                lemma_word_roundtrip(self.bytes, off, self.head());
            } else {
                let f = self.free[i - 1];
                assert(after.free[i] == f);
                assert(self.free.contains(f));
                let kf = choose|k: int| 0 <= k < self.cursor && self.block(k) == f;
                assert(after.block(kf) == f);
                self.lemma_block_in_region(kf);
                if kf < ka {
                    self.lemma_blocks_apart(kf, ka);
                } else {
                    self.lemma_blocks_apart(ka, kf);
                }
                lemma_word_untouched(self.bytes, off, word_bytes(self.head()), f - self.base);
                assert(after.link(i) == self.link(i - 1));
            }
        }
        assert forall|i: int, j: int|
            0 <= i < after.free.len() && 0 <= j < after.free.len() && i != j implies after.free[i]
            != after.free[j] by {
            if i > 0 {
                assert(self.free.contains(self.free[i - 1]));
            }
            if j > 0 {
                assert(self.free.contains(self.free[j - 1]));
            }
        }
    }

    /// Writing within a block that is handed out keeps the invariant.
    pub proof fn lemma_write(self, addr: int, data: Seq<u8>)
        requires
            self.wf(),
            self.in_allocated(addr, data.len() as int),
        ensures
            self.with_bytes(addr, data).wf(),
            self.base <= addr,
            addr + data.len() <= self.edge(),
    {
        let after = self.with_bytes(addr, data);
        let off = addr - self.base;
        let ka = choose|k: int|
            0 <= k < self.cursor && !self.free.contains(#[trigger] self.block(k)) && self.block(k)
                <= addr && addr + data.len() <= self.block(k) + self.block_size;
        self.lemma_block_in_region(ka);
        assert forall|i: int| 0 <= i < after.free.len() implies after.owns(
            #[trigger] after.free[i],
        ) && word_at(after.bytes, after.free[i] - after.base) == after.link(i) by {
            let f = self.free[i];
            assert(self.free.contains(f));
            let kf = choose|k: int| 0 <= k < self.cursor && self.block(k) == f;
            assert(after.block(kf) == f);
            self.lemma_block_in_region(kf);
            if kf < ka {
                self.lemma_blocks_apart(kf, ka);
            } else {
                self.lemma_blocks_apart(ka, kf);
            }
            lemma_word_untouched(self.bytes, off, data, f - self.base);
        }
    }

    /// Allocations take from the front of the free list while it lasts.
    pub proof fn lemma_after_allocs(self, n: nat)
        requires
            n <= self.free.len(),
        ensures
            self.after_allocs(n).free == self.free.skip(n as int),
            self.after_allocs(n).cursor == self.cursor,
            self.after_allocs(n).same_geometry(self),
        decreases n,
    {
        if n > 0 {
            self.lemma_after_allocs((n - 1) as nat);
            assert(self.free.skip(n - 1).drop_first() =~= self.free.skip(n as int));
        } else {
            assert(self.free.skip(0) =~= self.free);
        }
    }

    /// Freeing puts the blocks in front of the free list, the last one freed
    /// first, and changes neither the geometry nor the cursor.
    pub proof fn lemma_after_frees(self, addrs: Seq<int>)
        ensures
            self.after_frees(addrs).free == addrs.reverse() + self.free,
            self.after_frees(addrs).cursor == self.cursor,
            self.after_frees(addrs).same_geometry(self),
        decreases addrs.len(),
    {
        if addrs.len() > 0 {
            self.lemma_after_frees(addrs.drop_last());
            assert(seq![addrs.last()] + (addrs.drop_last().reverse() + self.free)
                =~= addrs.reverse() + self.free);
        } else {
            assert(addrs.reverse() + self.free =~= self.free);
        }
    }

    /// Different blocks that are handed out can be freed one after the other:
    /// each is still handed out when its turn comes, and the invariant holds
    /// in the end.
    pub proof fn lemma_after_frees_wf(self, addrs: Seq<int>)
        requires
            self.wf(),
            self.block_size >= LINK_SIZE,
            addrs.no_duplicates(),
            forall|i: int| 0 <= i < addrs.len() ==> self.is_allocated(#[trigger] addrs[i]),
        ensures
            self.after_frees(addrs).wf(),
            forall|i: int|
                0 <= i < addrs.len() ==> self.after_frees(addrs.take(i)).is_allocated(
                    #[trigger] addrs[i],
                ),
            forall|a: int|
                self.is_allocated(a) && !addrs.contains(a) ==> #[trigger] self.after_frees(
                    addrs,
                ).is_allocated(a),
        decreases addrs.len(),
    {
        if addrs.len() > 0 {
            let front = addrs.drop_last();
            let last = addrs.last();
            self.lemma_after_frees_wf(front);
            self.lemma_after_frees(front);
            let before = self.after_frees(front);
            assert(!front.contains(last)) by {
                if front.contains(last) {
                    let i = choose|i: int| 0 <= i < front.len() && front[i] == last;
                    assert(addrs[i] == addrs[addrs.len() - 1]);
                }
            }
            assert(before.is_allocated(last));
            before.lemma_free(last);
            assert forall|i: int| 0 <= i < addrs.len() implies self.after_frees(
                addrs.take(i),
            ).is_allocated(#[trigger] addrs[i]) by {
                if i < front.len() {
                    assert(addrs.take(i) =~= front.take(i));
                    assert(front[i] == addrs[i]);
                } else {
                    assert(addrs.take(i) =~= front);
                }
            }
            assert forall|a: int|
                self.is_allocated(a) && !addrs.contains(a) implies #[trigger] self.after_frees(
                addrs,
            ).is_allocated(a) by {
                assert(!front.contains(a)) by {
                    if front.contains(a) {
                        let i = choose|i: int| 0 <= i < front.len() && front[i] == a;
                        assert(addrs[i] == a);
                    }
                }
                assert(a != last);
            }
        } else {
            assert(addrs.take(0) =~= addrs);
        }
    }

    /// Blocks are handed out again in the reverse order of their release:
    /// after the blocks at `addrs` were freed in that order, allocation
    /// number `n` from then on, counting from zero, hands out the block that
    /// was freed `n` places before the last.
    pub proof fn lemma_lifo(self, addrs: Seq<int>, n: nat)
        requires
            n < addrs.len(),
        ensures
            !self.after_frees(addrs).after_allocs(n).exhausted(),
            self.after_frees(addrs).after_allocs(n).next_block() == addrs[addrs.len() - 1 - n],
    {
        self.lemma_after_frees(addrs);
        self.after_frees(addrs).lemma_after_allocs(n);
    }
}

} // verus!
