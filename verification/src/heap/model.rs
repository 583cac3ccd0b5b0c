//! The table of pool states behind a heap: which pool a request or an
//! address belongs to, what each operation of the allocator does to the
//! table, and what holds of the outcome.
use vstd::prelude::*;
use crate::heap::bytes::LINK_SIZE;
use crate::heap::request::{AllocErr, AllocInit, MemoryBlock};
use crate::heap::state::PoolState;

verus! {

/// Whether the pools of a table come in order: block sizes strictly increase,
/// and each region ends where or before the next one starts.
pub open spec fn ordered(t: Seq<PoolState>) -> bool {
    forall|i: int, j: int|
        0 <= i < j < t.len() ==> (#[trigger] t[i]).block_size < (#[trigger] t[j]).block_size
            && t[i].edge() <= t[j].base
}

/// The invariant of a table of pool states: well-formed states in order.
pub open spec fn table_wf(t: Seq<PoolState>) -> bool {
    &&& forall|i: int| 0 <= i < t.len() ==> (#[trigger] t[i]).wf()
    &&& ordered(t)
}

/// The least index from `from` on of a pool of `t` that satisfies `f`, or the
/// length of `t` if there is none.
pub open spec fn first_index(t: Seq<PoolState>, f: spec_fn(PoolState) -> bool, from: int) -> int
    decreases t.len() - from,
{
    if from >= t.len() {
        t.len() as int
    } else if f(t[from]) {
        from
    } else {
        first_index(t, f, from + 1)
    }
}

/// The index of the pool with the smallest blocks that hold `size` bytes, or
/// the length of `t` if no pool has such blocks.
pub open spec fn fit_by_size(t: Seq<PoolState>, size: int) -> int {
    first_index(t, |p: PoolState| size <= p.block_size, 0)
}

/// The index of the first pool whose region ends above `addr`, or the length
/// of `t` if `addr` lies at or beyond the end of every region.
pub open spec fn owner(t: Seq<PoolState>, addr: int) -> int {
    first_index(t, |p: PoolState| addr < p.edge(), 0)
}

/// The index of the pool that serves a request of `size` bytes: the first one
/// with a block left among those whose blocks are large enough, or the length
/// of `t` if all of them are exhausted.
pub open spec fn serving(t: Seq<PoolState>, size: int) -> int {
    first_index(t, |p: PoolState| !p.exhausted(), fit_by_size(t, size))
}

/// Whether `addr` lies within the region of a pool of the table.
pub open spec fn mapped(t: Seq<PoolState>, addr: int) -> bool {
    let i = owner(t, addr);
    0 <= i < t.len() && t[i].base <= addr
}

/// Whether the block at `addr` is handed out by the pool that owns the
/// address.
pub open spec fn allocated(t: Seq<PoolState>, addr: int) -> bool {
    let i = owner(t, addr);
    0 <= i < t.len() && t[i].is_allocated(addr)
}

/// The size of the blocks of the pool that owns `addr`.
pub open spec fn block_size_at(t: Seq<PoolState>, addr: int) -> int {
    t[owner(t, addr)].block_size
}

/// The handle of the block at `ptr`, allocated for a request of `size` bytes:
/// its address and the block size of the pool that owns it. A request of size
/// zero holds no storage.
pub open spec fn block_handle(t: Seq<PoolState>, ptr: usize, size: usize) -> MemoryBlock {
    if size == 0 {
        MemoryBlock { ptr, size: 0 }
    } else {
        MemoryBlock { ptr, size: block_size_at(t, ptr as int) as usize }
    }
}

/// The byte at address `addr` of the table: that of the pool that owns the
/// address.
pub open spec fn byte_at(t: Seq<PoolState>, addr: int) -> u8 {
    t[owner(t, addr)].byte(addr)
}

/// Whether the block at `addr` is the one that its pool hands out next.
pub open spec fn next_in_line(t: Seq<PoolState>, addr: int) -> bool {
    let i = owner(t, addr);
    &&& 0 <= i < t.len()
    &&& !t[i].exhausted()
    &&& t[i].next_block() == addr
}

/// What a request is answered with: for size zero, the dangling address of
/// the layout and no storage; else the next block of the serving pool, with
/// the block size of that pool; and a failure if every pool that could hold
/// the request is exhausted.
pub open spec fn alloc_block(t: Seq<PoolState>, size: int, align: int) -> Result<
    MemoryBlock,
    AllocErr,
> {
    let j = serving(t, size);
    if size == 0 {
        Ok(MemoryBlock { ptr: align as usize, size: 0 })
    } else if j < t.len() {
        Ok(MemoryBlock { ptr: t[j].next_block() as usize, size: t[j].block_size as usize })
    } else {
        Err(AllocErr::Exhausted)
    }
}

/// The table after a request of `size` bytes was served: the serving pool has
/// handed out its next block, initialized as `init` asks. A request of size
/// zero, or one that no pool can serve, leaves the table as it is.
pub open spec fn alloc_table(t: Seq<PoolState>, size: int, init: AllocInit) -> Seq<PoolState> {
    let j = serving(t, size);
    if size == 0 || j >= t.len() {
        t
    } else {
        t.update(j, t[j].after_alloc().initialized(t[j].next_block(), init))
    }
}

/// Whether the block at `addr` can be released: it is handed out by the pool
/// that owns the address, and the blocks of that pool can hold a link.
///
/// A link takes [`LINK_SIZE`] bytes, which is eight on every target. So a
/// block of a pool with blocks of less than eight bytes can be allocated but
/// not released, also on a target whose addresses take four bytes.
pub open spec fn releasable(t: Seq<PoolState>, addr: int) -> bool {
    let i = owner(t, addr);
    &&& i < t.len()
    &&& t[i].is_allocated(addr)
    &&& t[i].block_size >= LINK_SIZE
}

/// The table after the block at `addr`, allocated for a request of `size`
/// bytes, was released: the pool that owns the address has taken it back. A
/// request of size zero holds no block, and the table stays as it is.
pub open spec fn release_table(t: Seq<PoolState>, addr: int, size: int) -> Seq<PoolState> {
    let i = owner(t, addr);
    if size == 0 || i >= t.len() {
        t
    } else {
        t.update(i, t[i].after_free(addr))
    }
}

/// Whether `count` bytes can be copied from the block at `src` to the block
/// at `dst`: both blocks are handed out, differ, and hold `count` bytes.
pub open spec fn copyable(t: Seq<PoolState>, src: int, dst: int, count: int) -> bool {
    let i = owner(t, src);
    let j = owner(t, dst);
    count > 0 ==> {
        &&& i < t.len()
        &&& j < t.len()
        &&& src != dst
        &&& t[i].is_allocated(src)
        &&& t[j].is_allocated(dst)
        &&& count <= t[i].block_size
        &&& count <= t[j].block_size
    }
}

/// The table after `count` bytes were copied from address `src` to address
/// `dst`.
pub open spec fn copy_table(t: Seq<PoolState>, src: int, dst: int, count: int) -> Seq<PoolState> {
    let i = owner(t, src);
    let j = owner(t, dst);
    if count <= 0 || i >= t.len() || j >= t.len() {
        t
    } else {
        t.update(
            j,
            t[j].with_bytes(dst, t[i].bytes.subrange(src - t[i].base, src - t[i].base + count)),
        )
    }
}

/// Whether the block at `ptr`, allocated for a request of `size` bytes, can
/// be moved: it can be released and holds `size` bytes. A request of size
/// zero holds no block and can always be moved.
pub open spec fn resizable(t: Seq<PoolState>, ptr: int, size: int) -> bool {
    size != 0 ==> releasable(t, ptr) && size <= t[owner(t, ptr)].block_size
}

/// The table after the block at `ptr`, allocated for a request of `size`
/// bytes, was moved to a block for `new_size` bytes: the new block was
/// allocated, the first `count` bytes of the old block were copied to it, and
/// the old block was released. Where no block is left for the new request,
/// the table stays as it is.
pub open spec fn relocate_table(
    t: Seq<PoolState>,
    ptr: int,
    size: int,
    new_size: int,
    align: int,
    count: int,
    init: AllocInit,
) -> Seq<PoolState> {
    match alloc_block(t, new_size, align) {
        Err(_) => t,
        Ok(block) => release_table(
            copy_table(alloc_table(t, new_size, init), ptr, block.ptr as int, count),
            ptr,
            size,
        ),
    }
}

/// The table after the blocks at `addrs`, each allocated for a request of
/// `size` bytes, were released in that order.
pub open spec fn release_all(t: Seq<PoolState>, addrs: Seq<int>, size: int) -> Seq<PoolState>
    decreases addrs.len(),
{
    if addrs.len() == 0 {
        t
    } else {
        release_table(release_all(t, addrs.drop_last(), size), addrs.last(), size)
    }
}

/// The table after `n` requests of `size` bytes were served.
pub open spec fn alloc_times(t: Seq<PoolState>, size: int, init: AllocInit, n: nat) -> Seq<
    PoolState,
>
    decreases n,
{
    if n == 0 {
        t
    } else {
        alloc_table(alloc_times(t, size, init, (n - 1) as nat), size, init)
    }
}

/// Whether the byte at `addr` may be written: it lies within a block that
/// is handed out.
pub open spec fn writable(t: Seq<PoolState>, addr: int) -> bool {
    let i = owner(t, addr);
    0 <= i < t.len() && t[i].in_allocated(addr, 1)
}

/// The table after `value` was written to the byte at `addr`.
pub open spec fn write_table(t: Seq<PoolState>, addr: int, value: u8) -> Seq<PoolState> {
    let i = owner(t, addr);
    t.update(i, t[i].with_bytes(addr, seq![value]))
}

/// `first_index` gives an index from `from` on that satisfies `f`, and no
/// index before it does.
pub proof fn lemma_first_index(t: Seq<PoolState>, f: spec_fn(PoolState) -> bool, from: int)
    requires
        0 <= from <= t.len(),
    ensures
        from <= first_index(t, f, from) <= t.len(),
        first_index(t, f, from) < t.len() ==> f(t[first_index(t, f, from)]),
        forall|k: int| from <= k < first_index(t, f, from) ==> !f(#[trigger] t[k]),
    decreases t.len() - from,
{
    if from < t.len() && !f(t[from]) {
        lemma_first_index(t, f, from + 1);
    }
}

/// An index that satisfies `f`, with none before it that does, is the one
/// `first_index` gives.
pub proof fn lemma_first_index_unique(
    t: Seq<PoolState>,
    f: spec_fn(PoolState) -> bool,
    from: int,
    index: int,
)
    requires
        0 <= from <= index <= t.len(),
        index < t.len() ==> f(t[index]),
        forall|k: int| from <= k < index ==> !f(#[trigger] t[k]),
    ensures
        first_index(t, f, from) == index,
    decreases index - from,
{
    if from < index {
        assert(!f(t[from]));
        lemma_first_index_unique(t, f, from + 1, index);
    }
}

/// A larger request is never served from an earlier pool than a smaller one.
pub proof fn lemma_fit_by_size_monotone(t: Seq<PoolState>, small: int, large: int)
    requires
        small <= large,
    ensures
        fit_by_size(t, small) <= fit_by_size(t, large),
{
    lemma_first_index(t, |p: PoolState| small <= p.block_size, 0);
    lemma_first_index(t, |p: PoolState| large <= p.block_size, 0);
    let r = fit_by_size(t, large);
    if r < fit_by_size(t, small) {
        assert(small <= t[r].block_size);
    }
}

/// In an ordered table, the pool that a request is looked up in is the first
/// whose blocks hold the request: every pool from it on has blocks that do,
/// and no pool before it has.
pub proof fn lemma_fit_by_size(t: Seq<PoolState>, size: int)
    requires
        ordered(t),
    ensures
        0 <= fit_by_size(t, size) <= t.len(),
        forall|k: int|
            0 <= k < t.len() ==> (k < fit_by_size(t, size) <==> (#[trigger] t[k]).block_size
                < size),
{
    lemma_first_index(t, |p: PoolState| size <= p.block_size, 0);
    let r = fit_by_size(t, size);
    assert forall|k: int| 0 <= k < t.len() implies (k < r <==> (#[trigger] t[k]).block_size
        < size) by {
        if k > r {
            assert(t[r].block_size < t[k].block_size);
        }
    }
}

/// An address within the region of a pool is owned by that pool, and an
/// address at or beyond the end of the last region by none.
pub proof fn lemma_owner(t: Seq<PoolState>, i: int, addr: int)
    requires
        table_wf(t),
        0 <= i <= t.len(),
        i < t.len() ==> t[i].base <= addr < t[i].edge(),
        i == t.len() ==> t.len() == 0 || t[t.len() - 1].edge() <= addr,
    ensures
        owner(t, addr) == i,
{
    assert forall|k: int| 0 <= k < i implies !(addr < (#[trigger] t[k]).edge()) by {
        if i < t.len() {
            assert(t[k].edge() <= t[i].base);
        } else if k < t.len() - 1 {
            assert(t[k].edge() <= t[t.len() - 1].base);
            t[t.len() - 1].lemma_edge();
        }
    }
    lemma_first_index_unique(t, |p: PoolState| addr < p.edge(), 0, i);
}

/// Where the pool with the smallest blocks that hold a request is
/// exhausted while the pool at `larger` has a block left, the request is
/// served by a pool after the first, with its larger blocks.
pub proof fn lemma_escalation(t: Seq<PoolState>, size: int, align: int, larger: int)
    requires
        table_wf(t),
        0 < size,
        0 <= align <= usize::MAX,
        fit_by_size(t, size) < larger < t.len(),
        t[fit_by_size(t, size)].exhausted(),
        !t[larger].exhausted(),
    ensures
        fit_by_size(t, size) < serving(t, size) <= larger,
        alloc_block(t, size, align) == Ok::<MemoryBlock, AllocErr>(
            MemoryBlock {
                ptr: t[serving(t, size)].next_block() as usize,
                size: t[serving(t, size)].block_size as usize,
            },
        ),
        t[fit_by_size(t, size)].block_size < t[serving(t, size)].block_size,
        forall|k: int| fit_by_size(t, size) <= k < serving(t, size) ==> (#[trigger] t[k]).exhausted(),
{
    let fit = fit_by_size(t, size);
    lemma_first_index(t, |p: PoolState| size <= p.block_size, 0);
    lemma_first_index(t, |p: PoolState| !p.exhausted(), fit);
    let j = serving(t, size);
    if larger < j {
        assert(t[larger].exhausted());
    }
    assert(t[fit].block_size < t[j].block_size);
}

/// Where every pool whose blocks hold a request is exhausted, the request
/// fails, and only then.
pub proof fn lemma_exhaustion(t: Seq<PoolState>, size: int, align: int)
    requires
        0 < size,
    ensures
        alloc_block(t, size, align) == Err::<MemoryBlock, AllocErr>(AllocErr::Exhausted)
            <==> forall|k: int| fit_by_size(t, size) <= k < t.len() ==> (#[trigger] t[k]).exhausted(),
{
    let fit = fit_by_size(t, size);
    lemma_first_index(t, |p: PoolState| size <= p.block_size, 0);
    lemma_first_index(t, |p: PoolState| !p.exhausted(), fit);
    let j = serving(t, size);
    if j < t.len() {
        assert(!t[j].exhausted());
    }
}

/// Replacing the state of a pool by one that satisfies `f` just as it does
/// keeps the first index that satisfies `f`.
pub proof fn lemma_first_index_update(
    t: Seq<PoolState>,
    j: int,
    p: PoolState,
    f: spec_fn(PoolState) -> bool,
)
    requires
        0 <= j < t.len(),
        f(t[j]) == f(p),
    ensures
        first_index(t.update(j, p), f, 0) == first_index(t, f, 0),
{
    let u = t.update(j, p);
    let r = first_index(t, f, 0);
    lemma_first_index(t, f, 0);
    assert forall|k: int| 0 <= k < r implies !f(#[trigger] u[k]) by {
        assert(!f(t[k]));
    }
    lemma_first_index_unique(u, f, 0, r);
}

/// Replacing the state of a pool by one of the same geometry keeps the order
/// of the table, and the pool that every size and every address belongs to.
pub proof fn lemma_update(t: Seq<PoolState>, j: int, p: PoolState)
    requires
        0 <= j < t.len(),
        t[j].same_geometry(p),
    ensures
        ordered(t) ==> ordered(t.update(j, p)),
        forall|size: int| fit_by_size(t.update(j, p), size) == fit_by_size(t, size),
        forall|addr: int| owner(t.update(j, p), addr) == owner(t, addr),
        forall|addr: int|
            owner(t, addr) < t.len() ==> #[trigger] block_size_at(t.update(j, p), addr)
                == block_size_at(t, addr),
        forall|addr: int| #[trigger] mapped(t.update(j, p), addr) == mapped(t, addr),
{
    let u = t.update(j, p);
    assert forall|size: int| fit_by_size(u, size) == fit_by_size(t, size) by {
        lemma_first_index_update(t, j, p, |p: PoolState| size <= p.block_size);
    }
    assert forall|addr: int| owner(u, addr) == owner(t, addr) && 0 <= owner(t, addr) by {
        lemma_first_index_update(t, j, p, |p: PoolState| addr < p.edge());
        lemma_first_index(t, |p: PoolState| addr < p.edge(), 0);
    }
    if ordered(t) {
        assert forall|i: int, k: int| 0 <= i < k < u.len() implies (#[trigger] u[i]).block_size < (
        #[trigger] u[k]).block_size && u[i].edge() <= u[k].base by {
            assert(t[i].block_size < t[k].block_size && t[i].edge() <= t[k].base);
        }
    }
}

/// A block that is handed out lies within the region of its pool, every
/// address in it is owned by that pool, and two such blocks do not overlap.
pub proof fn lemma_allocated(t: Seq<PoolState>, a: int, b: int)
    requires
        table_wf(t),
        allocated(t, a),
        allocated(t, b),
    ensures
        t[owner(t, a)].base <= a,
        a + block_size_at(t, a) <= t[owner(t, a)].edge(),
        forall|x: int| a <= x < a + block_size_at(t, a) ==> #[trigger] owner(t, x) == owner(t, a),
        a != b ==> a + block_size_at(t, a) <= b || b + block_size_at(t, b) <= a,
{
    let i = owner(t, a);
    let j = owner(t, b);
    t[i].lemma_owned(a, a);
    t[j].lemma_owned(b, b);
    assert forall|x: int| a <= x < a + block_size_at(t, a) implies #[trigger] owner(t, x) == i by {
        lemma_owner(t, i, x);
    }
    if i == j {
        t[i].lemma_owned(a, b);
    } else if i < j {
        assert(t[i].edge() <= t[j].base);
    } else {
        assert(t[j].edge() <= t[i].base);
    }
}

/// What serving a request of a positive size does to a well-formed table: the
/// table stays well-formed, the blocks that were handed out stay so, and one
/// more block, large enough for the request, is handed out. The bytes of that
/// block are zero where `init` asks for zeroes, and no other byte changes.
pub proof fn lemma_alloc_table(t: Seq<PoolState>, size: int, init: AllocInit)
    requires
        table_wf(t),
        size > 0,
        serving(t, size) < t.len(),
    ensures
        ({
            let u = alloc_table(t, size, init);
            let j = serving(t, size);
            let ptr = t[j].next_block();
            &&& table_wf(u)
            &&& u.len() == t.len()
            &&& 0 <= j
            &&& 0 <= ptr <= usize::MAX
            &&& !t[j].exhausted()
            &&& !allocated(t, ptr)
            &&& allocated(u, ptr)
            &&& owner(u, ptr) == j
            &&& size <= block_size_at(u, ptr) == t[j].block_size <= usize::MAX
            &&& forall|addr: int| #[trigger] owner(u, addr) == owner(t, addr)
            &&& forall|addr: int|
                owner(t, addr) < t.len() ==> #[trigger] block_size_at(u, addr) == block_size_at(
                    t,
                    addr,
                )
            &&& forall|addr: int| #[trigger] mapped(u, addr) == mapped(t, addr)
            &&& forall|addr: int| allocated(t, addr) ==> #[trigger] allocated(u, addr)
            &&& forall|addr: int| #[trigger] allocated(u, addr) && addr != ptr ==> allocated(t, addr)
            &&& forall|addr: int|
                mapped(t, addr) && !(ptr <= addr < ptr + t[j].block_size) ==> #[trigger] byte_at(
                    u,
                    addr,
                ) == byte_at(t, addr)
            &&& init == AllocInit::Zeroed ==> forall|addr: int|
                ptr <= addr < ptr + t[j].block_size ==> #[trigger] byte_at(u, addr) == 0
        }),
{
    let fit = fit_by_size(t, size);
    lemma_first_index(t, |p: PoolState| size <= p.block_size, 0);
    lemma_first_index(t, |p: PoolState| !p.exhausted(), fit);
    let u = alloc_table(t, size, init);
    let j = serving(t, size);
    let p = t[j];
    let ptr = p.next_block();
    assert(t[fit].block_size <= p.block_size);
    p.lemma_alloc();
    let q = p.after_alloc();
    let r = q.initialized(ptr, init);
    q.lemma_in_allocated(ptr, ptr, q.block_size);
    q.lemma_write(ptr, Seq::new(q.block_size as nat, |i: int| 0u8));
    assert(r.wf());
    q.lemma_same_blocks(r, ptr);
    lemma_update(t, j, r);
    assert(u == t.update(j, r));
    assert forall|k: int| ptr <= k < ptr + p.block_size implies owner(t, k) == j by {
        lemma_owner(t, j, k);
    }
    assert forall|addr: int| allocated(t, addr) implies #[trigger] allocated(u, addr) by {
        q.lemma_same_blocks(r, addr);
    }
    assert forall|addr: int| #[trigger] allocated(u, addr) && addr != ptr implies allocated(
        t,
        addr,
    ) by {
        if owner(t, addr) == j {
            q.lemma_same_blocks(r, addr);
            p.lemma_alloc_only(addr);
        }
    }
    assert forall|addr: int|
        mapped(t, addr) && !(ptr <= addr < ptr + p.block_size) implies #[trigger] byte_at(u, addr)
        == byte_at(t, addr) by {
        lemma_first_index(t, |p: PoolState| addr < p.edge(), 0);
    }
    if init == AllocInit::Zeroed {
        assert forall|addr: int| ptr <= addr < ptr + p.block_size implies #[trigger] byte_at(
            u,
            addr,
        ) == 0 by {
            lemma_owner(t, j, addr);
            assert(owner(u, addr) == j);
            assert(u[j] == r);
            let zeroes = Seq::new(q.block_size as nat, |i: int| 0u8);
            assert(r.bytes[addr - p.base] == zeroes[addr - ptr]);
        }
    }
    assert(table_wf(u));
    assert(!allocated(t, ptr));
    assert(allocated(u, ptr));
    assert(owner(u, ptr) == j);
    assert(size <= block_size_at(u, ptr) == p.block_size <= usize::MAX);
}

/// What copying between two blocks that are handed out does to a well-formed
/// table: the table stays well-formed, the same blocks are handed out, the
/// bytes copied to are those copied from, and no other byte changes.
pub proof fn lemma_copy_table(t: Seq<PoolState>, src: int, dst: int, count: int)
    requires
        table_wf(t),
        copyable(t, src, dst, count),
    ensures
        ({
            let u = copy_table(t, src, dst, count);
            &&& table_wf(u)
            &&& u.len() == t.len()
            &&& forall|addr: int| #[trigger] owner(u, addr) == owner(t, addr)
            &&& forall|addr: int|
                owner(t, addr) < t.len() ==> #[trigger] block_size_at(u, addr) == block_size_at(
                    t,
                    addr,
                )
            &&& forall|addr: int| #[trigger] mapped(u, addr) == mapped(t, addr)
            &&& forall|addr: int| allocated(t, addr) == #[trigger] allocated(u, addr)
            &&& forall|k: int|
                0 <= k < count ==> #[trigger] byte_at(u, dst + k) == byte_at(t, src + k)
            &&& forall|addr: int|
                mapped(t, addr) && !(dst <= addr < dst + count) ==> #[trigger] byte_at(u, addr)
                    == byte_at(t, addr)
        }),
{
    let u = copy_table(t, src, dst, count);
    if count > 0 {
        let i = owner(t, src);
        let j = owner(t, dst);
        lemma_first_index(t, |p: PoolState| src < p.edge(), 0);
        lemma_first_index(t, |p: PoolState| dst < p.edge(), 0);
        lemma_allocated(t, src, dst);
        lemma_allocated(t, dst, src);
        let from = src - t[i].base;
        let data = t[i].bytes.subrange(from, from + count);
        let p = t[j].with_bytes(dst, data);
        t[j].lemma_in_allocated(dst, dst, count);
        t[j].lemma_write(dst, data);
        lemma_update(t, j, p);
        assert forall|addr: int| allocated(t, addr) == #[trigger] allocated(u, addr) by {
            t[j].lemma_same_blocks(p, addr);
        }
        assert forall|k: int| 0 <= k < count implies #[trigger] byte_at(u, dst + k) == byte_at(
            t,
            src + k,
        ) by {
            assert(owner(t, dst + k) == j);
            assert(owner(t, src + k) == i);
            assert(p.bytes[dst - t[j].base + k] == data[k]);
        }
        assert forall|addr: int|
            mapped(t, addr) && !(dst <= addr < dst + count) implies #[trigger] byte_at(u, addr)
            == byte_at(t, addr) by {
            lemma_first_index(t, |p: PoolState| addr < p.edge(), 0);
        }
    }
}

/// What releasing a block does to a well-formed table: the table stays
/// well-formed, the block is the next that its pool hands out, every other
/// block that was handed out stays so, and no byte outside the link at the
/// start of the block changes.
pub proof fn lemma_release_table(t: Seq<PoolState>, ptr: int, size: int)
    requires
        table_wf(t),
        size != 0,
        releasable(t, ptr),
    ensures
        ({
            let u = release_table(t, ptr, size);
            &&& table_wf(u)
            &&& u.len() == t.len()
            &&& 0 <= owner(t, ptr) < t.len()
            &&& next_in_line(u, ptr)
            &&& !allocated(u, ptr)
            &&& forall|addr: int| #[trigger] owner(u, addr) == owner(t, addr)
            &&& forall|addr: int|
                owner(t, addr) < t.len() ==> #[trigger] block_size_at(u, addr) == block_size_at(
                    t,
                    addr,
                )
            &&& forall|addr: int| #[trigger] mapped(u, addr) == mapped(t, addr)
            &&& forall|addr: int|
                allocated(t, addr) && addr != ptr ==> #[trigger] allocated(u, addr)
            &&& forall|addr: int| #[trigger] allocated(u, addr) ==> allocated(t, addr)
            &&& forall|addr: int|
                mapped(t, addr) && !(ptr <= addr < ptr + LINK_SIZE) ==> #[trigger] byte_at(u, addr)
                    == byte_at(t, addr)
        }),
{
    let u = release_table(t, ptr, size);
    let i = owner(t, ptr);
    lemma_first_index(t, |p: PoolState| ptr < p.edge(), 0);
    let p = t[i].after_free(ptr);
    t[i].lemma_free(ptr);
    lemma_update(t, i, p);
    assert(p.free[0] == ptr);
    assert forall|addr: int| #[trigger] allocated(u, addr) implies allocated(t, addr) by {
        if owner(t, addr) == i {
            t[i].lemma_free_only(ptr, addr);
        }
    }
    assert forall|addr: int|
        mapped(t, addr) && !(ptr <= addr < ptr + LINK_SIZE) implies #[trigger] byte_at(u, addr)
        == byte_at(t, addr) by {
        lemma_first_index(t, |p: PoolState| addr < p.edge(), 0);
    }
}

/// What moving a block does to a well-formed table. The table stays
/// well-formed through the three steps. The first `count` bytes of the new
/// block are those of the old block, the bytes after them are zero where
/// `init` asks for zeroes, and the old block is the next that its pool hands
/// out.
pub proof fn lemma_relocate(
    t: Seq<PoolState>,
    ptr: int,
    size: int,
    new_size: int,
    align: int,
    count: int,
    init: AllocInit,
)
    requires
        table_wf(t),
        resizable(t, ptr, size),
        0 <= count <= size,
        count <= new_size,
        0 <= align <= usize::MAX,
    ensures
        alloc_block(t, new_size, align) matches Ok(block) ==> {
            let t1 = alloc_table(t, new_size, init);
            let t2 = copy_table(t1, ptr, block.ptr as int, count);
            let t3 = release_table(t2, ptr, size);
            &&& table_wf(t1)
            &&& copyable(t1, ptr, block.ptr as int, count)
            &&& table_wf(t2)
            &&& size != 0 ==> releasable(t2, ptr)
            &&& table_wf(t3)
            &&& new_size != 0 ==> allocated(t3, block.ptr as int) && new_size <= block.size
                == block_size_at(t3, block.ptr as int)
            &&& size != 0 ==> next_in_line(t3, ptr) && !allocated(t3, ptr)
            &&& size != 0 && new_size != 0 ==> block.ptr != ptr
            &&& forall|addr: int|
                addr != ptr && addr != block.ptr ==> #[trigger] allocated(t3, addr) == allocated(
                    t,
                    addr,
                )
            &&& forall|k: int|
                0 <= k < count ==> #[trigger] byte_at(t3, block.ptr + k) == byte_at(t, ptr + k)
            &&& init == AllocInit::Zeroed ==> forall|k: int|
                count <= k < block.size ==> #[trigger] byte_at(t3, block.ptr + k) == 0
        },
{
    if let Ok(block) = alloc_block(t, new_size, align) {
        let t1 = alloc_table(t, new_size, init);
        let t2 = copy_table(t1, ptr, block.ptr as int, count);
        let t3 = release_table(t2, ptr, size);
        if new_size == 0 {
            assert(t1 == t);
            assert(t2 == t);
            if size != 0 {
                lemma_release_table(t, ptr, size);
            }
        } else {
            lemma_alloc_table(t, new_size, init);
            let nb = block.ptr as int;
            assert(nb == t[serving(t, new_size)].next_block());
            lemma_first_index(t, |p: PoolState| ptr < p.edge(), 0);
            lemma_allocated(t1, nb, nb);
            if size != 0 {
                assert(allocated(t, ptr));
                assert(allocated(t1, ptr));
                assert(block_size_at(t1, ptr) == block_size_at(t, ptr));
                lemma_allocated(t1, ptr, nb);
                lemma_allocated(t1, nb, ptr);
                lemma_allocated(t, ptr, ptr);
            }
            assert(copyable(t1, ptr, nb, count));
            lemma_copy_table(t1, ptr, nb, count);
            assert(allocated(t2, nb));
            assert(block_size_at(t2, nb) == block_size_at(t1, nb));
            if size != 0 {
                assert(allocated(t2, ptr));
                assert(block_size_at(t2, ptr) == block_size_at(t1, ptr));
                assert(releasable(t2, ptr));
                lemma_release_table(t2, ptr, size);
                assert(allocated(t3, nb));
                assert(block_size_at(t3, nb) == block_size_at(t2, nb));
            } else {
                assert(t3 == t2);
            }
            assert forall|k: int| 0 <= k < count implies #[trigger] byte_at(t3, block.ptr + k)
                == byte_at(t, ptr + k) by {
                assert(owner(t1, nb + k) == owner(t1, nb));
                assert(mapped(t1, nb + k));
                assert(mapped(t2, nb + k));
                assert(byte_at(t3, nb + k) == byte_at(t2, nb + k));
                assert(byte_at(t2, nb + k) == byte_at(t1, ptr + k));
                assert(owner(t, ptr + k) == owner(t, ptr));
                assert(mapped(t, ptr + k));
                assert(byte_at(t1, ptr + k) == byte_at(t, ptr + k));
            }
            assert forall|addr: int| addr != ptr && addr != block.ptr implies #[trigger] allocated(
                t3,
                addr,
            ) == allocated(t, addr) by {
                assert(allocated(t2, addr) == allocated(t1, addr));
                if allocated(t, addr) {
                    assert(allocated(t1, addr));
                }
                if allocated(t3, addr) {
                    assert(allocated(t2, addr));
                }
            }
            if init == AllocInit::Zeroed {
                assert forall|k: int| count <= k < block.size implies #[trigger] byte_at(
                    t3,
                    block.ptr + k,
                ) == 0 by {
                    assert(owner(t1, nb + k) == owner(t1, nb));
                    assert(mapped(t1, nb + k));
                    assert(mapped(t2, nb + k));
                    assert(byte_at(t1, nb + k) == 0);
                    assert(byte_at(t2, nb + k) == byte_at(t1, nb + k));
                    assert(byte_at(t3, nb + k) == byte_at(t2, nb + k));
                }
            }
        }
    }
}

/// Releasing different blocks that the pool at `j` has handed out is the
/// same as freeing them in that pool, one after the other, and keeps the
/// table well-formed.
pub proof fn lemma_release_all(t: Seq<PoolState>, j: int, addrs: Seq<int>, size: int)
    requires
        table_wf(t),
        size != 0,
        0 <= j < t.len(),
        t[j].block_size >= LINK_SIZE,
        addrs.no_duplicates(),
        forall|i: int|
            0 <= i < addrs.len() ==> owner(t, #[trigger] addrs[i]) == j && t[j].is_allocated(
                addrs[i],
            ),
    ensures
        release_all(t, addrs, size) == t.update(j, t[j].after_frees(addrs)),
        table_wf(release_all(t, addrs, size)),
    decreases addrs.len(),
{
    t[j].lemma_after_frees_wf(addrs);
    t[j].lemma_after_frees(addrs);
    lemma_update(t, j, t[j].after_frees(addrs));
    if addrs.len() > 0 {
        let front = addrs.drop_last();
        let last = addrs.last();
        assert forall|i: int| 0 <= i < front.len() implies owner(t, #[trigger] front[i]) == j
            && t[j].is_allocated(front[i]) by {
            assert(front[i] == addrs[i]);
        }
        lemma_release_all(t, j, front, size);
        t[j].lemma_after_frees(front);
        let before = t.update(j, t[j].after_frees(front));
        lemma_update(t, j, t[j].after_frees(front));
        assert(owner(before, last) == j) by {
            assert(addrs[addrs.len() - 1] == last);
        }
        assert(release_all(t, addrs, size) =~= t.update(j, t[j].after_frees(addrs)));
    } else {
        assert(t.update(j, t[j]) =~= t);
    }
}

/// Serving requests from a pool that has blocks on its free list takes the
/// blocks from the front of the list, and keeps the table well-formed.
pub proof fn lemma_alloc_times(t: Seq<PoolState>, size: int, init: AllocInit, n: nat)
    requires
        table_wf(t),
        size > 0,
        fit_by_size(t, size) < t.len(),
        n <= t[fit_by_size(t, size)].free.len(),
    ensures
        table_wf(alloc_times(t, size, init, n)),
        alloc_times(t, size, init, n).len() == t.len(),
        fit_by_size(alloc_times(t, size, init, n), size) == fit_by_size(t, size),
        alloc_times(t, size, init, n)[fit_by_size(t, size)].free == t[fit_by_size(t, size)].free.skip(
            n as int,
        ),
        alloc_times(t, size, init, n)[fit_by_size(t, size)].same_geometry(
            t[fit_by_size(t, size)],
        ),
    decreases n,
{
    let j = fit_by_size(t, size);
    lemma_first_index(t, |p: PoolState| size <= p.block_size, 0);
    if n > 0 {
        let before = alloc_times(t, size, init, (n - 1) as nat);
        lemma_alloc_times(t, size, init, (n - 1) as nat);
        assert(before[j].free.len() > 0);
        lemma_first_index_unique(before, |p: PoolState| !p.exhausted(), j, j);
        assert(serving(before, size) == j);
        lemma_alloc_table(before, size, init);
        let after = before[j].after_alloc().initialized(before[j].next_block(), init);
        lemma_update(before, j, after);
        assert(alloc_times(t, size, init, n) == before.update(j, after));
        assert(t[j].free.skip(n - 1).drop_first() =~= t[j].free.skip(n as int));
    } else {
        assert(t[j].free.skip(0) =~= t[j].free);
    }
}

/// Blocks come back in the reverse order of their release. After different
/// blocks, handed out by the pool with the smallest blocks that hold `size`
/// bytes, were released in the order of `addrs`, request number `n` of that
/// size from then on, counting from zero, is answered with the block that
/// was released `n` places before the last, and with the block size of that
/// pool.
pub proof fn lemma_heap_lifo(
    t: Seq<PoolState>,
    addrs: Seq<int>,
    size: int,
    align: int,
    init: AllocInit,
    n: nat,
)
    requires
        table_wf(t),
        size > 0,
        fit_by_size(t, size) < t.len(),
        t[fit_by_size(t, size)].block_size >= LINK_SIZE,
        addrs.no_duplicates(),
        forall|i: int|
            0 <= i < addrs.len() ==> owner(t, #[trigger] addrs[i]) == fit_by_size(t, size)
                && allocated(t, addrs[i]),
        n < addrs.len(),
    ensures
        alloc_block(alloc_times(release_all(t, addrs, size), size, init, n), size, align)
            matches Ok(block) && block.ptr == addrs[addrs.len() - 1 - n] && block.size
            == t[fit_by_size(t, size)].block_size,
{
    let j = fit_by_size(t, size);
    lemma_first_index(t, |p: PoolState| size <= p.block_size, 0);
    lemma_release_all(t, j, addrs, size);
    t[j].lemma_after_frees(addrs);
    t[j].lemma_after_frees_wf(addrs);
    let released = release_all(t, addrs, size);
    lemma_update(t, j, t[j].after_frees(addrs));
    assert(fit_by_size(released, size) == j);
    lemma_alloc_times(released, size, init, n);
    let served = alloc_times(released, size, init, n);
    let free = addrs.reverse() + t[j].free;
    assert(served[j].free == free.skip(n as int));
    assert(free.skip(n as int)[0] == addrs[addrs.len() - 1 - n]);
    lemma_first_index_unique(served, |p: PoolState| !p.exhausted(), j, j);
    let last = addrs[addrs.len() - 1 - n];
    t[j].lemma_owned(last, last);
}

/// Serving requests from a pool without free blocks hands out its next
/// blocks in the order of their addresses, each with the block size of the
/// pool, and keeps the table well-formed.
pub proof fn lemma_fresh_allocs(t: Seq<PoolState>, size: int, align: int, init: AllocInit, n: nat)
    requires
        table_wf(t),
        size > 0,
        fit_by_size(t, size) < t.len(),
        t[fit_by_size(t, size)].free.len() == 0,
        t[fit_by_size(t, size)].cursor + n <= t[fit_by_size(t, size)].capacity,
    ensures
        ({
            let j = fit_by_size(t, size);
            let u = alloc_times(t, size, init, n);
            &&& table_wf(u)
            &&& u.len() == t.len()
            &&& fit_by_size(u, size) == j
            &&& u[j].same_geometry(t[j])
            &&& u[j].free.len() == 0
            &&& u[j].cursor == t[j].cursor + n
            &&& forall|k: int|
                0 <= k < n ==> owner(u, #[trigger] t[j].block(t[j].cursor + k)) == j && allocated(
                    u,
                    t[j].block(t[j].cursor + k),
                )
            &&& n > 0 ==> (alloc_block(alloc_times(t, size, init, (n - 1) as nat), size, align)
                matches Ok(block) && block.ptr == t[j].block(t[j].cursor + n - 1) && block.size
                == t[j].block_size)
        }),
    decreases n,
{
    let j = fit_by_size(t, size);
    lemma_first_index(t, |p: PoolState| size <= p.block_size, 0);
    if n > 0 {
        let before = alloc_times(t, size, init, (n - 1) as nat);
        lemma_fresh_allocs(t, size, align, init, (n - 1) as nat);
        lemma_first_index_unique(before, |p: PoolState| !p.exhausted(), j, j);
        assert(serving(before, size) == j);
        lemma_alloc_table(before, size, init);
        let after = before[j].after_alloc().initialized(before[j].next_block(), init);
        let u = alloc_times(t, size, init, n);
        lemma_update(before, j, after);
        assert(u == before.update(j, after));
        assert(before[j].next_block() == t[j].block(t[j].cursor + n - 1));
        assert forall|k: int| 0 <= k < n implies owner(
            u,
            #[trigger] t[j].block(t[j].cursor + k),
        ) == j && allocated(u, t[j].block(t[j].cursor + k)) by {
            if k < n - 1 {
                assert(allocated(before, t[j].block(t[j].cursor + k)));
            }
        }
    }
}

/// A pool that was used up by requests of one size, and then got all its
/// blocks back in any order, hands them out again in the reverse of that
/// order. The pool at the first index that fits `size` starts without a
/// block handed out; `addrs` lists all its blocks, each once, in the order
/// of their release. Request number `n` after that, counting from zero, is
/// answered with the block released `n` places before the last, and with
/// the block size of the pool.
pub proof fn lemma_full_pool_lifo(
    t: Seq<PoolState>,
    addrs: Seq<int>,
    size: int,
    align: int,
    first: AllocInit,
    init: AllocInit,
    n: nat,
)
    requires
        table_wf(t),
        size > 0,
        fit_by_size(t, size) < t.len(),
        t[fit_by_size(t, size)].block_size >= LINK_SIZE,
        t[fit_by_size(t, size)].cursor == 0,
        t[fit_by_size(t, size)].free.len() == 0,
        addrs.len() == t[fit_by_size(t, size)].capacity,
        addrs.no_duplicates(),
        forall|i: int|
            0 <= i < addrs.len() ==> exists|k: int|
                0 <= k < addrs.len() && #[trigger] addrs[i] == t[fit_by_size(t, size)].block(k),
        n < addrs.len(),
    ensures
        alloc_block(
            alloc_times(
                release_all(
                    alloc_times(t, size, first, t[fit_by_size(t, size)].capacity as nat),
                    addrs,
                    size,
                ),
                size,
                init,
                n,
            ),
            size,
            align,
        ) matches Ok(block) && block.ptr == addrs[addrs.len() - 1 - n] && block.size
            == t[fit_by_size(t, size)].block_size,
{
    let j = fit_by_size(t, size);
    let full = alloc_times(t, size, first, t[j].capacity as nat);
    lemma_fresh_allocs(t, size, align, first, t[j].capacity as nat);
    assert forall|i: int| 0 <= i < addrs.len() implies owner(full, #[trigger] addrs[i]) == j
        && allocated(full, addrs[i]) by {
        let k = choose|k: int| 0 <= k < addrs.len() && addrs[i] == t[j].block(k);
        assert(owner(full, t[j].block(t[j].cursor + k)) == j);
    }
    lemma_heap_lifo(full, addrs, size, align, init, n);
}

} // verus!
