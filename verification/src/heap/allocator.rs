//! Allocation, release and resizing of blocks over a table of pools.
use vstd::prelude::*;
use crate::heap::model::{
    alloc_block, alloc_table, allocated, block_handle, block_size_at, byte_at, copy_table,
    copyable, first_index, fit_by_size, lemma_first_index, lemma_first_index_unique, lemma_owner,
    lemma_relocate, lemma_update, mapped, next_in_line, ordered, owner, releasable,
    release_table, relocate_table, resizable, table_wf, writable, write_table,
};
use crate::heap::pool::{Fits, Pool};
use crate::heap::request::{AllocErr, AllocInit, Layout, MemoryBlock, ReallocPlacement};
use crate::heap::state::PoolState;

verus! {

/// Allocator for a generic memory pools layout.
///
/// The trait is supposed to be implemented for a table of pools, ordered by
/// block size and by address.
pub trait Allocator: Sized {
    /// The total number of memory pools.
    const POOL_COUNT: usize;

    /// The pools of the table, in order.
    spec fn pools(&self) -> Seq<Pool>;

    /// Returns a reference to a pool, without doing bounds checking.
    ///
    /// The index must be within the table.
    fn get_pool_unchecked(&self, index: usize) -> (pool: &Pool)
        requires
            index < self.pools().len(),
        ensures
            *pool == self.pools()[index as int],
    ;

    /// Returns a mutable reference to a pool, without doing bounds checking.
    ///
    /// The index must be within the table. No other pool changes.
    fn get_pool_unchecked_mut(&mut self, index: usize) -> (pool: &mut Pool)
        requires
            index < old(self).pools().len(),
        ensures
            *pool == old(self).pools()[index as int],
            final(self).pools() == old(self).pools().update(index as int, *final(pool)),
    ;
}

/// The states of `pools`, in order.
pub open spec fn states(pools: Seq<Pool>) -> Seq<PoolState> {
    Seq::new(pools.len(), |i: int| pools[i]@)
}

/// The states of the pools of `heap`, in order.
pub open spec fn table<A: Allocator>(heap: &A) -> Seq<PoolState> {
    states(heap.pools())
}

/// Whether `heap` holds as many pools as it declares, each of them
/// well-formed.
pub open spec fn pools_wf<A: Allocator>(heap: &A) -> bool {
    &&& heap.pools().len() == A::POOL_COUNT
    &&& forall|i: int| 0 <= i < heap.pools().len() ==> (#[trigger] heap.pools()[i]).wf()
}

/// The invariant of a heap: well-formed pools in order.
pub open spec fn heap_wf<A: Allocator>(heap: &A) -> bool {
    &&& pools_wf(heap)
    &&& ordered(table(heap))
}

/// Whether `value` fits every pool that follows a pool it fits.
pub open spec fn monotone<T: Fits>(value: T, t: Seq<PoolState>) -> bool {
    forall|i: int, j: int|
        0 <= i <= j < t.len() && #[trigger] value.fits_spec(t[i]) ==> #[trigger] value.fits_spec(
            t[j],
        )
}

/// The table of a well-formed heap is well-formed.
pub proof fn lemma_heap_wf<A: Allocator>(heap: &A)
    requires
        heap_wf(heap),
    ensures
        table_wf(table(heap)),
        table(heap).len() == A::POOL_COUNT,
{
    let t = table(heap);
    assert forall|i: int| 0 <= i < t.len() implies (#[trigger] t[i]).wf() by {
        heap.pools()[i].lemma_wf();
    }
}

/// A request fits every pool after one that it fits.
pub proof fn lemma_monotone_by_size(t: Seq<PoolState>, layout: &Layout)
    requires
        ordered(t),
    ensures
        monotone(layout, t),
        forall|k: int| 0 <= k < t.len() ==> (layout.fits_spec(#[trigger] t[k]) <==> layout.size()
            <= t[k].block_size),
        first_index(t, |p: PoolState| layout.fits_spec(p), 0) == fit_by_size(
            t,
            layout.size() as int,
        ),
{
    lemma_first_index(t, |p: PoolState| layout.size() as int <= p.block_size, 0);
    lemma_first_index_unique(
        t,
        |p: PoolState| layout.fits_spec(p),
        0,
        fit_by_size(t, layout.size() as int),
    );
}

/// An address below the end of a pool is below the end of every pool after
/// it.
pub proof fn lemma_monotone_by_address(t: Seq<PoolState>, addr: usize)
    requires
        table_wf(t),
    ensures
        monotone(addr, t),
        forall|k: int| 0 <= k < t.len() ==> (addr.fits_spec(#[trigger] t[k]) <==> addr
            < t[k].edge()),
        first_index(t, |p: PoolState| addr.fits_spec(p), 0) == owner(t, addr as int),
{
    lemma_first_index(t, |p: PoolState| (addr as int) < p.edge(), 0);
    lemma_first_index_unique(t, |p: PoolState| addr.fits_spec(p), 0, owner(t, addr as int));
    assert forall|i: int, j: int|
        0 <= i <= j < t.len() && #[trigger] addr.fits_spec(t[i]) implies #[trigger] addr.fits_spec(
        t[j],
    ) by {
        t[j].lemma_edge();
    }
}

/// Does a binary search for the pool with the smallest block size to fit
/// `value`.
///
/// The result is the index of a pool that `value` fits while it does not fit
/// the pool before, or the number of pools. Where fitting is monotone over
/// the table, it is the least index of a pool that `value` fits.
pub fn binary_search<A: Allocator, T: Fits>(heap: &A, value: T) -> (index: usize)
    requires
        pools_wf(heap),
    ensures
        index <= A::POOL_COUNT,
        index < A::POOL_COUNT ==> value.fits_spec(table(heap)[index as int]),
        index > 0 ==> !value.fits_spec(table(heap)[index - 1]),
        monotone(value, table(heap)) ==> forall|k: int|
            0 <= k < A::POOL_COUNT ==> (k < index <==> !#[trigger] value.fits_spec(
                table(heap)[k],
            )),
        monotone(value, table(heap)) ==> index == first_index(
            table(heap),
            |p: PoolState| value.fits_spec(p),
            0,
        ),
{
    let mut left: usize = 0;
    let mut right: usize = A::POOL_COUNT;
    while right > left
        invariant
            pools_wf(heap),
            left <= right <= A::POOL_COUNT,
            right < A::POOL_COUNT ==> value.fits_spec(table(heap)[right as int]),
            left > 0 ==> !value.fits_spec(table(heap)[left - 1]),
        decreases right - left,
    {
        let span = right - left;
        let half = span >> 1;
        assert(half == span / 2) by (bit_vector)
            requires
                half == span >> 1,
        ;
        let middle = left + half;
        let pool = heap.get_pool_unchecked(middle);
        if value.fits(pool) {
            right = middle;
        } else {
            left = middle + 1;
        }
    }
    proof {
        let t = table(heap);
        if monotone(value, t) {
            assert forall|k: int| 0 <= k < A::POOL_COUNT implies (k < left <==> !#[trigger] value.fits_spec(
                t[k],
            )) by {
                if k < left {
                    if value.fits_spec(t[k]) {
                        assert(value.fits_spec(t[left - 1]));
                    }
                } else {
                    assert(value.fits_spec(t[left as int]));
                }
            }
            lemma_first_index_unique(t, |p: PoolState| value.fits_spec(p), 0, left as int);
        }
    }
    left
}

/// Allocates a block for `layout` from the pool with the smallest blocks that
/// hold it, or, where that pool is exhausted, from the next larger pool with
/// a block left.
pub fn allocate<A: Allocator>(heap: &mut A, layout: Layout, init: AllocInit) -> (r: Result<
    MemoryBlock,
    AllocErr,
>)
    requires
        heap_wf(old(heap)),
    ensures
        heap_wf(final(heap)),
        r == alloc_block(table(old(heap)), layout.size() as int, layout.align() as int),
        table(final(heap)) == alloc_table(table(old(heap)), layout.size() as int, init),
        layout.size() == 0 ==> *final(heap) == *old(heap),
{
    let ghost t = table(heap);
    if layout.size() == 0 {
        return Ok(MemoryBlock { ptr: layout.dangling(), size: 0 });
    }
    let start = binary_search(heap, &layout);
    proof {
        lemma_heap_wf(heap);
        lemma_monotone_by_size(t, &layout);
        lemma_first_index_unique(t, |p: PoolState| layout.size() as int <= p.block_size, 0, start as int);
    }
    let mut pool_idx: usize = start;
    while pool_idx < A::POOL_COUNT
        invariant
            heap_wf(heap),
            table(heap) == t,
            table(old(heap)) == t,
            start <= pool_idx <= A::POOL_COUNT,
            forall|k: int| start <= k < pool_idx ==> (#[trigger] t[k]).exhausted(),
            start == fit_by_size(t, layout.size() as int),
            layout.size() != 0,
        decreases A::POOL_COUNT - pool_idx,
    {
        proof {
            lemma_heap_wf(heap);
        }
        let pool = heap.get_pool_unchecked_mut(pool_idx);
        let found = match pool.allocate() {
            Some(ptr) => {
                match init {
                    AllocInit::Uninitialized => {},
                    AllocInit::Zeroed => {
                        proof {
                            t[pool_idx as int].lemma_alloc();
                        }
                        pool.zero_block(ptr);
                    },
                }
                Some(MemoryBlock { ptr, size: pool.size() })
            },
            None => None,
        };
        if let Some(block) = found {
            proof {
                let j = pool_idx as int;
                let after = t[j].after_alloc().initialized(t[j].next_block(), init);
                lemma_first_index_unique(t, |p: PoolState| !p.exhausted(), start as int, j);
                lemma_update(t, j, after);
                assert(table(heap) == t.update(j, after));
            }
            return Ok(block);
        }
        assert(table(heap) == t);
        pool_idx = pool_idx + 1;
    }
    proof {
        lemma_first_index_unique(t, |p: PoolState| !p.exhausted(), start as int, t.len() as int);
    }
    Err(AllocErr::Exhausted)
}

/// Releases the block at `ptr`, which was allocated for `layout`, to the pool
/// that owns its address.
pub fn dealloc<A: Allocator>(heap: &mut A, ptr: usize, layout: Layout)
    requires
        heap_wf(old(heap)),
        layout.size() != 0 ==> releasable(table(old(heap)), ptr as int),
    ensures
        heap_wf(final(heap)),
        table(final(heap)) == release_table(
            table(old(heap)),
            ptr as int,
            layout.size() as int,
        ),
        layout.size() == 0 ==> *final(heap) == *old(heap),
{
    let ghost t = table(heap);
    if layout.size() == 0 {
        return ;
    }
    let index = binary_search(heap, ptr);
    proof {
        lemma_heap_wf(heap);
        lemma_monotone_by_address(t, ptr);
        lemma_first_index_unique(t, |p: PoolState| (ptr as int) < p.edge(), 0, index as int);
    }
    let pool = heap.get_pool_unchecked_mut(index);
    pool.dealloc(ptr);
    proof {
        let after = t[index as int].after_free(ptr as int);
        lemma_update(t, index as int, after);
        assert(table(heap) == t.update(index as int, after));
    }
}

/// Copies `count` bytes from the block at `src` to the block at `dst`.
fn copy_nonoverlapping<A: Allocator>(heap: &mut A, src: usize, dst: usize, count: usize)
    requires
        heap_wf(old(heap)),
        copyable(table(old(heap)), src as int, dst as int, count as int),
    ensures
        heap_wf(final(heap)),
        table(final(heap)) == copy_table(
            table(old(heap)),
            src as int,
            dst as int,
            count as int,
        ),
{
    let ghost t = table(heap);
    if count == 0 {
        return ;
    }
    let i = binary_search(heap, src);
    let j = binary_search(heap, dst);
    proof {
        lemma_heap_wf(heap);
        lemma_monotone_by_address(t, src);
        lemma_first_index_unique(t, |p: PoolState| (src as int) < p.edge(), 0, i as int);
        lemma_monotone_by_address(t, dst);
        lemma_first_index_unique(t, |p: PoolState| (dst as int) < p.edge(), 0, j as int);
        t[i as int].lemma_owned(src as int, src as int);
        t[j as int].lemma_owned(dst as int, dst as int);
        if i == j {
            t[i as int].lemma_owned(src as int, dst as int);
        }
    }
    let ghost from = src - t[i as int].base;
    let ghost data = t[i as int].bytes.subrange(from, from + count);
    let mut done: usize = 0;
    assert(t[j as int].with_bytes(dst as int, data.subrange(0, 0)) =~= t[j as int]);
    assert(t.update(j as int, t[j as int]) =~= t);
    while done < count
        invariant
            heap_wf(heap),
            table_wf(t),
            t.len() == A::POOL_COUNT,
            table(old(heap)) == t,
            i == owner(t, src as int),
            j == owner(t, dst as int),
            copyable(t, src as int, dst as int, count as int),
            done <= count,
            from == src - t[i as int].base,
            data == t[i as int].bytes.subrange(from, from + count),
            t[i as int].base <= src,
            src + t[i as int].block_size <= t[i as int].edge(),
            t[j as int].base <= dst,
            dst + t[j as int].block_size <= t[j as int].edge(),
            i == j ==> src + t[i as int].block_size <= dst || dst + t[i as int].block_size <= src,
            table(heap) == t.update(
                j as int,
                t[j as int].with_bytes(dst as int, data.subrange(0, done as int)),
            ),
        decreases count - done,
    {
        let ghost now = table(heap);
        let ghost before = t[j as int].with_bytes(dst as int, data.subrange(0, done as int));
        proof {
            assert(now[j as int] == before);
            assert(heap.pools()[i as int]@ == now[i as int]);
            assert(heap.pools()[j as int]@ == now[j as int]);
            assert(now[i as int].same_geometry(t[i as int]));
            assert(now[i as int].bytes[from + done] == t[i as int].bytes[from + done]);
            t[j as int].lemma_same_blocks(before, dst as int);
            before.lemma_in_allocated(dst as int, dst + done, 1);
        }
        let value = heap.get_pool_unchecked(i).read_byte(src + done);
        assert(value == data[done as int]);
        let pool = heap.get_pool_unchecked_mut(j);
        pool.write_byte(dst + done, value);
        proof {
            let after = t[j as int].with_bytes(dst as int, data.subrange(0, done + 1));
            assert(before.with_bytes(dst + done, seq![value]) =~= after);
            lemma_update(t, j as int, after);
            let next = table(heap);
            assert forall|k: int| 0 <= k < next.len() implies next[k] == t.update(
                j as int,
                after,
            )[k] by {
                if k != j {
                    assert(next[k] == now[k]);
                }
            }
            assert(next =~= t.update(j as int, after));
        }
        done = done + 1;
    }
    assert(data.subrange(0, count as int) =~= data);
}

/// Moves the block at `ptr` to a block for `new_size` bytes, with its first
/// `count` bytes.
fn relocate<A: Allocator>(
    heap: &mut A,
    ptr: usize,
    layout: Layout,
    new_size: usize,
    count: usize,
    init: AllocInit,
) -> (r: Result<MemoryBlock, AllocErr>)
    requires
        heap_wf(old(heap)),
        resizable(table(old(heap)), ptr as int, layout.size() as int),
        count <= layout.size(),
        count <= new_size,
    ensures
        heap_wf(final(heap)),
        r == alloc_block(table(old(heap)), new_size as int, layout.align() as int),
        table(final(heap)) == relocate_table(
            table(old(heap)),
            ptr as int,
            layout.size() as int,
            new_size as int,
            layout.align() as int,
            count as int,
            init,
        ),
{
    proof {
        lemma_heap_wf(heap);
        lemma_relocate(
            table(heap),
            ptr as int,
            layout.size() as int,
            new_size as int,
            layout.align() as int,
            count as int,
            init,
        );
    }
    let new_layout = Layout::from_size_align_unchecked(new_size, layout.align());
    let block = match allocate(heap, new_layout, init) {
        Ok(block) => block,
        Err(err) => {
            return Err(err);
        },
    };
    copy_nonoverlapping(heap, ptr, block.ptr, count);
    dealloc(heap, ptr, layout);
    Ok(block)
}

/// Whether `heap` holds the block at `ptr` for `layout`: the heap is
/// well-formed and the block is handed out. A request of size zero holds no
/// block, whatever the heap.
pub open spec fn holds_block<A: Allocator>(heap: &A, ptr: usize, layout: Layout) -> bool {
    layout.size() != 0 ==> heap_wf(heap) && allocated(table(heap), ptr as int)
}

/// The handle of the block at `ptr`, allocated for `layout`: its address and
/// the block size of the pool that owns it.
fn handle<A: Allocator>(heap: &A, ptr: usize, layout: Layout) -> (block: MemoryBlock)
    requires
        holds_block(heap, ptr, layout),
    ensures
        block == block_handle(table(heap), ptr, layout.size()),
{
    if layout.size() == 0 {
        return MemoryBlock { ptr, size: 0 };
    }
    proof {
        lemma_heap_wf(heap);
        lemma_monotone_by_address(table(heap), ptr);
    }
    let index = binary_search(heap, ptr);
    MemoryBlock { ptr, size: heap.get_pool_unchecked(index).size() }
}

/// Extends the block at `ptr`, allocated for `layout`, to `new_size` bytes.
///
/// A request that must stay in place fails, whatever room its pool has. A
/// request for the size that the block has is answered with the handle of
/// the block as it is: its address and the block size of its pool. Any other
/// request moves the block: a new block is allocated and
/// initialized as `init` asks, the bytes of the old block are copied to its
/// start, and the old block is released. Where no new block can be had, the
/// heap stays as it is.
pub fn grow<A: Allocator>(
    heap: &mut A,
    ptr: usize,
    layout: Layout,
    new_size: usize,
    placement: ReallocPlacement,
    init: AllocInit,
) -> (r: Result<MemoryBlock, AllocErr>)
    requires
        placement == ReallocPlacement::MayMove && new_size == layout.size() ==> holds_block(
            old(heap),
            ptr,
            layout,
        ),
        placement == ReallocPlacement::MayMove && new_size != layout.size() ==> {
            &&& heap_wf(old(heap))
            &&& new_size >= layout.size()
            &&& resizable(table(old(heap)), ptr as int, layout.size() as int)
        },
    ensures
        placement == ReallocPlacement::InPlace ==> r == Err::<MemoryBlock, AllocErr>(
            AllocErr::Unsupported,
        ) && *final(heap) == *old(heap),
        placement == ReallocPlacement::MayMove && new_size == layout.size() ==> r == Ok::<
            MemoryBlock,
            AllocErr,
        >(block_handle(table(old(heap)), ptr, layout.size())) && *final(heap) == *old(heap),
        placement == ReallocPlacement::MayMove && new_size != layout.size() ==> {
            &&& heap_wf(final(heap))
            &&& r == alloc_block(table(old(heap)), new_size as int, layout.align() as int)
            &&& table(final(heap)) == relocate_table(
                table(old(heap)),
                ptr as int,
                layout.size() as int,
                new_size as int,
                layout.align() as int,
                layout.size() as int,
                init,
            )
        },
        placement == ReallocPlacement::MayMove && new_size != layout.size() ==> (r matches Ok(
            block,
        ) ==> {
            &&& allocated(table(final(heap)), block.ptr as int)
            &&& new_size <= block.size == block_size_at(table(final(heap)), block.ptr as int)
            &&& layout.size() != 0 ==> block.ptr != ptr && next_in_line(
                table(final(heap)),
                ptr as int,
            ) && !allocated(table(final(heap)), ptr as int)
            &&& forall|addr: int|
                addr != ptr && addr != block.ptr ==> #[trigger] allocated(
                    table(final(heap)),
                    addr,
                ) == allocated(table(old(heap)), addr)
            &&& forall|k: int|
                0 <= k < layout.size() ==> #[trigger] byte_at(table(final(heap)), block.ptr + k)
                    == byte_at(table(old(heap)), ptr + k)
            &&& init == AllocInit::Zeroed ==> forall|k: int|
                layout.size() <= k < block.size ==> #[trigger] byte_at(
                    table(final(heap)),
                    block.ptr + k,
                ) == 0
        }),
{
    match placement {
        ReallocPlacement::InPlace => Err(AllocErr::Unsupported),
        ReallocPlacement::MayMove => {
            let size = layout.size();
            if new_size == size {
                return Ok(handle(heap, ptr, layout));
            }
            proof {
                lemma_heap_wf(heap);
                lemma_relocate(
                    table(heap),
                    ptr as int,
                    size as int,
                    new_size as int,
                    layout.align() as int,
                    size as int,
                    init,
                );
            }
            relocate(heap, ptr, layout, new_size, size, init)
        },
    }
}

/// Reduces the block at `ptr`, allocated for `layout`, to `new_size` bytes.
///
/// A request that must stay in place fails, whatever its size. A request for
/// the size that the block has is answered with the handle of the block as it
/// is: its address and the block size of its pool. Any other request moves
/// the block: a new block is allocated, its contents left as
/// they are, the first `new_size` bytes of the old block are copied to its
/// start, and the old block is released. Where no new block can be had, the
/// heap stays as it is.
pub fn shrink<A: Allocator>(
    heap: &mut A,
    ptr: usize,
    layout: Layout,
    new_size: usize,
    placement: ReallocPlacement,
) -> (r: Result<MemoryBlock, AllocErr>)
    requires
        placement == ReallocPlacement::MayMove && new_size == layout.size() ==> holds_block(
            old(heap),
            ptr,
            layout,
        ),
        placement == ReallocPlacement::MayMove && new_size != layout.size() ==> {
            &&& heap_wf(old(heap))
            &&& new_size <= layout.size()
            &&& resizable(table(old(heap)), ptr as int, layout.size() as int)
        },
    ensures
        placement == ReallocPlacement::InPlace ==> r == Err::<MemoryBlock, AllocErr>(
            AllocErr::Unsupported,
        ) && *final(heap) == *old(heap),
        placement == ReallocPlacement::MayMove && new_size == layout.size() ==> r == Ok::<
            MemoryBlock,
            AllocErr,
        >(block_handle(table(old(heap)), ptr, layout.size())) && *final(heap) == *old(heap),
        placement == ReallocPlacement::MayMove && new_size != layout.size() ==> {
            &&& heap_wf(final(heap))
            &&& r == alloc_block(table(old(heap)), new_size as int, layout.align() as int)
            &&& table(final(heap)) == relocate_table(
                table(old(heap)),
                ptr as int,
                layout.size() as int,
                new_size as int,
                layout.align() as int,
                new_size as int,
                AllocInit::Uninitialized,
            )
        },
        placement == ReallocPlacement::MayMove && new_size != layout.size() ==> (r matches Ok(
            block,
        ) ==> {
            &&& new_size != 0 ==> allocated(table(final(heap)), block.ptr as int) && new_size
                <= block.size == block_size_at(table(final(heap)), block.ptr as int)
            &&& next_in_line(table(final(heap)), ptr as int) && !allocated(
                table(final(heap)),
                ptr as int,
            )
            &&& new_size != 0 ==> block.ptr != ptr
            &&& forall|addr: int|
                addr != ptr && addr != block.ptr ==> #[trigger] allocated(
                    table(final(heap)),
                    addr,
                ) == allocated(table(old(heap)), addr)
            &&& forall|k: int|
                0 <= k < new_size ==> #[trigger] byte_at(table(final(heap)), block.ptr + k)
                    == byte_at(table(old(heap)), ptr + k)
        }),
{
    match placement {
        ReallocPlacement::InPlace => Err(AllocErr::Unsupported),
        ReallocPlacement::MayMove => {
            let size = layout.size();
            if new_size == size {
                return Ok(handle(heap, ptr, layout));
            }
            proof {
                lemma_heap_wf(heap);
                lemma_relocate(
                    table(heap),
                    ptr as int,
                    size as int,
                    new_size as int,
                    layout.align() as int,
                    new_size as int,
                    AllocInit::Uninitialized,
                );
            }
            relocate(heap, ptr, layout, new_size, new_size, AllocInit::Uninitialized)
        },
    }
}

/// Reads the byte at address `addr`, which lies within the region of a pool.
pub fn read_byte<A: Allocator>(heap: &A, addr: usize) -> (value: u8)
    requires
        heap_wf(heap),
        mapped(table(heap), addr as int),
    ensures
        value == byte_at(table(heap), addr as int),
{
    proof {
        lemma_heap_wf(heap);
        lemma_monotone_by_address(table(heap), addr);
    }
    let index = binary_search(heap, addr);
    proof {
        lemma_first_index_unique(
            table(heap),
            |p: PoolState| (addr as int) < p.edge(),
            0,
            index as int,
        );
    }
    heap.get_pool_unchecked(index).read_byte(addr)
}

/// Writes `value` to the byte at address `addr`, which lies within a block
/// that is handed out.
pub fn write_byte<A: Allocator>(heap: &mut A, addr: usize, value: u8)
    requires
        heap_wf(old(heap)),
        writable(table(old(heap)), addr as int),
    ensures
        heap_wf(final(heap)),
        table(final(heap)) == write_table(table(old(heap)), addr as int, value),
{
    let ghost t = table(heap);
    proof {
        lemma_heap_wf(heap);
        lemma_monotone_by_address(t, addr);
    }
    let index = binary_search(heap, addr);
    proof {
        lemma_first_index_unique(t, |p: PoolState| (addr as int) < p.edge(), 0, index as int);
    }
    let pool = heap.get_pool_unchecked_mut(index);
    pool.write_byte(addr, value);
    proof {
        let after = t[index as int].with_bytes(addr as int, seq![value]);
        lemma_update(t, index as int, after);
        assert(table(heap) =~= t.update(index as int, after));
    }
}

} // verus!
