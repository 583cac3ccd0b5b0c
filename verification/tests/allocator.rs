use drone_core::heap::allocator::{
    allocate, binary_search, dealloc, grow, read_byte, shrink, write_byte, Allocator,
};
use drone_core::heap::pool::Pool;
use drone_core::heap::request::{AllocErr, AllocInit, Layout, MemoryBlock, ReallocPlacement};
use drone_core::heap::table::Heap;

type TestHeap = Heap<10>;

fn search_layout(heap: &TestHeap, size: usize) -> Option<usize> {
    let pool_idx = binary_search(heap, &Layout::from_size_align(size, 4).unwrap());
    if pool_idx < TestHeap::POOL_COUNT {
        Some(heap.get_pool_unchecked(pool_idx).size())
    } else {
        None
    }
}

fn search_ptr(heap: &TestHeap, ptr: usize) -> Option<usize> {
    let pool_idx = binary_search(heap, ptr);
    if pool_idx < TestHeap::POOL_COUNT {
        Some(heap.get_pool_unchecked(pool_idx).size())
    } else {
        None
    }
}

fn alloc_and_set(heap: &mut TestHeap, layout: Layout, value: u8) {
    let ptr = allocate(heap, layout, AllocInit::Uninitialized).unwrap().ptr;
    write_byte(heap, ptr, value);
}

fn word(heap: &TestHeap, addr: usize) -> usize {
    let mut bytes = [0u8; 8];
    for (k, byte) in bytes.iter_mut().enumerate() {
        *byte = read_byte(heap, addr + k);
    }
    u64::from_le_bytes(bytes) as usize
}

fn reference_heap(o: usize, capacity: usize) -> TestHeap {
    let sizes = [2, 5, 8, 12, 16, 23, 38, 56, 72, 91];
    let mut address = o;
    let pools = sizes
        .iter()
        .map(|&size| {
            let pool = Pool::new(address, size, capacity);
            address += size * capacity;
            pool
        })
        .collect();
    TestHeap::new(pools).unwrap()
}

fn small_heap() -> Heap<3> {
    Heap::new(vec![Pool::new(0x100, 8, 1), Pool::new(0x108, 16, 1), Pool::new(0x118, 32, 2)])
        .unwrap()
}

#[test]
fn test_binary_search() {
    let heap = TestHeap::new(vec![
        Pool::new(20, 2, 100),
        Pool::new(220, 5, 100),
        Pool::new(720, 8, 100),
        Pool::new(1520, 12, 100),
        Pool::new(2720, 16, 100),
        Pool::new(4320, 23, 100),
        Pool::new(6620, 38, 100),
        Pool::new(10420, 56, 100),
        Pool::new(16020, 72, 100),
        Pool::new(23220, 91, 100),
    ])
    .unwrap();
    assert_eq!(search_layout(&heap, 1), Some(2));
    assert_eq!(search_layout(&heap, 2), Some(2));
    assert_eq!(search_layout(&heap, 15), Some(16));
    assert_eq!(search_layout(&heap, 16), Some(16));
    assert_eq!(search_layout(&heap, 17), Some(23));
    assert_eq!(search_layout(&heap, 91), Some(91));
    assert_eq!(search_layout(&heap, 92), None);
    assert_eq!(search_ptr(&heap, 0), Some(2));
    assert_eq!(search_ptr(&heap, 20), Some(2));
    assert_eq!(search_ptr(&heap, 219), Some(2));
    assert_eq!(search_ptr(&heap, 220), Some(5));
    assert_eq!(search_ptr(&heap, 719), Some(5));
    assert_eq!(search_ptr(&heap, 720), Some(8));
    assert_eq!(search_ptr(&heap, 721), Some(8));
    assert_eq!(search_ptr(&heap, 5000), Some(23));
    assert_eq!(search_ptr(&heap, 23220), Some(91));
    assert_eq!(search_ptr(&heap, 32319), Some(91));
    assert_eq!(search_ptr(&heap, 32320), None);
    assert_eq!(search_ptr(&heap, 50000), None);
}

#[test]
fn allocations() {
    let o: usize = 0x2000_0000;
    let mut heap = TestHeap::new(vec![
        Pool::new(o + 0, 2, 10),
        Pool::new(o + 20, 5, 10),
        Pool::new(o + 70, 8, 10),
        Pool::new(o + 150, 12, 10),
        Pool::new(o + 270, 16, 10),
        Pool::new(o + 430, 23, 10),
        Pool::new(o + 660, 38, 10),
        Pool::new(o + 1040, 56, 10),
        Pool::new(o + 1600, 72, 10),
        Pool::new(o + 2320, 91, 10),
    ])
    .unwrap();
    let layout = Layout::from_size_align(32, 1).unwrap();
    alloc_and_set(&mut heap, layout, 111);
    assert_eq!(read_byte(&heap, o + 660), 111);
    alloc_and_set(&mut heap, layout, 222);
    assert_eq!(read_byte(&heap, o + 698), 222);
    alloc_and_set(&mut heap, layout, 123);
    assert_eq!(read_byte(&heap, o + 736), 123);
    dealloc(&mut heap, o + 660, layout);
    assert_eq!(read_byte(&heap, o + 660), 0);
    dealloc(&mut heap, o + 736, layout);
    assert_eq!(word(&heap, o + 736), o + 660);
    alloc_and_set(&mut heap, layout, 202);
    assert_eq!(read_byte(&heap, o + 736), 202);
    dealloc(&mut heap, o + 698, layout);
    assert_eq!(word(&heap, o + 698), o + 660);
    dealloc(&mut heap, o + 736, layout);
    assert_eq!(word(&heap, o + 736), o + 698);
}

#[test]
fn reference_table_resolves_sizes() {
    let heap = reference_heap(0x1000, 10);
    assert_eq!(search_layout(&heap, 15), Some(16));
    assert_eq!(search_layout(&heap, 17), Some(23));
    assert_eq!(search_layout(&heap, 92), None);
    assert_eq!(binary_search(&heap, &Layout::from_size_align(15, 1).unwrap()), 4);
    assert_eq!(binary_search(&heap, &Layout::from_size_align(17, 1).unwrap()), 5);
    assert_eq!(binary_search(&heap, &Layout::from_size_align(92, 1).unwrap()), 10);
}

#[test]
fn search_by_size_is_monotone() {
    let heap = reference_heap(0x1000, 10);
    let mut last = 0;
    for size in 0..120 {
        let index = binary_search(&heap, &Layout::from_size_align(size, 1).unwrap());
        assert!(last <= index);
        if index < 10 {
            assert!(heap.get_pool_unchecked(index).size() >= size);
        }
        if index > 0 {
            assert!(heap.get_pool_unchecked(index - 1).size() < size);
        }
        last = index;
    }
    assert_eq!(last, 10);
}

#[test]
fn search_by_address_finds_the_owner() {
    let heap = reference_heap(0x1000, 10);
    for index in 0..10 {
        let pool = heap.get_pool_unchecked(index);
        let (base, edge) = (pool.address(), pool.edge());
        assert_eq!(binary_search(&heap, base), index);
        assert_eq!(binary_search(&heap, base + 1), index);
        assert_eq!(binary_search(&heap, edge - 1), index);
    }
    let end = heap.get_pool_unchecked(9).edge();
    assert_eq!(end, 0x1000 + 3230);
    assert_eq!(binary_search(&heap, end), 10);
    assert_eq!(binary_search(&heap, end + 1), 10);
    assert_eq!(binary_search(&heap, usize::MAX), 10);
}

#[test]
fn zero_size_request_touches_no_pool() {
    let mut heap = small_heap();
    let empty = Layout::from_size_align(0, 4).unwrap();
    assert_eq!(
        allocate(&mut heap, empty, AllocInit::Zeroed),
        Ok(MemoryBlock { ptr: 4, size: 0 })
    );
    assert_eq!(
        allocate(&mut heap, empty, AllocInit::Uninitialized),
        Ok(MemoryBlock { ptr: 4, size: 0 })
    );
    dealloc(&mut heap, 4, empty);
    let one = Layout::from_size_align(1, 1).unwrap();
    assert_eq!(
        allocate(&mut heap, one, AllocInit::Uninitialized),
        Ok(MemoryBlock { ptr: 0x100, size: 8 })
    );
}

#[test]
fn exhausted_pool_escalates_to_larger_pool() {
    let mut heap = small_heap();
    let layout = Layout::from_size_align(5, 1).unwrap();
    assert_eq!(
        allocate(&mut heap, layout, AllocInit::Uninitialized),
        Ok(MemoryBlock { ptr: 0x100, size: 8 })
    );
    assert_eq!(
        allocate(&mut heap, layout, AllocInit::Uninitialized),
        Ok(MemoryBlock { ptr: 0x108, size: 16 })
    );
    assert_eq!(
        allocate(&mut heap, layout, AllocInit::Uninitialized),
        Ok(MemoryBlock { ptr: 0x118, size: 32 })
    );
    assert_eq!(
        allocate(&mut heap, layout, AllocInit::Uninitialized),
        Ok(MemoryBlock { ptr: 0x138, size: 32 })
    );
    assert_eq!(allocate(&mut heap, layout, AllocInit::Uninitialized), Err(AllocErr::Exhausted));
}

#[test]
fn request_fails_when_all_fitting_pools_are_exhausted() {
    let mut heap = small_heap();
    let large = Layout::from_size_align(17, 1).unwrap();
    assert!(allocate(&mut heap, large, AllocInit::Uninitialized).is_ok());
    assert!(allocate(&mut heap, large, AllocInit::Uninitialized).is_ok());
    assert_eq!(allocate(&mut heap, large, AllocInit::Uninitialized), Err(AllocErr::Exhausted));
    let small = Layout::from_size_align(8, 1).unwrap();
    assert_eq!(
        allocate(&mut heap, small, AllocInit::Uninitialized),
        Ok(MemoryBlock { ptr: 0x100, size: 8 })
    );
    let too_large = Layout::from_size_align(33, 1).unwrap();
    assert_eq!(allocate(&mut heap, too_large, AllocInit::Uninitialized), Err(AllocErr::Exhausted));
}

#[test]
fn released_block_is_reused_first() {
    let mut heap = small_heap();
    let layout = Layout::from_size_align(20, 1).unwrap();
    let first = allocate(&mut heap, layout, AllocInit::Uninitialized).unwrap().ptr;
    let second = allocate(&mut heap, layout, AllocInit::Uninitialized).unwrap().ptr;
    assert_eq!((first, second), (0x118, 0x138));
    dealloc(&mut heap, first, layout);
    dealloc(&mut heap, second, layout);
    assert_eq!(allocate(&mut heap, layout, AllocInit::Uninitialized).unwrap().ptr, second);
    assert_eq!(allocate(&mut heap, layout, AllocInit::Uninitialized).unwrap().ptr, first);
}

#[test]
fn zeroed_allocation_clears_the_whole_block() {
    let mut heap = small_heap();
    let layout = Layout::from_size_align(20, 1).unwrap();
    let ptr = allocate(&mut heap, layout, AllocInit::Uninitialized).unwrap().ptr;
    for k in 0..32 {
        write_byte(&mut heap, ptr + k, 0xAA);
    }
    dealloc(&mut heap, ptr, layout);
    let again = allocate(&mut heap, layout, AllocInit::Uninitialized).unwrap();
    assert_eq!(again, MemoryBlock { ptr, size: 32 });
    assert_eq!(read_byte(&heap, ptr + 8), 0xAA);
    dealloc(&mut heap, ptr, layout);
    let cleared = allocate(&mut heap, layout, AllocInit::Zeroed).unwrap();
    assert_eq!(cleared, MemoryBlock { ptr, size: 32 });
    for k in 0..32 {
        assert_eq!(read_byte(&heap, ptr + k), 0);
    }
}

#[test]
fn grow_moves_the_contents_and_releases_the_old_block() {
    let mut heap = reference_heap(0x1000, 10);
    let layout = Layout::from_size_align(32, 1).unwrap();
    let old = allocate(&mut heap, layout, AllocInit::Uninitialized).unwrap();
    assert_eq!(old, MemoryBlock { ptr: 0x1000 + 660, size: 38 });
    for k in 0..32 {
        write_byte(&mut heap, old.ptr + k, 100 + k as u8);
    }
    let new = grow(&mut heap, old.ptr, layout, 50, ReallocPlacement::MayMove, AllocInit::Zeroed)
        .unwrap();
    assert_eq!(new, MemoryBlock { ptr: 0x1000 + 1040, size: 56 });
    for k in 0..32 {
        assert_eq!(read_byte(&heap, new.ptr + k), 100 + k as u8);
    }
    for k in 32..56 {
        assert_eq!(read_byte(&heap, new.ptr + k), 0);
    }
    assert_eq!(allocate(&mut heap, layout, AllocInit::Uninitialized).unwrap().ptr, old.ptr);
}

#[test]
fn grow_within_the_same_pool_moves_to_another_block() {
    let mut heap = reference_heap(0x1000, 10);
    let layout = Layout::from_size_align(24, 1).unwrap();
    let old = allocate(&mut heap, layout, AllocInit::Uninitialized).unwrap();
    assert_eq!(old, MemoryBlock { ptr: 0x1000 + 660, size: 38 });
    for k in 0..24 {
        write_byte(&mut heap, old.ptr + k, 7 + k as u8);
    }
    let new = grow(
        &mut heap,
        old.ptr,
        layout,
        30,
        ReallocPlacement::MayMove,
        AllocInit::Uninitialized,
    )
    .unwrap();
    assert_eq!(new, MemoryBlock { ptr: 0x1000 + 698, size: 38 });
    for k in 0..24 {
        assert_eq!(read_byte(&heap, new.ptr + k), 7 + k as u8);
    }
    assert_eq!(word(&heap, old.ptr), 0);
    let next = Layout::from_size_align(30, 1).unwrap();
    assert_eq!(allocate(&mut heap, next, AllocInit::Uninitialized).unwrap().ptr, old.ptr);
}

#[test]
fn shrink_moves_the_prefix_of_the_contents() {
    let mut heap = reference_heap(0x1000, 10);
    let layout = Layout::from_size_align(50, 1).unwrap();
    let old = allocate(&mut heap, layout, AllocInit::Uninitialized).unwrap();
    assert_eq!(old, MemoryBlock { ptr: 0x1000 + 1040, size: 56 });
    for k in 0..50 {
        write_byte(&mut heap, old.ptr + k, 200 - k as u8);
    }
    let new = shrink(&mut heap, old.ptr, layout, 10, ReallocPlacement::MayMove).unwrap();
    assert_eq!(new, MemoryBlock { ptr: 0x1000 + 150, size: 12 });
    for k in 0..10 {
        assert_eq!(read_byte(&heap, new.ptr + k), 200 - k as u8);
    }
    assert_eq!(allocate(&mut heap, layout, AllocInit::Uninitialized).unwrap().ptr, old.ptr);
}

#[test]
fn shrink_to_nothing_releases_the_block() {
    let mut heap = small_heap();
    let layout = Layout::from_size_align(8, 2).unwrap();
    let old = allocate(&mut heap, layout, AllocInit::Uninitialized).unwrap();
    assert_eq!(old, MemoryBlock { ptr: 0x100, size: 8 });
    assert_eq!(
        shrink(&mut heap, old.ptr, layout, 0, ReallocPlacement::MayMove),
        Ok(MemoryBlock { ptr: 2, size: 0 })
    );
    assert_eq!(
        allocate(&mut heap, layout, AllocInit::Uninitialized),
        Ok(MemoryBlock { ptr: 0x100, size: 8 })
    );
}

#[test]
fn grow_from_nothing_allocates() {
    let mut heap = small_heap();
    let empty = Layout::from_size_align(0, 8).unwrap();
    let none = allocate(&mut heap, empty, AllocInit::Uninitialized).unwrap();
    assert_eq!(none, MemoryBlock { ptr: 8, size: 0 });
    assert_eq!(
        grow(&mut heap, none.ptr, empty, 9, ReallocPlacement::MayMove, AllocInit::Zeroed),
        Ok(MemoryBlock { ptr: 0x108, size: 16 })
    );
}

#[test]
fn resize_to_the_same_size_changes_nothing() {
    let mut heap = small_heap();
    let layout = Layout::from_size_align(20, 1).unwrap();
    let block = allocate(&mut heap, layout, AllocInit::Uninitialized).unwrap();
    write_byte(&mut heap, block.ptr, 42);
    assert_eq!(block, MemoryBlock { ptr: 0x118, size: 32 });
    assert_eq!(
        grow(&mut heap, block.ptr, layout, 20, ReallocPlacement::MayMove, AllocInit::Zeroed),
        Ok(block)
    );
    assert_eq!(shrink(&mut heap, block.ptr, layout, 20, ReallocPlacement::MayMove), Ok(block));
    assert_eq!(read_byte(&heap, block.ptr), 42);
    assert_eq!(
        allocate(&mut heap, layout, AllocInit::Uninitialized),
        Ok(MemoryBlock { ptr: 0x138, size: 32 })
    );
}

#[test]
fn resize_in_place_is_unsupported() {
    let mut heap = small_heap();
    let layout = Layout::from_size_align(2, 1).unwrap();
    let block = allocate(&mut heap, layout, AllocInit::Uninitialized).unwrap();
    assert_eq!(block.size, 8);
    assert_eq!(
        grow(&mut heap, block.ptr, layout, 4, ReallocPlacement::InPlace, AllocInit::Zeroed),
        Err(AllocErr::Unsupported)
    );
    assert_eq!(
        grow(&mut heap, block.ptr, layout, 2, ReallocPlacement::InPlace, AllocInit::Zeroed),
        Err(AllocErr::Unsupported)
    );
    assert_eq!(
        shrink(&mut heap, block.ptr, layout, 1, ReallocPlacement::InPlace),
        Err(AllocErr::Unsupported)
    );
    assert_eq!(
        shrink(&mut heap, block.ptr, layout, 2, ReallocPlacement::InPlace),
        Err(AllocErr::Unsupported)
    );
}

#[test]
fn failed_grow_leaves_the_block_as_it_is() {
    let mut heap = small_heap();
    let layout = Layout::from_size_align(20, 1).unwrap();
    let first = allocate(&mut heap, layout, AllocInit::Uninitialized).unwrap();
    let second = allocate(&mut heap, layout, AllocInit::Uninitialized).unwrap();
    write_byte(&mut heap, first.ptr, 9);
    write_byte(&mut heap, second.ptr, 10);
    assert_eq!(
        grow(&mut heap, first.ptr, layout, 30, ReallocPlacement::MayMove, AllocInit::Zeroed),
        Err(AllocErr::Exhausted)
    );
    assert_eq!(read_byte(&heap, first.ptr), 9);
    assert_eq!(read_byte(&heap, second.ptr), 10);
    assert_eq!(allocate(&mut heap, layout, AllocInit::Uninitialized), Err(AllocErr::Exhausted));
}

#[test]
fn heap_is_checked_when_built() {
    let ordered = vec![Pool::new(0x100, 8, 4), Pool::new(0x120, 16, 4)];
    assert!(Heap::<2>::new(ordered).is_some());
    let gap = vec![Pool::new(0x100, 8, 4), Pool::new(0x200, 16, 4)];
    assert!(Heap::<2>::new(gap).is_some());
    let wrong_count = vec![Pool::new(0x100, 8, 4), Pool::new(0x120, 16, 4)];
    assert!(Heap::<3>::new(wrong_count).is_none());
    let same_size = vec![Pool::new(0x100, 8, 4), Pool::new(0x120, 8, 4)];
    assert!(Heap::<2>::new(same_size).is_none());
    let shrinking = vec![Pool::new(0x100, 16, 4), Pool::new(0x140, 8, 4)];
    assert!(Heap::<2>::new(shrinking).is_none());
    let overlapping = vec![Pool::new(0x100, 8, 4), Pool::new(0x11f, 16, 4)];
    assert!(Heap::<2>::new(overlapping).is_none());
    let descending = vec![Pool::new(0x200, 8, 4), Pool::new(0x100, 16, 4)];
    assert!(Heap::<2>::new(descending).is_none());
    assert!(Heap::<0>::new(Vec::new()).is_some());
}

#[test]
fn empty_heap_serves_nothing() {
    let mut heap = Heap::<0>::new(Vec::new()).unwrap();
    let layout = Layout::from_size_align(1, 1).unwrap();
    assert_eq!(binary_search(&heap, &layout), 0);
    assert_eq!(binary_search(&heap, 0x100usize), 0);
    assert_eq!(allocate(&mut heap, layout, AllocInit::Zeroed), Err(AllocErr::Exhausted));
}

#[test]
fn resize_of_nothing_to_nothing_gives_nothing() {
    let mut heap = small_heap();
    let empty = Layout::from_size_align(0, 16).unwrap();
    let none = allocate(&mut heap, empty, AllocInit::Uninitialized).unwrap();
    assert_eq!(none, MemoryBlock { ptr: 16, size: 0 });
    assert_eq!(
        grow(&mut heap, none.ptr, empty, 0, ReallocPlacement::MayMove, AllocInit::Zeroed),
        Ok(none)
    );
    assert_eq!(shrink(&mut heap, none.ptr, empty, 0, ReallocPlacement::MayMove), Ok(none));
    let one = Layout::from_size_align(1, 1).unwrap();
    assert_eq!(
        allocate(&mut heap, one, AllocInit::Uninitialized),
        Ok(MemoryBlock { ptr: 0x100, size: 8 })
    );
}

#[test]
fn same_size_resize_of_an_escalated_block_gives_its_pool_size() {
    let mut heap = small_heap();
    let layout = Layout::from_size_align(3, 1).unwrap();
    let first = allocate(&mut heap, layout, AllocInit::Uninitialized).unwrap();
    let second = allocate(&mut heap, layout, AllocInit::Uninitialized).unwrap();
    assert_eq!(first, MemoryBlock { ptr: 0x100, size: 8 });
    assert_eq!(second, MemoryBlock { ptr: 0x108, size: 16 });
    assert_eq!(
        grow(&mut heap, second.ptr, layout, 3, ReallocPlacement::MayMove, AllocInit::Zeroed),
        Ok(second)
    );
    assert_eq!(shrink(&mut heap, first.ptr, layout, 3, ReallocPlacement::MayMove), Ok(first));
}

#[test]
fn blocks_of_a_full_pool_come_back_in_reverse_order() {
    let mut heap = reference_heap(0x1000, 10);
    let layout = Layout::from_size_align(32, 1).unwrap();
    let blocks: Vec<MemoryBlock> =
        (0..10).map(|_| allocate(&mut heap, layout, AllocInit::Uninitialized).unwrap()).collect();
    for (k, block) in blocks.iter().enumerate() {
        assert_eq!(*block, MemoryBlock { ptr: 0x1000 + 660 + 38 * k, size: 38 });
    }
    let order = [3, 9, 0, 5, 1, 8, 2, 7, 4, 6];
    for &k in order.iter() {
        dealloc(&mut heap, blocks[k].ptr, layout);
    }
    for &k in order.iter().rev() {
        assert_eq!(allocate(&mut heap, layout, AllocInit::Zeroed), Ok(blocks[k]));
    }
    assert_eq!(
        allocate(&mut heap, layout, AllocInit::Uninitialized),
        Ok(MemoryBlock { ptr: 0x1000 + 1040, size: 56 })
    );
}
