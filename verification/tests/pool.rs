use drone_core::heap::bytes::LINK_SIZE;
use drone_core::heap::pool::{Fits, Pool};
use drone_core::heap::request::Layout;

fn link(pool: &Pool, addr: usize) -> u64 {
    let mut bytes = [0u8; 8];
    for (k, byte) in bytes.iter_mut().enumerate() {
        *byte = pool.read_byte(addr + k);
    }
    u64::from_le_bytes(bytes)
}

#[test]
fn new_pool_hands_out_blocks_in_address_order() {
    let mut pool = Pool::new(0x400, 24, 3);
    assert_eq!(pool.size(), 24);
    assert_eq!(pool.address(), 0x400);
    assert_eq!(pool.edge(), 0x400 + 72);
    assert_eq!(pool.allocate(), Some(0x400));
    assert_eq!(pool.allocate(), Some(0x418));
    assert_eq!(pool.allocate(), Some(0x430));
    assert_eq!(pool.allocate(), None);
    assert_eq!(pool.allocate(), None);
}

#[test]
fn empty_pool_is_exhausted() {
    let mut pool = Pool::new(0x400, 24, 0);
    assert_eq!(pool.edge(), 0x400);
    assert_eq!(pool.allocate(), None);
}

#[test]
fn freed_blocks_come_back_in_reverse_order() {
    let mut pool = Pool::new(0x1000, 16, 4);
    let blocks: Vec<usize> = (0..4).map(|_| pool.allocate().unwrap()).collect();
    assert_eq!(blocks, vec![0x1000, 0x1010, 0x1020, 0x1030]);
    assert_eq!(pool.allocate(), None);
    let frees = [blocks[2], blocks[0], blocks[3], blocks[1]];
    for ptr in frees {
        pool.dealloc(ptr);
    }
    assert_eq!(pool.allocate(), Some(frees[3]));
    assert_eq!(pool.allocate(), Some(frees[2]));
    assert_eq!(pool.allocate(), Some(frees[1]));
    assert_eq!(pool.allocate(), Some(frees[0]));
    assert_eq!(pool.allocate(), None);
}

#[test]
fn freed_block_is_preferred_to_a_fresh_one() {
    let mut pool = Pool::new(0x1000, 16, 4);
    let first = pool.allocate().unwrap();
    let second = pool.allocate().unwrap();
    pool.dealloc(first);
    assert_eq!(pool.allocate(), Some(first));
    assert_eq!(pool.allocate(), Some(second + 16));
}

#[test]
fn freed_block_holds_the_address_of_the_block_freed_before() {
    let mut pool = Pool::new(0x0123_4567_89a0, 16, 3);
    let a = pool.allocate().unwrap();
    let b = pool.allocate().unwrap();
    let c = pool.allocate().unwrap();
    for k in 0..16 {
        pool.write_byte(a + k, 0xff);
        pool.write_byte(b + k, 0xee);
    }
    pool.dealloc(b);
    assert_eq!(link(&pool, b), 0);
    assert_eq!(pool.read_byte(b + LINK_SIZE), 0xee);
    pool.dealloc(a);
    assert_eq!(link(&pool, a), b as u64);
    assert_eq!(pool.read_byte(a), 0xb0);
    assert_eq!(pool.read_byte(a + 1), 0x89);
    assert_eq!(pool.read_byte(a + 5), 0x01);
    assert_eq!(pool.read_byte(a + 6), 0x00);
    assert_eq!(pool.read_byte(a + LINK_SIZE), 0xff);
    pool.dealloc(c);
    assert_eq!(link(&pool, c), a as u64);
    assert_eq!(link(&pool, a), b as u64);
}

#[test]
fn bytes_are_written_and_cleared_within_a_block() {
    let mut pool = Pool::new(0x40, 4, 2);
    let a = pool.allocate().unwrap();
    let b = pool.allocate().unwrap();
    for k in 0..4 {
        pool.write_byte(a + k, 1 + k as u8);
        pool.write_byte(b + k, 5 + k as u8);
    }
    assert_eq!(pool.read_byte(0x40), 1);
    assert_eq!(pool.read_byte(0x43), 4);
    assert_eq!(pool.read_byte(0x44), 5);
    assert_eq!(pool.read_byte(0x47), 8);
    pool.zero_block(a);
    for k in 0..4 {
        assert_eq!(pool.read_byte(a + k), 0);
        assert_eq!(pool.read_byte(b + k), 5 + k as u8);
    }
}

#[test]
fn request_fits_blocks_that_hold_it() {
    let pool = Pool::new(0x100, 16, 4);
    assert!(Layout::from_size_align(0, 1).unwrap().fits(&pool));
    assert!(Layout::from_size_align(15, 1).unwrap().fits(&pool));
    assert!(Layout::from_size_align(16, 1).unwrap().fits(&pool));
    assert!(!Layout::from_size_align(17, 1).unwrap().fits(&pool));
}

#[test]
fn address_fits_below_the_edge() {
    let pool = Pool::new(0x100, 16, 4);
    assert!(0usize.fits(&pool));
    assert!(0x100usize.fits(&pool));
    assert!(0x13fusize.fits(&pool));
    assert!(!0x140usize.fits(&pool));
    assert!(!usize::MAX.fits(&pool));
}
