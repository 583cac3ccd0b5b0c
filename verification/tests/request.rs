use drone_core::heap::request::{Layout, LayoutErr};

#[test]
fn layout_keeps_size_and_align() {
    let layout = Layout::from_size_align(32, 4).unwrap();
    assert_eq!(layout.size(), 32);
    assert_eq!(layout.align(), 4);
    assert_eq!(layout.dangling(), 4);
}

#[test]
fn layout_refuses_bad_alignment() {
    assert_eq!(Layout::from_size_align(8, 0), Err(LayoutErr));
    assert_eq!(Layout::from_size_align(8, 3), Err(LayoutErr));
    assert_eq!(Layout::from_size_align(8, 12), Err(LayoutErr));
    assert!(Layout::from_size_align(8, 1).is_ok());
    assert!(Layout::from_size_align(8, 1 << 20).is_ok());
}

#[test]
fn layout_refuses_sizes_beyond_the_address_space() {
    let limit = isize::MAX as usize;
    assert!(Layout::from_size_align(limit, 1).is_ok());
    assert_eq!(Layout::from_size_align(limit + 1, 1), Err(LayoutErr));
    assert!(Layout::from_size_align(limit - 7, 8).is_ok());
    assert_eq!(Layout::from_size_align(limit - 6, 8), Err(LayoutErr));
    assert!(Layout::from_size_align(0, limit + 1).is_ok());
    assert_eq!(Layout::from_size_align(1, limit + 1), Err(LayoutErr));
}

#[test]
fn unchecked_layout_takes_any_values() {
    let layout = Layout::from_size_align_unchecked(7, 3);
    assert_eq!(layout.size(), 7);
    assert_eq!(layout.align(), 3);
}
