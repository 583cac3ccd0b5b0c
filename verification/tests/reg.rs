use drone_core::reg::tag::{Crt, RegAtomic, RegOwned, RegTag, Srt, Urt};
use drone_core::reg::RegTokens;

fn tag<T: RegTag>() -> T {
    T::default()
}

fn owned<T: RegOwned>() -> usize {
    std::mem::size_of::<T>()
}

fn atomic<T: RegAtomic>() -> usize {
    std::mem::size_of::<T>()
}

struct Tokens {
    count: usize,
}

impl RegTokens for Tokens {
    fn new() -> Self {
        Tokens { count: 2 }
    }
}

#[test]
fn tags_take_no_space() {
    let _: Urt = tag();
    let _: Srt = tag();
    let _: Crt = tag();
    assert_eq!(owned::<Urt>(), 0);
    assert_eq!(owned::<Srt>(), 0);
    assert_eq!(atomic::<Srt>(), 0);
    assert_eq!(atomic::<Crt>(), 0);
}

#[test]
fn copyable_tag_is_copied() {
    let tag = Crt;
    let copy = tag;
    let _both = (tag, copy);
}

#[test]
fn tokens_are_created_by_their_set() {
    assert_eq!(Tokens::new().count, 2);
}
