//! Bytes of a region of memory, and the words stored in them.
use vstd::prelude::*;

verus! {

/// Number of bytes at the start of a free block that hold the address of the
/// next free block.
///
/// The link is eight bytes wide on every target, wide enough for any
/// address, and is not the width of the machine word of the target. On a
/// target whose addresses take four bytes, releasing a block still writes
/// eight bytes, and a pool with blocks of four to seven bytes, which could
/// hold an address there, cannot take its blocks back.
pub const LINK_SIZE: usize = 8;

/// The number held, least significant byte first, by the eight bytes of
/// `bytes` from index `at` on.
pub open spec fn word_at(bytes: Seq<u8>, at: int) -> int {
    bytes[at] + 0x100 * (bytes[at + 1] + 0x100 * (bytes[at + 2] + 0x100 * (bytes[at + 3] + 0x100
        * (bytes[at + 4] + 0x100 * (bytes[at + 5] + 0x100 * (bytes[at + 6] + 0x100 * bytes[at
        + 7]))))))
}

/// The eight bytes that hold `word`, least significant byte first.
pub open spec fn word_bytes(word: int) -> Seq<u8> {
    seq![
        (word % 0x100) as u8,
        (word / 0x100 % 0x100) as u8,
        (word / 0x100 / 0x100 % 0x100) as u8,
        (word / 0x100 / 0x100 / 0x100 % 0x100) as u8,
        (word / 0x100 / 0x100 / 0x100 / 0x100 % 0x100) as u8,
        (word / 0x100 / 0x100 / 0x100 / 0x100 / 0x100 % 0x100) as u8,
        (word / 0x100 / 0x100 / 0x100 / 0x100 / 0x100 / 0x100 % 0x100) as u8,
        (word / 0x100 / 0x100 / 0x100 / 0x100 / 0x100 / 0x100 / 0x100 % 0x100) as u8,
    ]
}

/// `bytes` with the bytes from index `at` on replaced by `data`.
pub open spec fn splice(bytes: Seq<u8>, at: int, data: Seq<u8>) -> Seq<u8> {
    Seq::new(
        bytes.len(),
        |i: int|
            if at <= i < at + data.len() {
                data[i - at]
            } else {
                bytes[i]
            },
    )
}

/// Reading back a stored word gives the word.
pub proof fn lemma_word_roundtrip(bytes: Seq<u8>, at: int, word: int)
    requires
        0 <= at,
        at + 8 <= bytes.len(),
        0 <= word <= u64::MAX,
    ensures
        word_at(splice(bytes, at, word_bytes(word)), at) == word,
{
    let s = splice(bytes, at, word_bytes(word));
    assert(s[at] == word_bytes(word)[0]);
    assert(s[at + 1] == word_bytes(word)[1]);
    assert(s[at + 2] == word_bytes(word)[2]);
    assert(s[at + 3] == word_bytes(word)[3]);
    assert(s[at + 4] == word_bytes(word)[4]);
    assert(s[at + 5] == word_bytes(word)[5]);
    assert(s[at + 6] == word_bytes(word)[6]);
    assert(s[at + 7] == word_bytes(word)[7]);
}

/// A word read outside the bytes that a splice replaced is unchanged.
pub proof fn lemma_word_untouched(bytes: Seq<u8>, at: int, data: Seq<u8>, other: int)
    requires
        0 <= other,
        other + 8 <= bytes.len(),
        other + 8 <= at || at + data.len() <= other,
    ensures
        word_at(splice(bytes, at, data), other) == word_at(bytes, other),
{
}

pub(crate) fn get_word(storage: &Vec<u8>, at: usize) -> (word: u64)
    requires
        at + 8 <= storage.len(),
    ensures
        word == word_at(storage@, at as int),
{
    let b0 = storage[at] as u64;
    let b1 = storage[at + 1] as u64;
    let b2 = storage[at + 2] as u64;
    let b3 = storage[at + 3] as u64;
    let b4 = storage[at + 4] as u64;
    let b5 = storage[at + 5] as u64;
    let b6 = storage[at + 6] as u64;
    let b7 = storage[at + 7] as u64;
    b0 + 0x100 * (b1 + 0x100 * (b2 + 0x100 * (b3 + 0x100 * (b4 + 0x100 * (b5 + 0x100 * (b6 + 0x100
        * b7))))))
}

pub(crate) fn put_word(storage: &mut Vec<u8>, at: usize, word: u64)
    requires
        at + 8 <= old(storage).len(),
    ensures
        final(storage)@ == splice(old(storage)@, at as int, word_bytes(word as int)),
{
    let w1 = word / 0x100;
    let w2 = w1 / 0x100;
    let w3 = w2 / 0x100;
    let w4 = w3 / 0x100;
    let w5 = w4 / 0x100;
    let w6 = w5 / 0x100;
    let w7 = w6 / 0x100;
    storage.set(at, (word % 0x100) as u8);
    storage.set(at + 1, (w1 % 0x100) as u8);
    storage.set(at + 2, (w2 % 0x100) as u8);
    storage.set(at + 3, (w3 % 0x100) as u8);
    storage.set(at + 4, (w4 % 0x100) as u8);
    storage.set(at + 5, (w5 % 0x100) as u8);
    storage.set(at + 6, (w6 % 0x100) as u8);
    storage.set(at + 7, (w7 % 0x100) as u8);
}

/// A vector of `len` zero bytes.
pub(crate) fn zeroed(len: usize) -> (bytes: Vec<u8>)
    ensures
        bytes@ == Seq::new(len as nat, |i: int| 0u8),
{
    let mut bytes: Vec<u8> = Vec::new();
    while bytes.len() < len
        invariant
            bytes.len() <= len,
            forall|i: int| 0 <= i < bytes.len() ==> bytes@[i] == 0u8,
        decreases len - bytes.len(),
    {
        bytes.push(0u8);
    }
    bytes
}

/// Sets `len` bytes of `storage`, from index `at` on, to zero.
pub(crate) fn fill_zero(storage: &mut Vec<u8>, at: usize, len: usize)
    requires
        at + len <= old(storage).len(),
    ensures
        final(storage)@ == splice(old(storage)@, at as int, Seq::new(len as nat, |i: int| 0u8)),
{
    let mut done: usize = 0;
    while done < len
        invariant
            done <= len,
            at + len <= storage.len(),
            storage@ == splice(old(storage)@, at as int, Seq::new(done as nat, |i: int| 0u8)),
        decreases len - done,
    {
        storage.set(at + done, 0u8);
        done = done + 1;
    }
}

} // verus!
