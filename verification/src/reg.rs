//! Memory-mapped registers.
//!
//! A register is reached through a token. The tag of a token says how the
//! token may be shared and copied.
use vstd::prelude::*;

pub mod tag;

pub use crate::reg::tag::{Crt, RegAtomic, RegOwned, RegTag, Srt, Urt};

verus! {

/// A set of register tokens.
pub trait RegTokens: Sized {
    /// Creates a new set of register tokens.
    ///
    /// Must be called no more than once.
    fn new() -> Self;
}

} // verus!
