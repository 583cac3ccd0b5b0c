//! Memory core of an embedded runtime: a heap made of
//! fixed-size block pools, register token tags, and the receiving half of a
//! single-producer, single-consumer ring channel.
pub mod heap;
pub mod reg;
pub mod sync;
