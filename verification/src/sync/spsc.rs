//! Single-producer, single-consumer communication primitives.
pub mod ring;
