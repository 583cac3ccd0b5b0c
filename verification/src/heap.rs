//! Dynamic memory allocation with a fixed table of memory pools.
//!
//! A heap is an ordered table of [`pool::Pool`]s, each cut into blocks of one
//! size. Requests are dispatched by binary search over the table.
pub mod allocator;
pub mod bytes;
pub mod model;
pub mod pool;
pub mod request;
pub mod state;
pub mod table;
