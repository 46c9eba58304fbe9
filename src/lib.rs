//! A general-purpose allocator built as a growable heap of fixed-size blocks
//! obtained from a coarse backing allocator.
//!
//! The library manages addresses as plain integers: `utils` holds the
//! alignment arithmetic and the hex naming of kernel mutexes, `layout` the
//! request shape, `heap` the first-fit free list that lives inside one block,
//! `allocator` the front end that routes requests between the blocks and the
//! backing allocator, and `laws` what holds across calls of the front end.
//!
//! The front end never calls the backing allocator or takes a lock: each
//! operation returns what is to be asked of the backing allocator, and the
//! caller serialises the operations.

pub mod allocator;
pub mod heap;
pub mod laws;
pub mod layout;
pub mod utils;

pub use allocator::{Allocation, DefaultVitalloc, Release, Vitalloc};
pub use heap::{FitError, HeapBlock, Hole};
pub use layout::Layout;
pub use utils::{align_down, align_up, is_power_of_two, mutex_name, write_hex};
