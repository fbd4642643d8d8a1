//! A fixed-capacity, single-threaded first-fit memory allocator over one
//! contiguous arena of bytes.
//!
//! Addresses are byte offsets from the start of the arena. Every block of the
//! arena begins with a fixed-size descriptor that is stored in the arena
//! itself, directly in front of the payload it describes.

pub mod allocator;
pub mod block;
pub mod free_list;
pub mod heap;
pub mod layout;

pub use crate::allocator::Allocator;
pub use crate::block::BlockHeader;
pub use crate::heap::Heap;
