//! The containers of the codec: the bit stream with its Rice codes, packed
//! vectors of bits and of 4-bit values, a window of recent values, a ring
//! buffer, a linked list and a cache built on it.

pub mod bits;
pub mod bitstream;
pub mod bitvec;
pub mod linked_list;
pub mod lru_cache;
pub mod nibble_list;
pub mod node;
pub mod queue;
pub mod rice;
pub mod stack;

pub use bitstream::{BitStream, BitStreamView, CAPPED_MAX, CAPPED_MIN};
pub use bitvec::BitVec;
pub use linked_list::{InsertDirection, LinkedList, LinkedListIterator};
pub use lru_cache::LruCache;
pub use nibble_list::NibbleList;
pub use node::{Node, Ptr, NULL_INDEX};
pub use queue::FixedRingBuffer;
pub use stack::{CircularStack, CircularStackView};
