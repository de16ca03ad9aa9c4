//! An ordered key-value map for low-level runtimes, together with a guarded
//! pointer reinterpretation helper.
//!
//! The map never talks to an allocator itself. Every node it links is backed
//! by one block of memory that the caller obtained for it, and every node it
//! unlinks hands that block back to the caller for release.

pub mod intrusive_map;
pub mod key_order;
pub mod laws;
pub mod layout;
pub mod pointer;

pub use intrusive_map::{Entry, InsertError, IntrusiveMap};
pub use key_order::{key_lt, total_order};
pub use laws::Op;
pub use layout::{Block, Layout};
pub use pointer::{layouts_match, same_layout, same_ptr, same_ptr_mut, ConstPtr, MutPtr};
