//! A generational arena: a container that hands out stable handles to the
//! values it stores and recognises a handle as stale once its value has been
//! removed, even when the storage slot has since been reused.

pub mod arena;
pub mod index;
pub mod iter;
pub mod laws;
pub mod model;

pub use arena::GenArray;
pub use index::Index;
pub use iter::{GenArrayIterator, GenArrayIteratorMut};
pub use laws::Op;
pub use model::{ArenaView, Slot};
