//! A generational arena: a pool of values of one type, addressed by handles
//! that carry the generation at which their value was stored, so that a handle
//! to a removed value is told apart from a handle to the slot's next tenant.
//!
//! [`Arena`] is the pool and [`Index`] the handle. [`model`] says what an arena
//! is and what each call does to it; the contracts in [`arena`] and [`iter`]
//! are stated over it, and [`laws`] proves what follows for every arena.

pub mod arena;
pub mod index;
pub mod iter;
pub mod laws;
pub mod model;

pub use arena::Arena;
pub use index::Index;
pub use iter::IntoIter;
