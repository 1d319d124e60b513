//! An ordered binary search tree over `u64` keys.
//!
//! The tree keeps its keys sorted under insertion, answers membership
//! queries, and enumerates its keys in order. Insertions equal to a key
//! already present are resolved by a duplicate policy fixed when the
//! tree is constructed.

pub mod order;
pub mod tree;

pub use order::DuplicatePolicy;
pub use tree::Node;
pub use tree::Tree;
