//! Common types, traits and models shared across all tree implementations.

pub mod error;
pub mod order;
pub mod shape;
pub mod text;
pub mod traits;
pub mod weave;
pub mod visualize;

pub use error::{Result, TreeError};
pub use traits::{OrderedTree, Traversable, Tree, Visitor};
