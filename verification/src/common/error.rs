//! Error types for tree operations.

use crate::common::text::{decimal, decimal_digits};
use vstd::prelude::*;
use vstd::string::StringExecFns;

verus! {

/// Errors that can occur during tree operations.
#[derive(Debug, PartialEq, Eq, Clone)]
pub enum TreeError {
    /// A node already exists at the specified location.
    NodeExists,
    /// The requested node was not found in the tree.
    NodeNotFound,
    /// The tree is empty and the operation requires a non-empty tree.
    EmptyTree,
    /// An invalid operation was attempted.
    InvalidOperation { reason: String },
    /// A tree invariant was violated.
    InvariantViolation { invariant: String },
    /// An index is out of bounds.
    IndexOutOfBounds { index: usize, size: usize },
    /// A lock was poisoned in a concurrent tree operation.
    LockPoisoned,
    /// A duplicate value was encountered in a tree that doesn't allow duplicates.
    DuplicateValue { message: Option<String> },
    /// An overflow occurred during a tree operation.
    Overflow { operation: String },
}

/// A specialized `Result` type for tree operations.
pub type Result<T> = std::result::Result<T, TreeError>;

impl TreeError {
    /// The human-readable message of the error.
    pub open spec fn message_spec(&self) -> Seq<char> {
        match self {
            TreeError::NodeExists => "Node already exists"@,
            TreeError::NodeNotFound => "Node not found"@,
            TreeError::EmptyTree => "Tree is empty"@,
            TreeError::InvalidOperation { reason } => "Invalid operation: "@ + reason@,
            TreeError::InvariantViolation { invariant: what } => "Invariant violation: "@ + what@,
            TreeError::IndexOutOfBounds { index, size } => "Index out of bounds: "@ + decimal_digits(
                *index as nat,
            ) + " >= "@ + decimal_digits(*size as nat),
            TreeError::LockPoisoned => "Lock poisoned"@,
            TreeError::DuplicateValue { message } => match message {
                Some(m) => "Duplicate value: "@ + m@,
                None => "Duplicate value"@,
            },
            TreeError::Overflow { operation } => "Overflow in "@ + operation@,
        }
    }

    /// Returns the human-readable message of the error.
    pub fn message(&self) -> (r: String)
        ensures
            r@ == self.message_spec(),
    {
        match self {
            TreeError::NodeExists => "Node already exists".to_owned(),
            TreeError::NodeNotFound => "Node not found".to_owned(),
            TreeError::EmptyTree => "Tree is empty".to_owned(),
            TreeError::InvalidOperation { reason } => "Invalid operation: ".to_owned().concat(reason.as_str()),
            TreeError::InvariantViolation { invariant: what } => "Invariant violation: ".to_owned().concat(
                what.as_str(),
            ),
            TreeError::IndexOutOfBounds { index, size } => {
                let i = decimal(*index);
                let s = decimal(*size);
                let r = "Index out of bounds: ".to_owned().concat(i.as_str()).concat(" >= ").concat(
                    s.as_str(),
                );
                assert(r@ =~= self.message_spec());
                r
            },
            TreeError::LockPoisoned => "Lock poisoned".to_owned(),
            TreeError::DuplicateValue { message } => match message {
                Some(m) => "Duplicate value: ".to_owned().concat(m.as_str()),
                None => "Duplicate value".to_owned(),
            },
            TreeError::Overflow { operation } => "Overflow in ".to_owned().concat(operation.as_str()),
        }
    }

    /// Creates an `InvalidOperation` error with the given reason.
    pub fn invalid_operation(reason: &str) -> (e: Self)
        ensures
            e matches TreeError::InvalidOperation { reason: r } && r@ == reason@,
    {
        TreeError::InvalidOperation { reason: reason.to_owned() }
    }

    /// Creates an `InvariantViolation` error with the given invariant description.
    pub fn invariant_violation(description: &str) -> (e: Self)
        ensures
            e matches TreeError::InvariantViolation { invariant: r } && r@ == description@,
    {
        TreeError::InvariantViolation { invariant: description.to_owned() }
    }

    /// Creates an `IndexOutOfBounds` error.
    pub fn index_out_of_bounds(index: usize, size: usize) -> (e: Self)
        ensures
            e == (TreeError::IndexOutOfBounds { index, size }),
    {
        TreeError::IndexOutOfBounds { index, size }
    }

    /// Creates a `DuplicateValue` error with an optional message.
    pub fn duplicate_value(message: Option<&str>) -> (e: Self)
        ensures
            e matches TreeError::DuplicateValue { message: m } && match message {
                Some(s) => m matches Some(t) && t@ == s@,
                None => m is None,
            },
    {
        match message {
            Some(s) => TreeError::DuplicateValue { message: Some(s.to_owned()) },
            None => TreeError::DuplicateValue { message: None },
        }
    }

    /// Creates an `Overflow` error for the given operation.
    pub fn overflow(operation: &str) -> (e: Self)
        ensures
            e matches TreeError::Overflow { operation: r } && r@ == operation@,
    {
        TreeError::Overflow { operation: operation.to_owned() }
    }
}

} // verus!
