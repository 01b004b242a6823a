use dstree::{Result, TreeError};

#[test]
fn test_error_display() {
    assert_eq!(TreeError::NodeExists.message(), "Node already exists");
    assert_eq!(TreeError::NodeNotFound.message(), "Node not found");
    assert_eq!(TreeError::EmptyTree.message(), "Tree is empty");
}

#[test]
fn test_invalid_operation_constructor() {
    let err = TreeError::invalid_operation("test reason");
    assert_eq!(err.message(), "Invalid operation: test reason");
}

#[test]
fn test_invariant_violation_constructor() {
    let err = TreeError::invariant_violation("BST property violated");
    assert_eq!(err.message(), "Invariant violation: BST property violated");
}

#[test]
fn test_index_out_of_bounds() {
    let err = TreeError::index_out_of_bounds(10, 5);
    assert_eq!(err.message(), "Index out of bounds: 10 >= 5");
}

#[test]
fn test_duplicate_value_with_message() {
    let err = TreeError::duplicate_value(Some("Value 42 exists"));
    assert!(err.message().contains("Value 42 exists"));
}

#[test]
fn test_duplicate_value_without_message() {
    let err = TreeError::duplicate_value(None);
    assert_eq!(err.message(), "Duplicate value");
}

#[test]
fn test_overflow() {
    let err = TreeError::overflow("height calculation");
    assert_eq!(err.message(), "Overflow in height calculation");
}

#[test]
fn test_error_equality() {
    assert_eq!(TreeError::NodeExists, TreeError::NodeExists);
    assert_ne!(TreeError::NodeExists, TreeError::NodeNotFound);
}

#[test]
fn test_result_type_alias() {
    let success: Result<i32> = Ok(42);
    assert!(success.is_ok());

    let failure: Result<i32> = Err(TreeError::EmptyTree);
    assert!(failure.is_err());
}

#[test]
fn message_of_every_variant() {
    assert_eq!(TreeError::LockPoisoned.message(), "Lock poisoned");
    assert_eq!(
        TreeError::duplicate_value(Some("7")).message(),
        "Duplicate value: 7"
    );
    assert_eq!(
        TreeError::index_out_of_bounds(0, 123456789).message(),
        "Index out of bounds: 0 >= 123456789"
    );
    assert_eq!(
        TreeError::invalid_operation("").message(),
        "Invalid operation: "
    );
}

#[test]
fn constructors_fill_the_fields() {
    assert_eq!(
        TreeError::index_out_of_bounds(3, 2),
        TreeError::IndexOutOfBounds { index: 3, size: 2 }
    );
    assert_eq!(
        TreeError::overflow("x"),
        TreeError::Overflow {
            operation: "x".to_string()
        }
    );
    assert_eq!(
        TreeError::duplicate_value(None),
        TreeError::DuplicateValue { message: None }
    );
}
