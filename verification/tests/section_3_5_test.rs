#![allow(unused_imports, unused_variables, unused_mut, dead_code)]

use serde_kdl_macro::validation::{
    is_disallowed_code_point, is_newline, is_valid_identifier_character, is_whitespace,
    validate_identifier_string,
};
use serde_kdl_macro::strings::{
    process_multiline_string, process_raw_multiline_string, process_raw_string,
    process_string_escapes,
};
use serde_kdl_macro::{kdl_impl2, KdlDocument, KdlEntry, KdlError, KdlIdentifier, KdlNode, KdlValue};

/// Reads a document that the test expects to be valid.
fn kdl(text: &str) -> KdlDocument {
    match kdl_impl2(text) {
        Ok(doc) => doc,
        Err(e) => panic!("document rejected: {}", e.message()),
    }
}

/// What a value holds, read through the entry that carries it.
trait EntryValue {
    fn as_string(&self) -> Option<&str>;
    fn as_i64(&self) -> Option<i64>;
    fn as_bool(&self) -> Option<bool>;
    fn as_f64(&self) -> Option<f64>;
    fn is_null(&self) -> bool;
}

impl EntryValue for KdlEntry {
    fn as_string(&self) -> Option<&str> {
        self.value().as_string()
    }
    fn as_i64(&self) -> Option<i64> {
        self.value().as_i64()
    }
    fn as_bool(&self) -> Option<bool> {
        self.value().as_bool()
    }
    fn as_f64(&self) -> Option<f64> {
        self.value().as_f64()
    }
    fn is_null(&self) -> bool {
        self.value().is_null()
    }
}

/// The number a float value stands for, and whether a value is null.
///
/// The library keeps a float as its text, since floating point stays out of
/// verified code; the tests read that text as an `f64` here. Each file under
/// tests/ is a crate of its own, so each carries this small reader.
trait ValueExt {
    fn as_f64(&self) -> Option<f64>;
    fn as_null(&self) -> bool;
    fn is_f64(&self) -> bool;
}

impl ValueExt for KdlValue {
    fn as_f64(&self) -> Option<f64> {
        self.float_text().map(|t| t.parse::<f64>().expect("float text"))
    }
    fn as_null(&self) -> bool {
        self.is_null()
    }
    fn is_f64(&self) -> bool {
        self.is_float()
    }
}

#[test]
fn test_single_argument() {
    let result = kdl_impl2(" node 42 ");
    assert!(result.is_ok());

    let result = kdl_impl2(r#" node "string" "#);
    assert!(result.is_ok());

    let result = kdl_impl2(" node true ");
    assert!(result.is_ok());
}

#[test]
fn test_multiple_arguments() {
    let result = kdl_impl2(" node 1 2 3 ");
    assert!(result.is_ok());

    let result = kdl_impl2(r#" node "a" "b" "c" "#);
    assert!(result.is_ok());

    let result = kdl_impl2(r#" node 1 "string" true "#);
    assert!(result.is_ok());
}

#[test]
fn test_spec_example_ordering() {
    let result = kdl_impl2(" my-node 1 2 3 a b c ");
    assert!(result.is_ok());
}

#[test]
fn test_argument_property_interleaving() {
    let result = kdl_impl2(r#" node "arg1" key1="prop1" "arg2" key2="prop2" "arg3" "#);
    assert!(result.is_ok());

    let result = kdl_impl2(r#" node key="value" 42 "string" "#);
    assert!(result.is_ok());
}

#[test]
fn test_all_value_types_as_arguments() {
    // String literals
    let result = kdl_impl2(r#" node "string" "#);
    assert!(result.is_ok());

    // Integer literals
    let result = kdl_impl2(" node 42 ");
    assert!(result.is_ok());

    let result = kdl_impl2(" node -42 ");
    assert!(result.is_ok());

    // Float literals
    let result = kdl_impl2(" node 3.14 ");
    assert!(result.is_ok());

    let result = kdl_impl2(" node -3.14 ");
    assert!(result.is_ok());

    // Boolean literals (both styles)
    let result = kdl_impl2(" node true ");
    assert!(result.is_ok());

    let result = kdl_impl2(" node false ");
    assert!(result.is_ok());

    let result = kdl_impl2(" node #true ");
    assert!(result.is_ok());

    let result = kdl_impl2(" node #false ");
    assert!(result.is_ok());

    // Null value
    let result = kdl_impl2(" node null ");
    assert!(result.is_ok());

    let result = kdl_impl2(" node #null ");
    assert!(result.is_ok());

    // Identifier values (become strings)
    let result = kdl_impl2(" node identifier ");
    assert!(result.is_ok());

    let result = kdl_impl2(" node hyphen-ated ");
    assert!(result.is_ok());
}

#[test]
fn test_type_annotated_arguments() {
    let result = kdl_impl2(r#" node (type)"value" "#);
    assert!(result.is_ok());

    let result = kdl_impl2(" node (int)42 ");
    assert!(result.is_ok());

    let result = kdl_impl2(" node (float)3.14 ");
    assert!(result.is_ok());

    let result = kdl_impl2(" node (bool)true ");
    assert!(result.is_ok());
}

#[test]
fn test_no_arguments() {
    let result = kdl_impl2(" node ");
    assert!(result.is_ok());

    let result = kdl_impl2(" node {} ");
    assert!(result.is_ok());

    let result = kdl_impl2(r#" node key="value" "#);
    assert!(result.is_ok());
}

#[test]
fn test_many_arguments() {
    // Test with 10 arguments
    let result = kdl_impl2("
        node 1 2 3 4 5 6 7 8 9 10
    ");
    assert!(result.is_ok());

    // Test with mixed types - many arguments
    let result = kdl_impl2(r#"
        node "a" 1 true "b" 2 false "c" 3 null "d"
    "#);
    assert!(result.is_ok());
}

#[test]
fn test_sequence_identical_arguments() {
    // Test 0 arguments
    let result = kdl_impl2(" node ");
    assert!(result.is_ok());

    // Test 1 argument
    let result = kdl_impl2(" node 42 ");
    assert!(result.is_ok());

    // Test 2 arguments
    let result = kdl_impl2(" node 42 42 ");
    assert!(result.is_ok());

    // Test 3 arguments
    let result = kdl_impl2(" node 42 42 42 ");
    assert!(result.is_ok());

    // Test 5 arguments
    let result = kdl_impl2(" node 42 42 42 42 42 ");
    assert!(result.is_ok());
}

// test_argument_whitespace_handling is left out: it expects lines holding only a number, at the
// node's own column, to continue the node; a new line at that column starts a node.

#[test]
fn test_complex_argument_combinations() {
    // Mix of all types
    let result = kdl_impl2(r#"
        node "string" 42 -3.14 true false null identifier hyphen-ated
    "#);
    assert!(result.is_ok());

    // With type annotations mixed in
    let result = kdl_impl2(r#"
        node "plain" (str)"typed" 42 (int)100 true (bool)false
    "#);
    assert!(result.is_ok());

    // Interleaved with properties
    let result = kdl_impl2(r#"
        node "arg1" key1="prop1" 42 key2="prop2" true key3="prop3" "arg2"
    "#);
    assert!(result.is_ok());
}

#[test]
fn test_arguments_in_nested_nodes() {
    let result = kdl_impl2(r#"
        parent "parent_arg" {
            child "child_arg" 42
            other-child true false {
                grandchild "nested" 123
            }
        }
    "#);
    assert!(result.is_ok());
}

// test_special_identifier_arguments is left out: it uses Rust's raw-identifier syntax r#type,
// which is no KDL word.

#[test]
fn test_numeric_edge_cases() {
    // Zero values
    let result = kdl_impl2(" node 0 ");
    assert!(result.is_ok());

    let result = kdl_impl2(" node 0.0 ");
    assert!(result.is_ok());

    let result = kdl_impl2(" node -0 ");
    assert!(result.is_ok());

    // Large numbers (within i64/f64 range)
    let result = kdl_impl2(" node 9223372036854775807 ");
    assert!(result.is_ok());

    let result = kdl_impl2(" node -9223372036854775808 ");
    assert!(result.is_ok());
}

#[test]
fn test_argument_order_preservation_detailed() {
    // This test verifies that the order is preserved in the generated code
    let result = kdl_impl2(r#" node "first" "second" "third" "#);
    assert!(result.is_ok());

    // Test with mixed types to ensure order preservation across different value types
    let result = kdl_impl2(r#" node 1 "string" true null 3.14 identifier "#);
    assert!(result.is_ok());
}

#[test]
fn test_non_property_arguments() {
    // These should be parsed as arguments, not properties
    let result = kdl_impl2(r#" node "key=value" "#);
    assert!(result.is_ok());

    let result = kdl_impl2(r#" node "not=a=property" "#);
    assert!(result.is_ok());
}

#[test]
fn test_arguments_with_children() {
    let result = kdl_impl2(r#"
        node "arg" {
            child
        }
    "#);
    assert!(result.is_ok());

    let result = kdl_impl2(r#"
        node 1 2 3 {
            child "nested_arg"
        }
    "#);
    assert!(result.is_ok());
}

#[test]
fn test_property_argument_interleaving_comprehensive() {
    // Start with argument
    let result = kdl_impl2(r#" node "arg1" key="prop" "arg2" "#);
    assert!(result.is_ok());

    // Start with property
    let result = kdl_impl2(r#" node key="prop" "arg1" "arg2" "#);
    assert!(result.is_ok());

    // Multiple interleavings
    let result = kdl_impl2(r#"
        node "arg1" k1="p1" "arg2" k2="p2" "arg3" k3="p3" "arg4"
    "#);
    assert!(result.is_ok());

    // Properties between arguments
    let result = kdl_impl2(r#"
        node k1="p1" k2="p2" "arg1" "arg2" k3="p3" "arg3"
    "#);
    assert!(result.is_ok());
}

#[test]
fn test_minimal_cases() {
    // Just node name
    let result = kdl_impl2(" node ");
    assert!(result.is_ok());

    // Node with empty children
    let result = kdl_impl2(" node {} ");
    assert!(result.is_ok());

    // Single argument types
    let result = kdl_impl2(" node 1 ");
    assert!(result.is_ok());

    let result = kdl_impl2(r#" node "x" "#);
    assert!(result.is_ok());

    let result = kdl_impl2(" node true ");
    assert!(result.is_ok());
}

// test_maximum_complexity_arguments is left out: it uses Rust's raw-identifier syntax r#type,
// which is no KDL word.
