//! Grammar accessors on concrete nodes.

use gambit::ast::{SolAST, TypeDescriptions};
use gambit::doc::DocValue;

fn text(s: &str) -> DocValue {
    DocValue::Text(s.to_string())
}

fn obj(fields: Vec<(&str, DocValue)>) -> DocValue {
    DocValue::Object(fields.into_iter().map(|(k, v)| (k.to_string(), v)).collect())
}

fn sample() -> SolAST {
    SolAST::new(
        obj(vec![
            ("nodeType", text("BinaryOperation")),
            ("operator", text("**")),
            ("src", text("3:7:0")),
            ("name", text("n")),
            ("leftExpression", obj(vec![("src", text("3:1:0"))])),
            ("condition", obj(vec![("nodeType", text("Literal"))])),
            (
                "arguments",
                DocValue::Array(vec![obj(vec![("src", text("0:1:0"))]), DocValue::Null]),
            ),
            ("typeDescriptions", obj(vec![("typeString", text("uint256"))])),
        ]),
        Some("C".to_string()),
    )
}

#[test]
fn string_fields() {
    let n = sample();
    assert_eq!(n.node_type(), Some("BinaryOperation".to_string()));
    assert_eq!(n.operator(), Some("**".to_string()));
    assert_eq!(n.src(), Some("3:7:0".to_string()));
    assert_eq!(n.name(), Some("n".to_string()));
    assert_eq!(n.get_string("missing"), None);
    // A non-string field is not a string.
    assert_eq!(n.get_string("leftExpression"), None);
}

#[test]
fn node_fields_keep_the_contract() {
    let n = sample();
    let le = n.left_expression();
    assert_eq!(le.get_contract(), Some("C".to_string()));
    assert_eq!(le.src(), Some("3:1:0".to_string()));
    let cond = n.condition();
    assert_eq!(cond.node_type(), Some("Literal".to_string()));
    // A missing field projects to an empty value, still with the contract.
    let missing = n.get_node("rightExpression");
    assert_eq!(missing.node_type(), None);
    assert_eq!(missing.get_contract(), Some("C".to_string()));
}

#[test]
fn new_collapses_null() {
    let n = SolAST::new(DocValue::Null, Some("C".to_string()));
    assert!(n.get_object().is_none());
    assert_eq!(n.get_contract(), None);
}

#[test]
fn arguments_are_built_like_nodes() {
    let n = sample();
    let args = n.arguments();
    assert_eq!(args.len(), 2);
    assert_eq!(args[0].src(), Some("0:1:0".to_string()));
    assert_eq!(args[0].get_contract(), Some("C".to_string()));
    // A null element collapses to the empty node.
    assert!(args[1].get_object().is_none());
    // This node has no statements array.
    assert_eq!(n.statements().len(), 0);
}

#[test]
fn type_descriptions() {
    let n = sample();
    let td = n.get_type_descs().unwrap_or_else(|| panic!("expected type descriptions"));
    assert_eq!(td.type_string(), Some("uint256".to_string()));
    let none = TypeDescriptions::new(DocValue::Null);
    assert_eq!(none.type_string(), None);
}

#[test]
fn duplicate_preserves_everything() {
    let n = sample();
    let d = n.duplicate();
    assert_eq!(d.node_type(), n.node_type());
    assert_eq!(d.src(), n.src());
    assert_eq!(d.get_contract(), n.get_contract());
    assert_eq!(d.arguments().len(), n.arguments().len());
}
