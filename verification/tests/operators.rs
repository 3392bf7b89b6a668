//! The mutation catalog on concrete nodes: predicates and rewrites.

use gambit::ast::SolAST;
use gambit::doc::DocValue;
use gambit::mutation::{Mutation, MutationType};
use gambit::rng::rng_from_seed;

fn text(s: &str) -> DocValue {
    DocValue::Text(s.to_string())
}

fn obj(fields: Vec<(&str, DocValue)>) -> DocValue {
    DocValue::Object(fields.into_iter().map(|(k, v)| (k.to_string(), v)).collect())
}

fn node(fields: Vec<(&str, DocValue)>) -> SolAST {
    SolAST::new(obj(fields), None)
}

/// `a + b`, with operand spans around the operator.
fn binop_node() -> SolAST {
    node(vec![
        ("nodeType", text("BinaryOperation")),
        ("operator", text("+")),
        ("src", text("0:5:0")),
        ("leftExpression", obj(vec![("src", text("0:1:0"))])),
        ("rightExpression", obj(vec![("src", text("4:1:0"))])),
    ])
}

/// `require(x > 0)`, with the argument spanning `x > 0`.
fn require_node() -> SolAST {
    node(vec![
        ("nodeType", text("FunctionCall")),
        ("src", text("0:14:0")),
        ("expression", obj(vec![("name", text("require"))])),
        ("arguments", DocValue::Array(vec![obj(vec![("src", text("8:5:0"))])])),
    ])
}

#[test]
fn predicates_check_node_type() {
    let b = binop_node();
    assert!(MutationType::BinaryOpMutation.is_mutation_point(&b));
    assert!(MutationType::SwapArgumentsOperatorMutation.is_mutation_point(&node(vec![
        ("nodeType", text("BinaryOperation")),
        ("operator", text("-")),
    ])));
    // `+` is commutative: swapping operands is no mutation point.
    assert!(!MutationType::SwapArgumentsOperatorMutation.is_mutation_point(&b));
    assert!(!MutationType::AssignmentMutation.is_mutation_point(&b));
    assert!(!MutationType::BinaryOpMutation.is_mutation_point(&node(vec![(
        "nodeType",
        text("Assignment")
    )])));
}

#[test]
fn predicate_require_needs_arguments() {
    assert!(MutationType::RequireMutation.is_mutation_point(&require_node()));
    let empty = node(vec![
        ("nodeType", text("FunctionCall")),
        ("expression", obj(vec![("name", text("require"))])),
        ("arguments", DocValue::Array(vec![])),
    ]);
    assert!(!MutationType::RequireMutation.is_mutation_point(&empty));
}

#[test]
fn predicate_elim_delegate() {
    let d = node(vec![
        ("nodeType", text("FunctionCall")),
        (
            "expression",
            obj(vec![
                ("nodeType", text("MemberAccess")),
                ("memberName", text("delegatecall")),
            ]),
        ),
    ]);
    assert!(MutationType::ElimDelegateMutation.is_mutation_point(&d));
    let plain = node(vec![
        ("nodeType", text("FunctionCall")),
        (
            "expression",
            obj(vec![
                ("nodeType", text("MemberAccess")),
                ("memberName", text("call")),
            ]),
        ),
    ]);
    assert!(!MutationType::ElimDelegateMutation.is_mutation_point(&plain));
}

#[test]
fn binary_op_rewrites_operator_token() {
    let b = binop_node();
    let source = b"a + b";
    let mut rng = rng_from_seed(1);
    let out = MutationType::BinaryOpMutation.mutate_randomly(&b, source, &mut rng);
    let allowed: Vec<Vec<u8>> = vec![
        b"a + b".to_vec(),
        b"a - b".to_vec(),
        b"a * b".to_vec(),
        b"a / b".to_vec(),
        b"a % b".to_vec(),
        b"a ** b".to_vec(),
    ];
    assert!(allowed.contains(&out));
    // A fixed seed reproduces the same literal choice.
    let mut rng2 = rng_from_seed(1);
    let again = MutationType::BinaryOpMutation.mutate_randomly(&b, source, &mut rng2);
    assert_eq!(out, again);
}

#[test]
fn require_wraps_first_argument_in_negation() {
    let r = require_node();
    let source = b"require(x > 0)";
    let mut rng = rng_from_seed(99);
    let out = MutationType::RequireMutation.mutate_randomly(&r, source, &mut rng);
    assert_eq!(out, b"require(!(x > 0))".to_vec());
}

#[test]
fn delete_expression_comments_out() {
    let s = node(vec![
        ("nodeType", text("ExpressionStatement")),
        ("src", text("2:4:0")),
    ]);
    let mut rng = rng_from_seed(0);
    let out = MutationType::DeleteExpressionMutation.mutate_randomly(&s, b"{ a(); }", &mut rng);
    assert_eq!(out, b"{ /*a();*/ }".to_vec());
}

#[test]
fn assignment_replaces_right_hand_side() {
    let a = node(vec![
        ("nodeType", text("Assignment")),
        ("rightHandSide", obj(vec![("src", text("4:1:0"))])),
    ]);
    let source = b"x = 7;";
    let mut rng = rng_from_seed(3);
    let out = MutationType::AssignmentMutation.mutate_randomly(&a, source, &mut rng);
    // The right-hand side becomes a boolean, 0, 1, or a decimal number.
    assert!(out.starts_with(b"x = ") && out.ends_with(b";"));
    let mid = &out[4..out.len() - 1];
    let ok = mid == b"true" || mid == b"false" || mid.iter().all(|b| b.is_ascii_digit());
    assert!(ok, "unexpected right-hand side: {:?}", mid);
}

#[test]
fn if_statement_replaces_or_negates_condition() {
    let i = node(vec![
        ("nodeType", text("IfStatement")),
        ("condition", obj(vec![("src", text("4:5:0"))])),
    ]);
    let source = b"if (x > 1) {}";
    let mut rng = rng_from_seed(11);
    let out = MutationType::IfStatementMutation.mutate_randomly(&i, source, &mut rng);
    let allowed: Vec<Vec<u8>> = vec![
        b"if (true) {}".to_vec(),
        b"if (false) {}".to_vec(),
        b"if (!(x > 1)) {}".to_vec(),
    ];
    assert!(allowed.contains(&out));
}

#[test]
fn swap_operands_exchanges_texts() {
    let b = node(vec![
        ("nodeType", text("BinaryOperation")),
        ("operator", text("-")),
        ("src", text("0:6:0")),
        ("leftExpression", obj(vec![("src", text("0:2:0"))])),
        ("rightExpression", obj(vec![("src", text("5:1:0"))])),
    ]);
    let source = b"ab - c";
    let mut rng = rng_from_seed(5);
    let out = MutationType::SwapArgumentsOperatorMutation.mutate_randomly(&b, source, &mut rng);
    assert_eq!(out, b"c - ab".to_vec());
}

#[test]
fn swap_lines_exchanges_two_statements() {
    let block = node(vec![
        ("nodeType", text("Block")),
        ("src", text("0:13:0")),
        (
            "statements",
            DocValue::Array(vec![
                obj(vec![("src", text("2:4:0"))]),
                obj(vec![("src", text("7:4:0"))]),
            ]),
        ),
    ]);
    let source = b"{ a(); b(); }";
    let mut rng = rng_from_seed(21);
    let out = MutationType::SwapLinesMutation.mutate_randomly(&block, source, &mut rng);
    assert_eq!(out, b"{ b(); a(); }".to_vec());
}

#[test]
fn swap_lines_with_three_statements_is_a_no_op() {
    let block = node(vec![
        ("nodeType", text("Block")),
        ("src", text("0:18:0")),
        (
            "statements",
            DocValue::Array(vec![
                obj(vec![("src", text("2:4:0"))]),
                obj(vec![("src", text("7:4:0"))]),
                obj(vec![("src", text("12:4:0"))]),
            ]),
        ),
    ]);
    let source = b"{ a(); b(); c(); }";
    let mut rng = rng_from_seed(21);
    let out = MutationType::SwapLinesMutation.mutate_randomly(&block, source, &mut rng);
    // Documented no-op: the produced text is the block's own text, unchanged.
    assert_eq!(out, source.to_vec());
}

#[test]
fn swap_arguments_with_two_exchanges_texts() {
    let call = node(vec![
        ("nodeType", text("FunctionCall")),
        ("src", text("0:7:0")),
        (
            "arguments",
            DocValue::Array(vec![
                obj(vec![("src", text("2:1:0"))]),
                obj(vec![("src", text("5:1:0"))]),
            ]),
        ),
    ]);
    let source = b"f(x, y)";
    let mut rng = rng_from_seed(2);
    let out = MutationType::SwapArgumentsFunctionMutation.mutate_randomly(&call, source, &mut rng);
    assert_eq!(out, b"f(y, x)".to_vec());
}

#[test]
fn unary_operator_prefix_and_postfix() {
    let pre = node(vec![
        ("nodeType", text("UnaryOperation")),
        ("operator", text("++")),
        ("src", text("0:3:0")),
    ]);
    let mut rng = rng_from_seed(4);
    let out = MutationType::UnaryOperatorMutation.mutate_randomly(&pre, b"++x", &mut rng);
    let allowed: Vec<Vec<u8>> = vec![b"++x".to_vec(), b"--x".to_vec(), b"~x".to_vec()];
    assert!(allowed.contains(&out));

    let post = node(vec![
        ("nodeType", text("UnaryOperation")),
        ("operator", text("--")),
        ("src", text("0:3:0")),
    ]);
    let mut rng2 = rng_from_seed(4);
    let out2 = MutationType::UnaryOperatorMutation.mutate_randomly(&post, b"x--", &mut rng2);
    let allowed2: Vec<Vec<u8>> = vec![b"x++".to_vec(), b"x--".to_vec()];
    assert!(allowed2.contains(&out2));
}

#[test]
fn elim_delegate_rewrites_member_name() {
    let d = node(vec![
        ("nodeType", text("FunctionCall")),
        (
            "expression",
            obj(vec![
                ("nodeType", text("MemberAccess")),
                ("memberName", text("delegatecall")),
                ("src", text("0:14:0")),
                ("expression", obj(vec![("src", text("0:1:0"))])),
            ]),
        ),
    ]);
    let source = b"a.delegatecall()";
    let mut rng = rng_from_seed(0);
    let out = MutationType::ElimDelegateMutation.mutate_randomly(&d, source, &mut rng);
    assert_eq!(out, b"a.call()".to_vec());
}

#[test]
fn kind_names() {
    assert_eq!(MutationType::BinaryOpMutation.to_string(), "BinaryOpMutation");
    assert_eq!(
        MutationType::SwapLinesMutation.name_bytes(),
        b"SwapLinesMutation".to_vec()
    );
}
