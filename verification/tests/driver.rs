//! The generation driver end to end: discovery, scope, scheduling, the
//! deduplicating loop, and exhaustion.

use gambit::ast::SolAST;
use gambit::doc::DocValue;
use gambit::mutation::{all_mutation_types, MutationType};
use gambit::params::{Command, MutationParams};
use gambit::rng::rng_from_seed;
use gambit::run::{RunError, RunMutations};

fn text(s: &str) -> DocValue {
    DocValue::Text(s.to_string())
}

fn obj(fields: Vec<(&str, DocValue)>) -> DocValue {
    DocValue::Object(fields.into_iter().map(|(k, v)| (k.to_string(), v)).collect())
}

/// `require(x > 0)` as a one-point tree.
fn require_tree() -> DocValue {
    obj(vec![
        ("nodeType", text("FunctionCall")),
        ("src", text("0:14:0")),
        ("expression", obj(vec![("name", text("require"))])),
        ("arguments", DocValue::Array(vec![obj(vec![("src", text("8:5:0"))])])),
    ])
}

fn runner(tree: DocValue, kinds: Vec<MutationType>, seed: u64, quota: i64) -> RunMutations {
    RunMutations {
        fnm: String::new(),
        node: SolAST::new(tree, None),
        num_mutants: quota,
        rand: rng_from_seed(seed),
        out: String::new(),
        mutation_types: kinds,
        funcs_to_mutate: None,
        contract: None,
    }
}

/// Run a whole session against a constant validity verdict.
fn collect(tree: DocValue, kinds: Vec<MutationType>, seed: u64, quota: i64, valid: bool) -> (
    Vec<Vec<u8>>,
    i64,
) {
    let source = b"require(x > 0)".to_vec();
    let mut run = runner(tree, kinds, seed, quota).get_mutations(source).unwrap_or_else(
        |_| panic!("discovery rejected a well-formed tree"),
    );
    while let Some(_candidate) = run.next_candidate() {
        run.report_validity(valid);
    }
    let attempts = run.attempts();
    (run.into_mutants(), attempts)
}

#[test]
fn one_valid_mutant_then_exhaustion() {
    let (mutants, attempts) = collect(
        require_tree(),
        vec![MutationType::RequireMutation],
        7,
        3,
        true,
    );
    // The single possible rewrite is produced once; every further candidate
    // is a duplicate, so the attempt budget runs out with one mutant.
    assert_eq!(mutants.len(), 1);
    assert_eq!(attempts, 150);
    assert_eq!(
        mutants[0],
        b"/// RequireMutation of: require(x > 0)\nrequire(!(x > 0))\n".to_vec()
    );
}

#[test]
fn determinism_under_a_fixed_seed() {
    let a = collect(require_tree(), vec![MutationType::RequireMutation], 7, 3, true);
    let b = collect(require_tree(), vec![MutationType::RequireMutation], 7, 3, true);
    assert_eq!(a.0, b.0);
    assert_eq!(a.1, b.1);
}

#[test]
fn always_invalid_candidates_exhaust_without_error() {
    let (mutants, attempts) = collect(
        require_tree(),
        vec![MutationType::RequireMutation],
        0,
        3,
        false,
    );
    // Quota 3 allows 3 x 50 = 150 attempts; none succeeds, the run ends
    // non-fatally with an empty list.
    assert_eq!(mutants.len(), 0);
    assert_eq!(attempts, 150);
}

#[test]
fn empty_discovery_finishes_with_zero_mutants() {
    let tree = obj(vec![("nodeType", text("PragmaDirective"))]);
    let mut run = runner(tree, all_mutation_types(), 1, 5)
        .get_mutations(b"pragma;".to_vec())
        .unwrap_or_else(|_| panic!("discovery rejected a well-formed tree"));
    assert!(run.next_candidate().is_none());
    assert_eq!(run.attempts(), 0);
    assert_eq!(run.into_mutants().len(), 0);
}

#[test]
fn negative_quota_schedules_nothing() {
    let mut run = runner(require_tree(), vec![MutationType::RequireMutation], 1, -2)
        .get_mutations(b"require(x > 0)".to_vec())
        .unwrap_or_else(|_| panic!("discovery rejected a well-formed tree"));
    assert!(run.next_candidate().is_none());
    assert_eq!(run.into_mutants().len(), 0);
}

#[test]
fn malformed_node_aborts_the_run() {
    // A binary operation without operand spans is a predicate/grammar
    // mismatch: the run is rejected up front.
    let tree = obj(vec![("nodeType", text("BinaryOperation"))]);
    let r = runner(tree, vec![MutationType::BinaryOpMutation], 1, 5)
        .get_mutations(b"a + b".to_vec());
    assert!(matches!(r, Err(RunError::MalformedNode)));
}

#[test]
fn is_assert_call_checks_name() {
    let a = SolAST::new(obj(vec![("name", text("assert"))]), None);
    assert!(RunMutations::is_assert_call(&a));
    let b = SolAST::new(obj(vec![("name", text("require"))]), None);
    assert!(!RunMutations::is_assert_call(&b));
}

#[test]
fn traversal_skips_assert_call_subtrees() {
    // A binary operation inside an assertion-check call yields no point.
    let tree = obj(vec![
        ("nodeType", text("FunctionCall")),
        ("name", text("assert")),
        (
            "arguments",
            DocValue::Array(vec![obj(vec![("nodeType", text("BinaryOperation"))])]),
        ),
    ]);
    let points = SolAST::new(tree, None).traverse(
        &vec![MutationType::BinaryOpMutation],
        &None,
        &None,
    );
    assert_eq!(points.len(), 0);
}

#[test]
fn traversal_finds_nested_points_in_preorder() {
    let tree = obj(vec![
        ("nodeType", text("Block")),
        (
            "statements",
            DocValue::Array(vec![
                obj(vec![("nodeType", text("BinaryOperation"))]),
                obj(vec![("nodeType", text("BinaryOperation"))]),
            ]),
        ),
    ]);
    let points = SolAST::new(tree, None).traverse(
        &vec![MutationType::BinaryOpMutation],
        &None,
        &None,
    );
    assert_eq!(points.len(), 2);
    assert!(points.iter().all(|p| p.0 == MutationType::BinaryOpMutation));
}

#[test]
fn contract_scope_restricts_discovery() {
    let two_contracts = obj(vec![(
        "nodes",
        DocValue::Array(vec![
            obj(vec![
                ("contractKind", text("contract")),
                ("name", text("C")),
                (
                    "nodes",
                    DocValue::Array(vec![obj(vec![("nodeType", text("BinaryOperation"))])]),
                ),
            ]),
            obj(vec![
                ("contractKind", text("contract")),
                ("name", text("D")),
                (
                    "nodes",
                    DocValue::Array(vec![obj(vec![("nodeType", text("BinaryOperation"))])]),
                ),
            ]),
        ]),
    )]);
    let kinds = vec![MutationType::BinaryOpMutation];
    let points = SolAST::new(two_contracts.duplicate(), None).traverse(
        &kinds,
        &None,
        &Some("C".to_string()),
    );
    assert_eq!(points.len(), 1);
    assert_eq!(points[0].1.get_contract(), Some("C".to_string()));
    let none = SolAST::new(two_contracts, None).traverse(&kinds, &None, &Some("X".to_string()));
    assert_eq!(none.len(), 0);
}

#[test]
fn function_allow_list_restricts_discovery() {
    let tree = obj(vec![(
        "nodes",
        DocValue::Array(vec![
            obj(vec![
                ("nodeType", text("FunctionDefinition")),
                ("name", text("f")),
                ("body", obj(vec![("nodeType", text("BinaryOperation"))])),
            ]),
            obj(vec![
                ("nodeType", text("FunctionDefinition")),
                ("name", text("g")),
                ("body", obj(vec![("nodeType", text("BinaryOperation"))])),
            ]),
        ]),
    )]);
    let kinds = vec![MutationType::BinaryOpMutation];
    let points = SolAST::new(tree.duplicate(), None).traverse(
        &kinds,
        &Some(vec!["f".to_string()]),
        &None,
    );
    // Only the body of `f` is in scope; the walk contributes the binary
    // operation inside it and nothing from `g`.
    assert_eq!(points.len(), 1);
    let nothing = SolAST::new(tree, None).traverse(&kinds, &Some(vec!["h".to_string()]), &None);
    assert_eq!(nothing.len(), 0);
}

#[test]
fn params_carry_the_run_configuration() {
    let p = MutationParams {
        json: None,
        filename: Some(vec!["a.sol".to_string()]),
        num_mutants: 5,
        outdir: "out".to_string(),
        seed: 0,
        solc: "solc".to_string(),
    };
    let c = Command::Mutate(p);
    match c {
        Command::Mutate(q) => {
            assert_eq!(q.num_mutants, 5);
            assert_eq!(q.seed, 0);
        }
    }
}

#[test]
fn all_kinds_are_listed_once() {
    let all = all_mutation_types();
    assert_eq!(all.len(), 11);
    for (i, a) in all.iter().enumerate() {
        for (j, b) in all.iter().enumerate() {
            if i != j {
                assert!(a != b);
            }
        }
    }
}
