//! The mutation-operator catalog: a closed set of mutation kinds, each
//! pairing an applicability predicate over a tree node with a randomized
//! rewrite generator.

use vstd::prelude::*;
use vstd::string::StrSliceExecFns;
use crate::ast::{
    pair_views, spec_comment_out, spec_insert_rep, spec_multi_splice, spec_multi_splice_from,
    spec_sort_reps, AstV, RepV, SolAST,
};
use crate::bytes::{dec_digits, push_all, spec_splice, u64_to_dec};
use crate::chars::{ascii_bytes, ascii_seq, str_eq};
use crate::rng::{rng_below, rng_next_u64, rng_shuffle_nodes};

verus! {

/// Kinds of mutations.
#[derive(Hash, Eq, PartialEq, Clone, Copy, Debug, Structural)]
pub enum MutationType {
    BinaryOpMutation,
    RequireMutation,
    AssignmentMutation,
    DeleteExpressionMutation,
    FunctionCallMutation,
    IfStatementMutation,
    SwapArgumentsFunctionMutation,
    SwapArgumentsOperatorMutation,
    SwapLinesMutation,
    UnaryOperatorMutation,
    ElimDelegateMutation,
}

/// The operators a binary operation may be rewritten to.
pub open spec fn binop_choice(i: int) -> Seq<char> {
    if i == 0 {
        "+"@
    } else if i == 1 {
        "-"@
    } else if i == 2 {
        "*"@
    } else if i == 3 {
        "/"@
    } else if i == 4 {
        "%"@
    } else {
        "**"@
    }
}

/// The operators a prefix unary operation may be rewritten to.
pub open spec fn unary_prefix_choice(i: int) -> Seq<char> {
    if i == 0 {
        "++"@
    } else if i == 1 {
        "--"@
    } else {
        "~"@
    }
}

/// The operators a postfix unary operation may be rewritten to.
pub open spec fn unary_suffix_choice(i: int) -> Seq<char> {
    if i == 0 {
        "++"@
    } else {
        "--"@
    }
}

/// The texts an assignment's right-hand side may be rewritten to: four fixed
/// literals or the decimal text of a random 64-bit value.
pub open spec fn assign_choice(i: int, u: u64) -> Seq<u8> {
    if i == 0 {
        ascii_seq("true"@)
    } else if i == 1 {
        ascii_seq("false"@)
    } else if i == 2 {
        ascii_seq("0"@)
    } else if i == 3 {
        ascii_seq("1"@)
    } else {
        dec_digits(u as nat)
    }
}

/// A binary operator on which swapping the operands can change the meaning.
pub open spec fn non_commutative_op(op: Seq<char>) -> bool {
    ||| op == "-"@
    ||| op == "/"@
    ||| op == "%"@
    ||| op == "**"@
    ||| op == ">"@
    ||| op == "<"@
    ||| op == ">="@
    ||| op == "<="@
    ||| op == "<<"@
    ||| op == ">>"@
}

/// Two spans neither overlap nor share a start offset.
pub open spec fn spans_separate(a: (int, int), b: (int, int)) -> bool {
    (a.1 <= b.0 || b.1 <= a.0) && a.0 != b.0
}

/// `s` with the texts of the two spans exchanged.
pub open spec fn spec_swap2(s: Seq<u8>, a: (int, int), b: (int, int)) -> Seq<u8> {
    let lo = if a.0 <= b.0 {
        a
    } else {
        b
    };
    let hi = if a.0 <= b.0 {
        b
    } else {
        a
    };
    s.take(lo.0) + s.subrange(hi.0, hi.1) + s.subrange(lo.1, hi.0) + s.subrange(lo.0, lo.1)
        + s.skip(hi.1)
}

/// Whether `kind` is applicable at node `a`.
pub open spec fn spec_is_mutation_point(kind: MutationType, a: AstV) -> bool {
    match kind {
        MutationType::BinaryOpMutation => a.node_type_str() == Some("BinaryOperation"@),
        MutationType::RequireMutation => a.node_type_str() == Some("FunctionCall"@) && a.node(
            "expression"@,
        ).name_str() == Some("require"@) && a.arguments_v().len() > 0,
        MutationType::AssignmentMutation => a.node_type_str() == Some("Assignment"@),
        MutationType::DeleteExpressionMutation => a.node_type_str() == Some(
            "ExpressionStatement"@,
        ),
        MutationType::FunctionCallMutation => a.node_type_str() == Some("FunctionCall"@)
            && a.arguments_v().len() > 0,
        MutationType::IfStatementMutation => a.node_type_str() == Some("IfStatement"@),
        MutationType::SwapArgumentsFunctionMutation => a.node_type_str() == Some("FunctionCall"@)
            && a.arguments_v().len() > 1,
        MutationType::SwapArgumentsOperatorMutation => a.node_type_str() == Some(
            "BinaryOperation"@,
        ) && (a.operator_str() matches Some(op) && non_commutative_op(op)),
        MutationType::SwapLinesMutation => a.node_type_str() == Some("Block"@)
            && a.statements_v().len() > 1,
        MutationType::UnaryOperatorMutation => a.node_type_str() == Some("UnaryOperation"@),
        MutationType::ElimDelegateMutation => a.node_type_str() == Some("FunctionCall"@) && a.node(
            "expression"@,
        ).node_type_str() == Some("MemberAccess"@) && a.node("expression"@).string_field(
            "memberName"@,
        ) == Some("delegatecall"@),
    }
}

/// The spans `kind`'s generator touches at node `a` exist and lie inside a
/// source of `len` bytes.  A node that fails this is malformed input.
pub open spec fn spec_point_wf(kind: MutationType, a: AstV, len: int) -> bool {
    match kind {
        MutationType::BinaryOpMutation => {
            &&& a.node("leftExpression"@).spec_span() matches Some(ls)
            &&& a.node("rightExpression"@).spec_span() matches Some(rs)
            &&& ls.1 <= rs.0 <= len
        }
        MutationType::RequireMutation => {
            &&& a.arguments_v().len() > 0
            &&& a.arguments_v()[0].spec_span() matches Some(sp)
            &&& sp.1 <= len
        }
        MutationType::AssignmentMutation => {
            &&& a.node("rightHandSide"@).spec_span() matches Some(sp)
            &&& sp.1 <= len
        }
        MutationType::DeleteExpressionMutation => {
            &&& a.spec_span() matches Some(sp)
            &&& sp.1 <= len
        }
        MutationType::FunctionCallMutation => {
            &&& a.spec_span() matches Some(sp)
            &&& sp.1 <= len
            &&& forall|i: int|
                0 <= i < a.arguments_v().len() ==> ((#[trigger] a.arguments_v()[i]).spec_span()
                    matches Some(asp) && asp.1 <= len)
        }
        MutationType::IfStatementMutation => {
            &&& a.node("condition"@).spec_span() matches Some(sp)
            &&& sp.1 <= len
        }
        MutationType::SwapArgumentsFunctionMutation => {
            &&& a.spec_span() matches Some(sp)
            &&& sp.1 <= len
            &&& forall|i: int|
                0 <= i < a.arguments_v().len() ==> ((#[trigger] a.arguments_v()[i]).spec_span()
                    matches Some(asp) && asp.1 <= len)
            &&& (a.arguments_v().len() == 2 ==> spans_separate(
                a.arguments_v()[0].spec_span()->0,
                a.arguments_v()[1].spec_span()->0,
            ))
        }
        MutationType::SwapArgumentsOperatorMutation => {
            &&& a.node("leftExpression"@).spec_span() matches Some(ls)
            &&& a.node("rightExpression"@).spec_span() matches Some(rs)
            &&& ls.1 <= len
            &&& rs.1 <= len
            &&& spans_separate(ls, rs)
        }
        MutationType::SwapLinesMutation => {
            &&& a.spec_span() matches Some(sp)
            &&& sp.1 <= len
            &&& forall|i: int|
                0 <= i < a.statements_v().len() ==> ((#[trigger] a.statements_v()[i]).spec_span()
                    matches Some(ssp) && ssp.1 <= len)
            &&& (a.statements_v().len() == 2 ==> spans_separate(
                a.statements_v()[0].spec_span()->0,
                a.statements_v()[1].spec_span()->0,
            ))
        }
        MutationType::UnaryOperatorMutation => {
            &&& a.spec_span() matches Some(sp)
            &&& sp.1 <= len
            &&& a.operator_str() matches Some(op)
            &&& op.len() >= 1
            &&& sp.0 + op.len() <= sp.1
        }
        MutationType::ElimDelegateMutation => {
            &&& a.node("expression"@).node("expression"@).spec_span() matches Some(il)
            &&& a.node("expression"@).spec_span() matches Some(ol)
            &&& il.1 + 1 <= ol.1 <= len
        }
    }
}

/// What `kind`'s generator may return at node `a` over source `s`: the exact
/// rewrite, up to the choices drawn from the random stream.
pub open spec fn spec_mutant_ok(kind: MutationType, a: AstV, s: Seq<u8>, r: Seq<u8>) -> bool {
    match kind {
        MutationType::BinaryOpMutation => {
            let ls = a.node("leftExpression"@).spec_span()->0;
            let rs = a.node("rightExpression"@).spec_span()->0;
            exists|i: int|
                0 <= i < 6 && r == spec_splice(
                    s,
                    ls.1,
                    rs.0,
                    ascii_seq(" "@) + ascii_seq(#[trigger] binop_choice(i)) + ascii_seq(" "@),
                )
        }
        MutationType::RequireMutation => {
            let sp = a.arguments_v()[0].spec_span()->0;
            r == spec_splice(
                s,
                sp.0,
                sp.1,
                ascii_seq("!("@) + s.subrange(sp.0, sp.1) + ascii_seq(")"@),
            )
        }
        MutationType::AssignmentMutation => {
            let sp = a.node("rightHandSide"@).spec_span()->0;
            exists|i: int, u: u64|
                0 <= i < 5 && r == spec_splice(s, sp.0, sp.1, #[trigger] assign_choice(i, u))
        }
        MutationType::DeleteExpressionMutation => {
            let sp = a.spec_span()->0;
            r == spec_comment_out(s, sp.0, sp.1)
        }
        MutationType::FunctionCallMutation => {
            let sp = a.spec_span()->0;
            exists|i: int|
                0 <= i < a.arguments_v().len() && ({
                    let asp = (#[trigger] a.arguments_v()[i]).spec_span()->0;
                    r == spec_splice(s, sp.0, sp.1, s.subrange(asp.0, asp.1))
                })
        }
        MutationType::IfStatementMutation => {
            let sp = a.node("condition"@).spec_span()->0;
            ||| r == spec_splice(s, sp.0, sp.1, ascii_seq("true"@))
            ||| r == spec_splice(s, sp.0, sp.1, ascii_seq("false"@))
            ||| r == spec_splice(
                s,
                sp.0,
                sp.1,
                ascii_seq("!("@) + s.subrange(sp.0, sp.1) + ascii_seq(")"@),
            )
        }
        MutationType::SwapArgumentsFunctionMutation => {
            if a.arguments_v().len() == 2 {
                r == spec_swap2(
                    s,
                    a.arguments_v()[0].spec_span()->0,
                    a.arguments_v()[1].spec_span()->0,
                )
            } else {
                let sp = a.spec_span()->0;
                r == s.subrange(sp.0, sp.1)
            }
        }
        MutationType::SwapArgumentsOperatorMutation => {
            r == spec_swap2(
                s,
                a.node("leftExpression"@).spec_span()->0,
                a.node("rightExpression"@).spec_span()->0,
            )
        }
        MutationType::SwapLinesMutation => {
            if a.statements_v().len() == 2 {
                r == spec_swap2(
                    s,
                    a.statements_v()[0].spec_span()->0,
                    a.statements_v()[1].spec_span()->0,
                )
            } else {
                let sp = a.spec_span()->0;
                r == s.subrange(sp.0, sp.1)
            }
        }
        MutationType::UnaryOperatorMutation => {
            let sp = a.spec_span()->0;
            let op = a.operator_str()->0;
            if s[sp.0] == op[0] as u8 {
                exists|i: int|
                    0 <= i < 3 && r == spec_splice(
                        s,
                        sp.0,
                        sp.0 + op.len(),
                        ascii_seq(#[trigger] unary_prefix_choice(i)),
                    )
            } else {
                exists|i: int|
                    0 <= i < 2 && r == spec_splice(
                        s,
                        sp.1 - op.len(),
                        sp.1,
                        ascii_seq(#[trigger] unary_suffix_choice(i)),
                    )
            }
        }
        MutationType::ElimDelegateMutation => {
            let il = a.node("expression"@).node("expression"@).spec_span()->0;
            let ol = a.node("expression"@).spec_span()->0;
            r == spec_splice(s, il.1 + 1, ol.1, ascii_seq("call"@))
        }
    }
}

/// Every kind of mutation implements this trait: an applicability predicate
/// over a tree node, and a randomized rewrite generator that is only ever
/// invoked where the predicate holds.
pub trait Mutation: Sized {
    /// Whether this mutation applies at node `a`.
    spec fn applicable(&self, a: AstV) -> bool;

    /// The spans the generator touches exist and fit a source of `len` bytes.
    spec fn point_wf(&self, a: AstV, len: int) -> bool;

    /// What the generator may return, up to the random choices drawn.
    spec fn mutant_ok(&self, a: AstV, s: Seq<u8>, r: Seq<u8>) -> bool;

    /// Test the applicability predicate.
    fn is_mutation_point(&self, node: &SolAST) -> (r: bool)
        ensures
            r == self.applicable(node@),
    ;

    /// Rewrite `source` at `node`; the predicate must hold and the node must
    /// be well-formed for this kind.
    fn mutate_randomly(&self, node: &SolAST, source: &[u8], rand: &mut rand_pcg::Pcg64) -> (r:
        Vec<u8>)
        requires
            self.applicable(node@),
            self.point_wf(node@, source@.len() as int),
        ensures
            self.mutant_ok(node@, source@, r@),
    ;
}

/// Whether `o` holds a string equal to `lit`.
fn opt_is(o: &Option<String>, lit: &str) -> (r: bool)
    ensures
        r == (o matches Some(s) && s@ == lit@),
{
    match o {
        Some(s) => str_eq(s.as_str(), lit),
        None => false,
    }
}

/// Whether `node`'s `nodeType` field equals `lit`.
fn node_type_is(node: &SolAST, lit: &str) -> (r: bool)
    ensures
        r == (node@.node_type_str() == Some(lit@)),
{
    let nt = node.node_type();
    opt_is(&nt, lit)
}

impl MutationType {
    /// The name of this kind.
    pub fn to_string(&self) -> (r: String)
        ensures
            ascii_seq(r@) == spec_kind_name(*self),
            r@.len() == spec_kind_name(*self).len(),
    {
        match self {
            MutationType::BinaryOpMutation => "BinaryOpMutation".to_owned(),
            MutationType::RequireMutation => "RequireMutation".to_owned(),
            MutationType::AssignmentMutation => "AssignmentMutation".to_owned(),
            MutationType::DeleteExpressionMutation => "DeleteExpressionMutation".to_owned(),
            MutationType::FunctionCallMutation => "FunctionCallMutation".to_owned(),
            MutationType::IfStatementMutation => "IfStatementMutation".to_owned(),
            MutationType::SwapArgumentsFunctionMutation => "SwapArgumentsFunctionMutation"
                .to_owned(),
            MutationType::SwapArgumentsOperatorMutation => "SwapArgumentsOperatorMutation"
                .to_owned(),
            MutationType::SwapLinesMutation => "SwapLinesMutation".to_owned(),
            MutationType::UnaryOperatorMutation => "UnaryOperatorMutation".to_owned(),
            MutationType::ElimDelegateMutation => "ElimDelegateMutation".to_owned(),
        }
    }

    /// The name of this kind, as ASCII bytes.
    pub fn name_bytes(&self) -> (r: Vec<u8>)
        ensures
            r@ == spec_kind_name(*self),
    {
        proof {
            reveal_strlit("BinaryOpMutation");
            reveal_strlit("RequireMutation");
            reveal_strlit("AssignmentMutation");
            reveal_strlit("DeleteExpressionMutation");
            reveal_strlit("FunctionCallMutation");
            reveal_strlit("IfStatementMutation");
            reveal_strlit("SwapArgumentsFunctionMutation");
            reveal_strlit("SwapArgumentsOperatorMutation");
            reveal_strlit("SwapLinesMutation");
            reveal_strlit("UnaryOperatorMutation");
            reveal_strlit("ElimDelegateMutation");
        }
        match self {
            MutationType::BinaryOpMutation => ascii_bytes("BinaryOpMutation"),
            MutationType::RequireMutation => ascii_bytes("RequireMutation"),
            MutationType::AssignmentMutation => ascii_bytes("AssignmentMutation"),
            MutationType::DeleteExpressionMutation => ascii_bytes("DeleteExpressionMutation"),
            MutationType::FunctionCallMutation => ascii_bytes("FunctionCallMutation"),
            MutationType::IfStatementMutation => ascii_bytes("IfStatementMutation"),
            MutationType::SwapArgumentsFunctionMutation => ascii_bytes(
                "SwapArgumentsFunctionMutation",
            ),
            MutationType::SwapArgumentsOperatorMutation => ascii_bytes(
                "SwapArgumentsOperatorMutation",
            ),
            MutationType::SwapLinesMutation => ascii_bytes("SwapLinesMutation"),
            MutationType::UnaryOperatorMutation => ascii_bytes("UnaryOperatorMutation"),
            MutationType::ElimDelegateMutation => ascii_bytes("ElimDelegateMutation"),
        }
    }
}

/// The ASCII name of a mutation kind.
pub open spec fn spec_kind_name(kind: MutationType) -> Seq<u8> {
    match kind {
        MutationType::BinaryOpMutation => ascii_seq("BinaryOpMutation"@),
        MutationType::RequireMutation => ascii_seq("RequireMutation"@),
        MutationType::AssignmentMutation => ascii_seq("AssignmentMutation"@),
        MutationType::DeleteExpressionMutation => ascii_seq("DeleteExpressionMutation"@),
        MutationType::FunctionCallMutation => ascii_seq("FunctionCallMutation"@),
        MutationType::IfStatementMutation => ascii_seq("IfStatementMutation"@),
        MutationType::SwapArgumentsFunctionMutation => ascii_seq("SwapArgumentsFunctionMutation"@),
        MutationType::SwapArgumentsOperatorMutation => ascii_seq("SwapArgumentsOperatorMutation"@),
        MutationType::SwapLinesMutation => ascii_seq("SwapLinesMutation"@),
        MutationType::UnaryOperatorMutation => ascii_seq("UnaryOperatorMutation"@),
        MutationType::ElimDelegateMutation => ascii_seq("ElimDelegateMutation"@),
    }
}

impl Mutation for MutationType {
    open spec fn applicable(&self, a: AstV) -> bool {
        spec_is_mutation_point(*self, a)
    }

    open spec fn point_wf(&self, a: AstV, len: int) -> bool {
        spec_point_wf(*self, a, len)
    }

    open spec fn mutant_ok(&self, a: AstV, s: Seq<u8>, r: Seq<u8>) -> bool {
        spec_mutant_ok(*self, a, s, r)
    }

    fn is_mutation_point(&self, node: &SolAST) -> (r: bool) {
        match self {
            MutationType::BinaryOpMutation => node_type_is(node, "BinaryOperation"),
            MutationType::RequireMutation => {
                if !node_type_is(node, "FunctionCall") {
                    return false;
                }
                let e = node.expression();
                let nm = e.name();
                if !opt_is(&nm, "require") {
                    return false;
                }
                let args = node.arguments();
                args.len() > 0
            }
            MutationType::AssignmentMutation => node_type_is(node, "Assignment"),
            MutationType::DeleteExpressionMutation => node_type_is(node, "ExpressionStatement"),
            MutationType::FunctionCallMutation => {
                if !node_type_is(node, "FunctionCall") {
                    return false;
                }
                let args = node.arguments();
                args.len() > 0
            }
            MutationType::IfStatementMutation => node_type_is(node, "IfStatement"),
            MutationType::SwapArgumentsFunctionMutation => {
                if !node_type_is(node, "FunctionCall") {
                    return false;
                }
                let args = node.arguments();
                args.len() > 1
            }
            MutationType::SwapArgumentsOperatorMutation => {
                if !node_type_is(node, "BinaryOperation") {
                    return false;
                }
                match node.operator() {
                    Some(op) => {
                        let o = op.as_str();
                        str_eq(o, "-") || str_eq(o, "/") || str_eq(o, "%") || str_eq(o, "**")
                            || str_eq(o, ">") || str_eq(o, "<") || str_eq(o, ">=") || str_eq(
                            o,
                            "<=",
                        ) || str_eq(o, "<<") || str_eq(o, ">>")
                    }
                    None => false,
                }
            }
            MutationType::SwapLinesMutation => {
                if !node_type_is(node, "Block") {
                    return false;
                }
                let stmts = node.statements();
                stmts.len() > 1
            }
            MutationType::UnaryOperatorMutation => node_type_is(node, "UnaryOperation"),
            MutationType::ElimDelegateMutation => {
                if !node_type_is(node, "FunctionCall") {
                    return false;
                }
                let e = node.expression();
                if !node_type_is(&e, "MemberAccess") {
                    return false;
                }
                let mn = e.get_string("memberName");
                opt_is(&mn, "delegatecall")
            }
        }
    }

    fn mutate_randomly(&self, node: &SolAST, source: &[u8], rand: &mut rand_pcg::Pcg64) -> (r:
        Vec<u8>) {
        match self {
            MutationType::BinaryOpMutation => mutate_binary_op(node, source, rand),
            MutationType::RequireMutation => mutate_require(node, source, rand),
            MutationType::AssignmentMutation => mutate_assignment(node, source, rand),
            MutationType::DeleteExpressionMutation => mutate_delete_expression(node, source, rand),
            MutationType::FunctionCallMutation => mutate_function_call(node, source, rand),
            MutationType::IfStatementMutation => mutate_if_statement(node, source, rand),
            MutationType::SwapArgumentsFunctionMutation => mutate_swap_arguments(
                node,
                source,
                rand,
            ),
            MutationType::SwapArgumentsOperatorMutation => mutate_swap_operands(
                node,
                source,
                rand,
            ),
            MutationType::SwapLinesMutation => mutate_swap_lines(node, source, rand),
            MutationType::UnaryOperatorMutation => mutate_unary_operator(node, source, rand),
            MutationType::ElimDelegateMutation => mutate_elim_delegate(node, source, rand),
        }
    }
}

/// Replace the operator token between the operand spans with a random choice.
fn mutate_binary_op(node: &SolAST, source: &[u8], rand: &mut rand_pcg::Pcg64) -> (r: Vec<u8>)
    requires
        spec_point_wf(MutationType::BinaryOpMutation, node@, source@.len() as int),
    ensures
        spec_mutant_ok(MutationType::BinaryOpMutation, node@, source@, r@),
{
    proof {
        reveal_strlit(" ");
        reveal_strlit("+");
        reveal_strlit("-");
        reveal_strlit("*");
        reveal_strlit("/");
        reveal_strlit("%");
        reveal_strlit("**");
    }
    let le = node.left_expression();
    let re = node.right_expression();
    let lb = le.get_bounds();
    let rb = re.get_bounds();
    let endl = lb.1;
    let startr = rb.0;
    let i = rng_below(rand, 6);
    let op: &str = if i == 0 {
        "+"
    } else if i == 1 {
        "-"
    } else if i == 2 {
        "*"
    } else if i == 3 {
        "/"
    } else if i == 4 {
        "%"
    } else {
        "**"
    };
    let mut frag = ascii_bytes(" ");
    push_all(&mut frag, ascii_bytes(op).as_slice());
    push_all(&mut frag, ascii_bytes(" ").as_slice());
    let r = node.replace_part(source, frag.as_slice(), endl, startr);
    proof {
        assert(op@ == binop_choice(i as int));
        assert(frag@ == ascii_seq(" "@) + ascii_seq(binop_choice(i as int)) + ascii_seq(" "@));
    }
    r
}

/// Wrap the first call argument in a logical negation.
fn mutate_require(node: &SolAST, source: &[u8], rand: &mut rand_pcg::Pcg64) -> (r: Vec<u8>)
    requires
        spec_point_wf(MutationType::RequireMutation, node@, source@.len() as int),
    ensures
        spec_mutant_ok(MutationType::RequireMutation, node@, source@, r@),
{
    proof {
        reveal_strlit("!(");
        reveal_strlit(")");
    }
    let args = node.arguments();
    proof {
        assert(args.deep_view()[0] == node@.arguments_v()[0]);
    }
    let arg = &args[0];
    let text = arg.get_text(source);
    let mut frag = ascii_bytes("!(");
    push_all(&mut frag, text.as_slice());
    push_all(&mut frag, ascii_bytes(")").as_slice());
    arg.replace_in_source(source, frag.as_slice())
}

/// Replace the right-hand side with a random boolean or integer literal.
fn mutate_assignment(node: &SolAST, source: &[u8], rand: &mut rand_pcg::Pcg64) -> (r: Vec<u8>)
    requires
        spec_point_wf(MutationType::AssignmentMutation, node@, source@.len() as int),
    ensures
        spec_mutant_ok(MutationType::AssignmentMutation, node@, source@, r@),
{
    proof {
        reveal_strlit("true");
        reveal_strlit("false");
        reveal_strlit("0");
        reveal_strlit("1");
    }
    let rhs = node.right_hand_side();
    let u = rng_next_u64(rand);
    let udec = u64_to_dec(u);
    let i = rng_below(rand, 5);
    let frag: Vec<u8> = if i == 0 {
        ascii_bytes("true")
    } else if i == 1 {
        ascii_bytes("false")
    } else if i == 2 {
        ascii_bytes("0")
    } else if i == 3 {
        ascii_bytes("1")
    } else {
        udec
    };
    let r = rhs.replace_in_source(source, frag.as_slice());
    proof {
        assert(frag@ == assign_choice(i as int, u));
    }
    r
}

/// Comment out the whole statement.
fn mutate_delete_expression(node: &SolAST, source: &[u8], rand: &mut rand_pcg::Pcg64) -> (r: Vec<
    u8,
>)
    requires
        spec_point_wf(MutationType::DeleteExpressionMutation, node@, source@.len() as int),
    ensures
        spec_mutant_ok(MutationType::DeleteExpressionMutation, node@, source@, r@),
{
    node.comment_out(source)
}

/// Replace the entire call with one uniformly random argument's text.
fn mutate_function_call(node: &SolAST, source: &[u8], rand: &mut rand_pcg::Pcg64) -> (r: Vec<u8>)
    requires
        spec_is_mutation_point(MutationType::FunctionCallMutation, node@),
        spec_point_wf(MutationType::FunctionCallMutation, node@, source@.len() as int),
    ensures
        spec_mutant_ok(MutationType::FunctionCallMutation, node@, source@, r@),
{
    let args = node.arguments();
    let i = rng_below(rand, args.len());
    proof {
        assert(args.deep_view()[i as int] == node@.arguments_v()[i as int]);
    }
    let text = args[i].get_text(source);
    node.replace_in_source(source, text.as_slice())
}

/// Replace the condition with a random boolean literal, or negate it.
fn mutate_if_statement(node: &SolAST, source: &[u8], rand: &mut rand_pcg::Pcg64) -> (r: Vec<u8>)
    requires
        spec_point_wf(MutationType::IfStatementMutation, node@, source@.len() as int),
    ensures
        spec_mutant_ok(MutationType::IfStatementMutation, node@, source@, r@),
{
    proof {
        reveal_strlit("true");
        reveal_strlit("false");
        reveal_strlit("!(");
        reveal_strlit(")");
    }
    let cond = node.condition();
    let first = rng_below(rand, 2);
    if first == 0 {
        let second = rng_below(rand, 2);
        let frag = if second == 0 {
            ascii_bytes("true")
        } else {
            ascii_bytes("false")
        };
        cond.replace_in_source(source, frag.as_slice())
    } else {
        let text = cond.get_text(source);
        let mut frag = ascii_bytes("!(");
        push_all(&mut frag, text.as_slice());
        push_all(&mut frag, ascii_bytes(")").as_slice());
        cond.replace_in_source(source, frag.as_slice())
    }
}

/// Replace the member-name token of a `delegatecall` with `call`.
fn mutate_elim_delegate(node: &SolAST, source: &[u8], rand: &mut rand_pcg::Pcg64) -> (r: Vec<u8>)
    requires
        spec_point_wf(MutationType::ElimDelegateMutation, node@, source@.len() as int),
    ensures
        spec_mutant_ok(MutationType::ElimDelegateMutation, node@, source@, r@),
{
    proof {
        reveal_strlit("call");
    }
    let e = node.expression();
    let inner = e.expression();
    let ib = inner.get_bounds();
    let ob = e.get_bounds();
    node.replace_part(source, ascii_bytes("call").as_slice(), ib.1 + 1, ob.1)
}

/// Replace the operator token of a unary operation, prefix or postfix.
fn mutate_unary_operator(node: &SolAST, source: &[u8], rand: &mut rand_pcg::Pcg64) -> (r: Vec<u8>)
    requires
        spec_point_wf(MutationType::UnaryOperatorMutation, node@, source@.len() as int),
    ensures
        spec_mutant_ok(MutationType::UnaryOperatorMutation, node@, source@, r@),
{
    proof {
        reveal_strlit("++");
        reveal_strlit("--");
        reveal_strlit("~");
    }
    let b = node.get_bounds();
    let start = b.0;
    let end = b.1;
    let op = match node.operator() {
        Some(op) => op,
        None => vstd::pervasive::unreached(),
    };
    let oplen = op.as_str().unicode_len();
    let first = op.as_str().get_char(0);
    if source[start] == first as u8 {
        let i = rng_below(rand, 3);
        let frag = if i == 0 {
            ascii_bytes("++")
        } else if i == 1 {
            ascii_bytes("--")
        } else {
            ascii_bytes("~")
        };
        let r = node.replace_part(source, frag.as_slice(), start, start + oplen);
        proof {
            assert(frag@ == ascii_seq(unary_prefix_choice(i as int)));
        }
        r
    } else {
        let i = rng_below(rand, 2);
        let frag = if i == 0 {
            ascii_bytes("++")
        } else {
            ascii_bytes("--")
        };
        let r = node.replace_part(source, frag.as_slice(), end - oplen, end);
        proof {
            assert(frag@ == ascii_seq(unary_suffix_choice(i as int)));
        }
        r
    }
}

} // verus!

verus! {

/// A two-element sequence with the same multiset is the same pair, in one
/// of the two orders.
proof fn lemma_two_perm(s1: Seq<SolAST>, s2: Seq<SolAST>)
    requires
        s1.len() == 2,
        s2.len() == 2,
        s2.to_multiset() == s1.to_multiset(),
    ensures
        (s2[0] == s1[0] && s2[1] == s1[1]) || (s2[0] == s1[1] && s2[1] == s1[0]),
{
    broadcast use vstd::seq_lib::group_to_multiset_ensures;

    assert(s2.contains(s2[0]));
    assert(s2.to_multiset().count(s2[0]) > 0);
    assert(s1.contains(s2[0]));
    let i = choose|i: int| 0 <= i < s1.len() && s1[i] == s2[0];
    assert(s2.remove(0).to_multiset() =~= s2.to_multiset().remove(s2[0]));
    assert(s2.remove(0) =~= seq![s2[1]]);
    assert(s1.remove(i).to_multiset() =~= s1.to_multiset().remove(s1[i]));
    assert(seq![s2[1]].to_multiset() =~= s1.remove(i).to_multiset());
    assert(seq![s2[1]][0] == s2[1]);
    assert(seq![s2[1]].contains(s2[1]));
    assert(seq![s2[1]].to_multiset().count(s2[1]) > 0);
    assert(s1.remove(i).contains(s2[1]));
    if i == 0 {
        assert(s1.remove(0) =~= seq![s1[1]]);
        assert(s2[1] == s1[1]);
    } else {
        assert(i == 1);
        assert(s1.remove(1) =~= seq![s1[0]]);
        assert(s2[1] == s1[0]);
    }
}

/// Applying exactly two separate replacements is the ordered four-way
/// concatenation around the two spans.
proof fn lemma_multi_splice_two(s: Seq<u8>, a: RepV, b: RepV)
    requires
        0 <= a.0 <= a.1 <= s.len(),
        0 <= b.0 <= b.1 <= s.len(),
        a.1 <= b.0 || b.1 <= a.0,
        a.0 != b.0,
    ensures
        spec_multi_splice(s, seq![a, b]) == ({
            let lo = if a.0 <= b.0 {
                a
            } else {
                b
            };
            let hi = if a.0 <= b.0 {
                b
            } else {
                a
            };
            s.take(lo.0) + lo.2 + s.subrange(lo.1, hi.0) + hi.2 + s.skip(hi.1)
        }),
{
    let rs = seq![a, b];
    assert(rs.drop_last() =~= seq![a]);
    assert(rs.last() == b);
    assert(seq![a].drop_last() =~= Seq::<RepV>::empty());
    assert(seq![a].last() == a);
    assert(spec_sort_reps(Seq::<RepV>::empty()) =~= Seq::<RepV>::empty());
    assert(spec_insert_rep(a, Seq::<RepV>::empty()) =~= seq![a]);
    assert(spec_sort_reps(seq![a]) =~= seq![a]);
    let sorted = spec_insert_rep(b, seq![a]);
    assert(spec_sort_reps(rs) == sorted);
    let lo = if a.0 <= b.0 {
        a
    } else {
        b
    };
    let hi = if a.0 <= b.0 {
        b
    } else {
        a
    };
    assert(lo.1 <= hi.0) by {
        if a.0 < b.0 {
            if !(a.1 <= b.0) {
                assert(b.1 <= a.0);
                assert(false);
            }
        } else {
            if !(b.1 <= a.0) {
                assert(a.1 <= b.0);
                assert(false);
            }
        }
    }
    if b.0 < a.0 {
        assert(sorted =~= seq![b] + seq![a]);
    } else {
        assert(seq![a].drop_first() =~= Seq::<RepV>::empty());
        assert(spec_insert_rep(b, Seq::<RepV>::empty()) =~= seq![b]);
        assert(sorted =~= seq![a] + seq![b]);
    }
    let s2 = seq![lo, hi];
    assert(sorted =~= s2);
    assert(s2[0] == lo && s2[1] == hi);
    assert(s2.drop_first() =~= seq![hi]);
    assert(seq![hi].drop_first() =~= Seq::<RepV>::empty());
    assert(spec_multi_splice_from(s, Seq::<RepV>::empty(), hi.1) == s.skip(hi.1));
    assert(spec_multi_splice_from(s, seq![hi], lo.1) == s.subrange(lo.1, hi.0) + hi.2 + s.skip(
        hi.1,
    ));
    assert(spec_multi_splice_from(s, s2, 0) == s.subrange(0, lo.0) + lo.2 + (s.subrange(
        lo.1,
        hi.0,
    ) + hi.2 + s.skip(hi.1)));
    assert(s.subrange(0, lo.0) =~= s.take(lo.0));
    assert(spec_multi_splice(s, rs) =~= s.take(lo.0) + lo.2 + s.subrange(lo.1, hi.0) + hi.2
        + s.skip(hi.1));
}

/// Swap the left and right operand texts of a binary operation.
fn mutate_swap_operands(node: &SolAST, source: &[u8], rand: &mut rand_pcg::Pcg64) -> (r: Vec<u8>)
    requires
        spec_point_wf(MutationType::SwapArgumentsOperatorMutation, node@, source@.len() as int),
    ensures
        spec_mutant_ok(MutationType::SwapArgumentsOperatorMutation, node@, source@, r@),
{
    let ghost ls = node@.node("leftExpression"@).spec_span()->0;
    let ghost rsp = node@.node("rightExpression"@).spec_span()->0;
    let left = node.left_expression();
    let right = node.right_expression();
    let lt = left.get_text(source);
    let rt = right.get_text(source);
    let mut reps: Vec<(SolAST, Vec<u8>)> = Vec::new();
    reps.push((left, rt));
    reps.push((right, lt));
    let ghost av: RepV = (ls.0, ls.1, source@.subrange(rsp.0, rsp.1));
    let ghost bv: RepV = (rsp.0, rsp.1, source@.subrange(ls.0, ls.1));
    proof {
        assert(pair_views(reps@) =~= seq![av, bv]);
        assert forall|i: int, j: int|
            0 <= i < pair_views(reps@).len() && 0 <= j < pair_views(reps@).len() && i != j implies
            ((#[trigger] pair_views(reps@)[i]).1 <= (#[trigger] pair_views(reps@)[j]).0
            || pair_views(reps@)[j].1 <= pair_views(reps@)[i].0) && pair_views(reps@)[i].0
            != pair_views(reps@)[j].0 by {}
    }
    let r = node.replace_multiple(source, reps);
    proof {
        lemma_multi_splice_two(source@, av, bv);
        if ls.0 <= rsp.0 {
            assert(r@ =~= spec_swap2(source@, ls, rsp));
        } else {
            assert(r@ =~= spec_swap2(source@, ls, rsp));
        }
    }
    r
}

/// Shuffle the call arguments; with exactly two, exchange their texts.
fn mutate_swap_arguments(node: &SolAST, source: &[u8], rand: &mut rand_pcg::Pcg64) -> (r: Vec<u8>)
    requires
        spec_point_wf(MutationType::SwapArgumentsFunctionMutation, node@, source@.len() as int),
    ensures
        spec_mutant_ok(MutationType::SwapArgumentsFunctionMutation, node@, source@, r@),
{
    let mut children = node.arguments();
    let ghost before = children@;
    proof {
        assert(before.len() == node@.arguments_v().len());
    }
    rng_shuffle_nodes(&mut children, rand);
    if children.len() == 2 {
        proof {
            lemma_two_perm(before, children@);
            assert(before[0]@ == node@.arguments_v()[0]);
            assert(before[1]@ == node@.arguments_v()[1]);
        }
        let ghost sp0 = node@.arguments_v()[0].spec_span()->0;
        let ghost sp1 = node@.arguments_v()[1].spec_span()->0;
        let t0 = children[0].get_text(source);
        let t1 = children[1].get_text(source);
        let c1 = match children.pop() {
            Some(c) => c,
            None => vstd::pervasive::unreached(),
        };
        let c0 = match children.pop() {
            Some(c) => c,
            None => vstd::pervasive::unreached(),
        };
        let mut reps: Vec<(SolAST, Vec<u8>)> = Vec::new();
        reps.push((c0, t1));
        reps.push((c1, t0));
        let ghost csp0 = c0@.spec_span()->0;
        let ghost csp1 = c1@.spec_span()->0;
        let ghost av: RepV = (csp0.0, csp0.1, source@.subrange(csp1.0, csp1.1));
        let ghost bv: RepV = (csp1.0, csp1.1, source@.subrange(csp0.0, csp0.1));
        proof {
            assert(pair_views(reps@) =~= seq![av, bv]);
        }
        let r = node.replace_multiple(source, reps);
        proof {
            lemma_multi_splice_two(source@, av, bv);
            assert(r@ =~= spec_swap2(source@, sp0, sp1));
        }
        r
    } else {
        node.get_text(source)
    }
}

/// Shuffle the block's statements; with exactly two, exchange their texts.
fn mutate_swap_lines(node: &SolAST, source: &[u8], rand: &mut rand_pcg::Pcg64) -> (r: Vec<u8>)
    requires
        spec_point_wf(MutationType::SwapLinesMutation, node@, source@.len() as int),
    ensures
        spec_mutant_ok(MutationType::SwapLinesMutation, node@, source@, r@),
{
    let mut children = node.statements();
    let ghost before = children@;
    proof {
        assert(before.len() == node@.statements_v().len());
    }
    rng_shuffle_nodes(&mut children, rand);
    if children.len() == 2 {
        proof {
            lemma_two_perm(before, children@);
            assert(before[0]@ == node@.statements_v()[0]);
            assert(before[1]@ == node@.statements_v()[1]);
        }
        let ghost sp0 = node@.statements_v()[0].spec_span()->0;
        let ghost sp1 = node@.statements_v()[1].spec_span()->0;
        let t0 = children[0].get_text(source);
        let t1 = children[1].get_text(source);
        let c1 = match children.pop() {
            Some(c) => c,
            None => vstd::pervasive::unreached(),
        };
        let c0 = match children.pop() {
            Some(c) => c,
            None => vstd::pervasive::unreached(),
        };
        let mut reps: Vec<(SolAST, Vec<u8>)> = Vec::new();
        reps.push((c0, t1));
        reps.push((c1, t0));
        let ghost csp0 = c0@.spec_span()->0;
        let ghost csp1 = c1@.spec_span()->0;
        let ghost av: RepV = (csp0.0, csp0.1, source@.subrange(csp1.0, csp1.1));
        let ghost bv: RepV = (csp1.0, csp1.1, source@.subrange(csp0.0, csp0.1));
        proof {
            assert(pair_views(reps@) =~= seq![av, bv]);
        }
        let r = node.replace_multiple(source, reps);
        proof {
            lemma_multi_splice_two(source@, av, bv);
            assert(r@ =~= spec_swap2(source@, sp0, sp1));
        }
        r
    } else {
        node.get_text(source)
    }
}

} // verus!

verus! {

/// All eleven mutation kinds, in catalog order.
pub fn all_mutation_types() -> (r: Vec<MutationType>)
    ensures
        r@ =~= seq![
            MutationType::BinaryOpMutation,
            MutationType::RequireMutation,
            MutationType::AssignmentMutation,
            MutationType::DeleteExpressionMutation,
            MutationType::FunctionCallMutation,
            MutationType::IfStatementMutation,
            MutationType::SwapArgumentsFunctionMutation,
            MutationType::SwapArgumentsOperatorMutation,
            MutationType::SwapLinesMutation,
            MutationType::UnaryOperatorMutation,
            MutationType::ElimDelegateMutation,
        ],
{
    let mut r: Vec<MutationType> = Vec::new();
    r.push(MutationType::BinaryOpMutation);
    r.push(MutationType::RequireMutation);
    r.push(MutationType::AssignmentMutation);
    r.push(MutationType::DeleteExpressionMutation);
    r.push(MutationType::FunctionCallMutation);
    r.push(MutationType::IfStatementMutation);
    r.push(MutationType::SwapArgumentsFunctionMutation);
    r.push(MutationType::SwapArgumentsOperatorMutation);
    r.push(MutationType::SwapLinesMutation);
    r.push(MutationType::UnaryOperatorMutation);
    r.push(MutationType::ElimDelegateMutation);
    r
}

} // verus!
