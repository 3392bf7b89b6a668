//! A thin wrapper around the parsed syntax tree of a source program: grammar
//! accessors, byte-span extraction, and source-text surgery primitives.

use vstd::prelude::*;
use vstd::string::StrSliceExecFns;
use crate::bytes::{copy_range, push_all, spec_splice, splice_bytes};
use crate::chars::{
    all_digit_chars, ascii_bytes, ascii_seq, char_dec_value, find_char, first_char,
    lemma_first_char_bounds, parse_usize_chars,
};
use crate::doc::{spec_get, DocV, DocValue};

verus! {

/// Type information attached to an expression node.
pub struct TypeDescriptions {
    pub element: Option<DocValue>,
}

/// Mathematical value of [`TypeDescriptions`].
pub struct TypeDescriptionsV {
    pub element: Option<DocV>,
}

impl View for TypeDescriptions {
    type V = TypeDescriptionsV;

    open spec fn view(&self) -> TypeDescriptionsV {
        TypeDescriptionsV {
            element: match self.element {
                Some(v) => Some(v@),
                None => None,
            },
        }
    }
}

impl TypeDescriptions {
    /// Wrap a type-description value; an explicit null collapses to absent.
    pub fn new(v: DocValue) -> (r: Self)
        ensures
            r@.element == (if v@ is Null {
                Option::<DocV>::None
            } else {
                Option::<DocV>::Some(v@)
            }),
    {
        if matches!(v, DocValue::Null) {
            Self { element: None }
        } else {
            Self { element: Some(v) }
        }
    }

    /// The `typeString` field, when it is a string.
    pub fn type_string(&self) -> (r: Option<String>)
        ensures
            match r {
                Some(s) => self@.element matches Some(dv) && spec_get(dv, "typeString"@)
                    matches DocV::Text(t) && s@ == t,
                None => !(self@.element matches Some(dv) && spec_get(dv, "typeString"@)
                    is Text),
            },
    {
        match &self.element {
            None => None,
            Some(v) => match v.get_field("typeString") {
                Some(DocValue::Text(t)) => Some(t.clone()),
                _ => None,
            },
        }
    }
}

/// One node of the parsed tree: the underlying document value (possibly
/// absent) and the name of the innermost enclosing contract declaration.
pub struct SolAST {
    pub element: Option<DocValue>,
    pub contract: Option<String>,
}

/// Mathematical value of a [`SolAST`] node.
pub struct AstV {
    pub element: Option<DocV>,
    pub contract: Option<Seq<char>>,
}

impl View for SolAST {
    type V = AstV;

    open spec fn view(&self) -> AstV {
        AstV {
            element: match self.element {
                Some(v) => Some(v@),
                None => None,
            },
            contract: match self.contract {
                Some(c) => Some(c@),
                None => None,
            },
        }
    }
}

impl DeepView for SolAST {
    type V = AstV;

    open spec fn deep_view(&self) -> AstV {
        self.view()
    }
}

/// The node a parsed value becomes: a null value collapses to the empty node.
pub open spec fn spec_new_ast(v: DocV, contract: Option<Seq<char>>) -> AstV {
    if v is Null {
        AstV { element: None, contract: None }
    } else {
        AstV { element: Some(v), contract }
    }
}

impl AstV {
    /// The node under field `key`, keeping the contract attribution.
    pub open spec fn node(self, key: Seq<char>) -> AstV {
        match self.element {
            None => AstV { element: None, contract: self.contract },
            Some(dv) => AstV { element: Some(spec_get(dv, key)), contract: self.contract },
        }
    }

    /// The string value under field `key`, when there is one.
    pub open spec fn string_field(self, key: Seq<char>) -> Option<Seq<char>> {
        match self.element {
            Some(dv) => match spec_get(dv, key) {
                DocV::Text(t) => Some(t),
                _ => None,
            },
            None => None,
        }
    }

    pub open spec fn src_str(self) -> Option<Seq<char>> {
        self.string_field("src"@)
    }

    pub open spec fn name_str(self) -> Option<Seq<char>> {
        self.string_field("name"@)
    }

    pub open spec fn node_type_str(self) -> Option<Seq<char>> {
        self.string_field("nodeType"@)
    }

    pub open spec fn operator_str(self) -> Option<Seq<char>> {
        self.string_field("operator"@)
    }

    /// The byte span encoded in the `src` field as `"start:length"`, parsed
    /// into the half-open range `[start, start + length)`.  Absent when the
    /// field is missing, malformed, or does not fit the machine.
    pub open spec fn spec_span(self) -> Option<(int, int)> {
        match self.src_str() {
            Some(s) => {
                let c1 = first_char(s, ':');
                if c1 >= s.len() {
                    None
                } else {
                    let p1 = s.take(c1);
                    let rest = s.skip(c1 + 1);
                    let p2 = rest.take(first_char(rest, ':'));
                    if all_digit_chars(p1) && all_digit_chars(p2) && char_dec_value(p1)
                        + char_dec_value(p2) <= usize::MAX {
                        Some(
                            (
                                char_dec_value(p1) as int,
                                char_dec_value(p1) as int + char_dec_value(p2) as int,
                            ),
                        )
                    } else {
                        None
                    }
                }
            }
            None => None,
        }
    }

    /// The nodes of the array under field `key`; empty when there is none.
    pub open spec fn elems_field(self, key: Seq<char>) -> Seq<AstV> {
        match self.element {
            Some(dv) => match spec_get(dv, key) {
                DocV::Array(es) => Seq::new(es.len(), |i: int| spec_new_ast(es[i], self.contract)),
                _ => Seq::empty(),
            },
            None => Seq::empty(),
        }
    }

    pub open spec fn arguments_v(self) -> Seq<AstV> {
        self.elems_field("arguments"@)
    }

    pub open spec fn statements_v(self) -> Seq<AstV> {
        self.elems_field("statements"@)
    }
}

/// Copy of an optional contract name.
pub(crate) fn dup_opt_string(o: &Option<String>) -> (r: Option<String>)
    ensures
        match (r, o) {
            (Some(a), Some(b)) => a@ == b@,
            (None, None) => true,
            _ => false,
        },
{
    match o {
        Some(s) => Some(s.clone()),
        None => None,
    }
}

impl SolAST {
    /// Create a new node; an explicit null value collapses to the empty node.
    pub fn new(v: DocValue, c: Option<String>) -> (r: Self)
        ensures
            r@ == spec_new_ast(v@, match c {
                Some(s) => Some(s@),
                None => None,
            }),
    {
        if matches!(v, DocValue::Null) {
            Self { element: None, contract: None }
        } else {
            Self { element: Some(v), contract: c }
        }
    }

    /// Structural copy, equal in value to `self`.
    pub fn duplicate(&self) -> (r: SolAST)
        ensures
            r@ == self@,
    {
        let element = match &self.element {
            Some(v) => Some(v.duplicate()),
            None => None,
        };
        SolAST { element, contract: dup_opt_string(&self.contract) }
    }

    /// The underlying document value.
    pub fn get_object(&self) -> (r: Option<DocValue>)
        ensures
            match (r, self@.element) {
                (Some(v), Some(dv)) => v@ == dv,
                (None, None) => true,
                _ => false,
            },
    {
        match &self.element {
            Some(v) => Some(v.duplicate()),
            None => None,
        }
    }

    /// The name of the innermost enclosing contract declaration.
    pub fn get_contract(&self) -> (r: Option<String>)
        ensures
            match (r, self@.contract) {
                (Some(c), Some(cv)) => c@ == cv,
                (None, None) => true,
                _ => false,
            },
    {
        dup_opt_string(&self.contract)
    }

    /// The node under field `fnm`, keeping the contract attribution.
    pub fn get_node(&self, fnm: &str) -> (node: SolAST)
        ensures
            node@ == self@.node(fnm@),
    {
        match &self.element {
            None => SolAST { element: None, contract: dup_opt_string(&self.contract) },
            Some(v) => {
                let dv = match v.get_field(fnm) {
                    Some(f) => f.duplicate(),
                    None => DocValue::Null,
                };
                SolAST { element: Some(dv), contract: dup_opt_string(&self.contract) }
            }
        }
    }

    /// The string under field `fnm`, when there is one.
    pub fn get_string(&self, fnm: &str) -> (r: Option<String>)
        ensures
            match (r, self@.string_field(fnm@)) {
                (Some(s), Some(t)) => s@ == t,
                (None, None) => true,
                _ => false,
            },
    {
        match &self.element {
            None => None,
            Some(v) => match v.get_field(fnm) {
                Some(DocValue::Text(t)) => Some(t.clone()),
                _ => None,
            },
        }
    }

    /// The `src` field.
    pub fn src(&self) -> (r: Option<String>)
        ensures
            match (r, self@.src_str()) {
                (Some(s), Some(t)) => s@ == t,
                (None, None) => true,
                _ => false,
            },
    {
        self.get_string("src")
    }

    /// The `name` field.
    pub fn name(&self) -> (r: Option<String>)
        ensures
            match (r, self@.name_str()) {
                (Some(s), Some(t)) => s@ == t,
                (None, None) => true,
                _ => false,
            },
    {
        self.get_string("name")
    }

    /// The `nodeType` field.
    pub fn node_type(&self) -> (r: Option<String>)
        ensures
            match (r, self@.node_type_str()) {
                (Some(s), Some(t)) => s@ == t,
                (None, None) => true,
                _ => false,
            },
    {
        self.get_string("nodeType")
    }

    /// The `operator` field.
    pub fn operator(&self) -> (r: Option<String>)
        ensures
            match (r, self@.operator_str()) {
                (Some(s), Some(t)) => s@ == t,
                (None, None) => true,
                _ => false,
            },
    {
        self.get_string("operator")
    }

    /// The `expression` field.
    pub fn expression(&self) -> (r: SolAST)
        ensures
            r@ == self@.node("expression"@),
    {
        self.get_node("expression")
    }

    /// The `leftExpression` field.
    pub fn left_expression(&self) -> (r: SolAST)
        ensures
            r@ == self@.node("leftExpression"@),
    {
        self.get_node("leftExpression")
    }

    /// The `rightExpression` field.
    pub fn right_expression(&self) -> (r: SolAST)
        ensures
            r@ == self@.node("rightExpression"@),
    {
        self.get_node("rightExpression")
    }

    /// The `leftHandSide` field.
    pub fn left_hand_side(&self) -> (r: SolAST)
        ensures
            r@ == self@.node("leftHandSide"@),
    {
        self.get_node("leftHandSide")
    }

    /// The `rightHandSide` field.
    pub fn right_hand_side(&self) -> (r: SolAST)
        ensures
            r@ == self@.node("rightHandSide"@),
    {
        self.get_node("rightHandSide")
    }

    /// The `condition` field.
    pub fn condition(&self) -> (r: SolAST)
        ensures
            r@ == self@.node("condition"@),
    {
        self.get_node("condition")
    }

    /// The `trueBody` field.
    pub fn true_body(&self) -> (r: SolAST)
        ensures
            r@ == self@.node("trueBody"@),
    {
        self.get_node("trueBody")
    }

    /// The `falseBody` field.
    pub fn false_body(&self) -> (r: SolAST)
        ensures
            r@ == self@.node("falseBody"@),
    {
        self.get_node("falseBody")
    }

    /// The `typeDescriptions` field.
    pub fn get_type_descs(&self) -> (r: Option<TypeDescriptions>)
        ensures
            match (r, self@.element) {
                (Some(t), Some(dv)) => t@.element == (if spec_get(dv, "typeDescriptions"@)
                    is Null {
                    Option::<DocV>::None
                } else {
                    Option::<DocV>::Some(spec_get(dv, "typeDescriptions"@))
                }),
                (None, None) => true,
                _ => false,
            },
    {
        match &self.element {
            None => None,
            Some(v) => {
                let dv = match v.get_field("typeDescriptions") {
                    Some(f) => f.duplicate(),
                    None => DocValue::Null,
                };
                Some(TypeDescriptions::new(dv))
            }
        }
    }

    /// The argument nodes of a call; empty when there are none.
    pub fn arguments(&self) -> (r: Vec<SolAST>)
        ensures
            r.deep_view() == self@.arguments_v(),
    {
        self.elems("arguments")
    }

    /// The statement nodes of a block; empty when there are none.
    pub fn statements(&self) -> (r: Vec<SolAST>)
        ensures
            r.deep_view() == self@.statements_v(),
    {
        self.elems("statements")
    }

    /// The nodes of the array under field `key`; empty when there is none.
    fn elems(&self, key: &str) -> (r: Vec<SolAST>)
        ensures
            r.deep_view() == self@.elems_field(key@),
    {
        let mut out: Vec<SolAST> = Vec::new();
        match &self.element {
            None => {
                assert(out.deep_view() =~= self@.elems_field(key@));
            }
            Some(v) => {
                match v.get_field(key) {
                    Some(DocValue::Array(es)) => {
                        let ghost esv = spec_get(self@.element->0, key@)->Array_0;
                        proof {
                            crate::doc::lemma_view_elems_len(es@);
                        }
                        let mut i: usize = 0;
                        while i < es.len()
                            invariant
                                0 <= i <= es@.len(),
                                esv == crate::doc::view_elems(es@),
                                esv.len() == es@.len(),
                                out.deep_view() =~= Seq::new(
                                    i as nat,
                                    |k: int| spec_new_ast(esv[k], self@.contract),
                                ),
                            decreases es@.len() - i,
                        {
                            let ghost prev = out.deep_view();
                            let dv = es[i].duplicate();
                            let node = SolAST::new(dv, dup_opt_string(&self.contract));
                            out.push(node);
                            proof {
                                crate::doc::lemma_view_elems_index(es@, i as int);
                                assert(out.deep_view() =~~= prev.push(node@));
                                assert(out.deep_view() =~~= Seq::new(
                                    (i + 1) as nat,
                                    |k: int| spec_new_ast(esv[k], self@.contract),
                                ));
                            }
                            i += 1;
                        }
                        proof {
                            assert(out.deep_view() =~~= self@.elems_field(key@));
                        }
                    }
                    _ => {
                        assert(out.deep_view() =~= self@.elems_field(key@));
                    }
                }
            }
        }
        out
    }

    /// The byte span of this node, when its `src` field is well-formed.
    pub fn try_bounds(&self) -> (r: Option<(usize, usize)>)
        ensures
            match r {
                Some(b) => self@.spec_span() == Some((b.0 as int, b.1 as int)) && b.0 <= b.1,
                None => self@.spec_span() is None,
            },
    {
        broadcast use lemma_first_char_bounds;

        let s_opt = self.src();
        match s_opt {
            None => None,
            Some(s) => {
                let ghost sv = s@;
                let st = s.as_str();
                let n = st.unicode_len();
                let c1 = find_char(st, ':');
                if c1 >= n {
                    return None;
                }
                let p1 = parse_usize_chars(st, 0, c1);
                let rest = st.substring_char(c1 + 1, n);
                let c2 = find_char(rest, ':');
                let p2 = parse_usize_chars(rest, 0, c2);
                proof {
                    assert(st@.subrange(0, c1 as int) =~= sv.take(c1 as int));
                    assert(rest@ =~= sv.skip(c1 + 1));
                    assert(rest@.subrange(0, c2 as int) =~= sv.skip(c1 + 1).take(
                        first_char(sv.skip(c1 + 1), ':'),
                    ));
                }
                match (p1, p2) {
                    (Some(a), Some(b)) => {
                        if a <= usize::MAX - b {
                            Some((a, a + b))
                        } else {
                            None
                        }
                    }
                    _ => None,
                }
            }
        }
    }

    /// The byte span of this node; the `src` field must be well-formed.
    pub fn get_bounds(&self) -> (r: (usize, usize))
        requires
            self@.spec_span() is Some,
        ensures
            Some((r.0 as int, r.1 as int)) == self@.spec_span(),
            r.0 <= r.1,
    {
        match self.try_bounds() {
            Some(b) => b,
            None => vstd::pervasive::unreached(),
        }
    }

    /// The text of this node inside `source`.
    pub fn get_text(&self, source: &[u8]) -> (r: Vec<u8>)
        requires
            self@.spec_span() matches Some(sp) && sp.1 <= source@.len(),
        ensures
            self@.spec_span() matches Some(sp) && r@ == source@.subrange(sp.0, sp.1),
    {
        let (start, end) = self.get_bounds();
        copy_range(source, start, end)
    }

    /// Splice `new` over this node's span inside `source`.
    pub fn replace_in_source(&self, source: &[u8], new: &[u8]) -> (r: Vec<u8>)
        requires
            self@.spec_span() matches Some(sp) && sp.1 <= source@.len(),
        ensures
            self@.spec_span() matches Some(sp) && r@ == spec_splice(
                source@,
                sp.0,
                sp.1,
                new@,
            ),
    {
        let (start, end) = self.get_bounds();
        self.replace_part(source, new, start, end)
    }

    /// Splice `new` over the byte range `[start, end)` of `source`.
    pub fn replace_part(&self, source: &[u8], new: &[u8], start: usize, end: usize) -> (r: Vec<
        u8,
    >)
        requires
            start <= end <= source@.len(),
        ensures
            r@ == spec_splice(source@, start as int, end as int, new@),
    {
        splice_bytes(source, start, end, new)
    }

    /// Wrap this node's span in block-comment delimiters.  The span is
    /// extended by one byte when the byte just after it is itself `*`, so the
    /// inserted comment is not terminated early.
    pub fn comment_out(&self, source: &[u8]) -> (r: Vec<u8>)
        requires
            self@.spec_span() matches Some(sp) && sp.1 <= source@.len(),
        ensures
            self@.spec_span() matches Some(sp) && r@ == spec_comment_out(source@, sp.0, sp.1),
    {
        proof {
            reveal_strlit("/*");
            reveal_strlit("*/");
        }
        let (start, end0) = self.get_bounds();
        let end = if end0 < source.len() && source[end0] == 42 {
            end0 + 1
        } else {
            end0
        };
        assert("/*".is_ascii());
        assert("*/".is_ascii());
        let mut new = ascii_bytes("/*");
        let span = copy_range(source, start, end);
        push_all(&mut new, span.as_slice());
        push_all(&mut new, ascii_bytes("*/").as_slice());
        let r = splice_bytes(source, start, end, new.as_slice());
        proof {
            let sp = self@.spec_span()->0;
            assert(r@ =~= spec_comment_out(source@, sp.0, sp.1));
        }
        r
    }
}

/// `s` with `[start, end)` wrapped in `/*` and `*/`; the range is extended by
/// one byte when the byte at `end` is `*`.
pub open spec fn spec_comment_out(s: Seq<u8>, start: int, end: int) -> Seq<u8> {
    let e2 = if end < s.len() && s[end] == 42 {
        end + 1
    } else {
        end
    };
    spec_splice(s, start, e2, ascii_seq("/*"@) + s.subrange(start, e2) + ascii_seq("*/"@))
}

} // verus!

verus! {

/// A pending replacement as a mathematical value: start, end, new text.
pub type RepV = (int, int, Seq<u8>);

/// A replacement span lies inside a buffer of `len` bytes.
pub open spec fn rep_wf(r: RepV, len: int) -> bool {
    0 <= r.0 <= r.1 <= len
}

/// Spans at distinct list positions neither overlap nor share a start.
pub open spec fn reps_disjoint(rs: Seq<RepV>) -> bool {
    forall|i: int, j: int|
        0 <= i < rs.len() && 0 <= j < rs.len() && i != j ==> ((#[trigger] rs[i]).1 <= (
        #[trigger] rs[j]).0 || rs[j].1 <= rs[i].0) && rs[i].0 != rs[j].0
}

/// Start offsets are in ascending order.
pub open spec fn reps_sorted(rs: Seq<RepV>) -> bool {
    forall|i: int, j: int| 0 <= i < j < rs.len() ==> (#[trigger] rs[i]).0 <= (#[trigger] rs[j]).0
}

/// Insert `x` into `rs` before the first entry whose start exceeds it.
pub open spec fn spec_insert_rep(x: RepV, rs: Seq<RepV>) -> Seq<RepV>
    decreases rs.len(),
{
    if rs.len() == 0 {
        seq![x]
    } else if x.0 < rs[0].0 {
        seq![x] + rs
    } else {
        seq![rs[0]] + spec_insert_rep(x, rs.drop_first())
    }
}

/// Sort replacements by ascending start offset.
pub open spec fn spec_sort_reps(rs: Seq<RepV>) -> Seq<RepV>
    decreases rs.len(),
{
    if rs.len() == 0 {
        Seq::empty()
    } else {
        spec_insert_rep(rs.last(), spec_sort_reps(rs.drop_last()))
    }
}

/// Apply sorted replacements left to right: keep the text between `cursor`
/// and each span's start, then the replacement text, then continue after the
/// span's end.
pub open spec fn spec_multi_splice_from(s: Seq<u8>, rs: Seq<RepV>, cursor: int) -> Seq<u8>
    decreases rs.len(),
{
    if rs.len() == 0 {
        s.skip(cursor)
    } else {
        s.subrange(cursor, rs[0].0) + rs[0].2 + spec_multi_splice_from(s, rs.drop_first(), rs[0].1)
    }
}

/// `s` with every replacement applied, in ascending span order.
pub open spec fn spec_multi_splice(s: Seq<u8>, rs: Seq<RepV>) -> Seq<u8> {
    spec_multi_splice_from(s, spec_sort_reps(rs), 0)
}

/// The spans and texts of a list of (node, text) replacement pairs.
pub open spec fn pair_views(reps: Seq<(SolAST, Vec<u8>)>) -> Seq<RepV> {
    Seq::new(
        reps.len(),
        |i: int|
            {
                let sp = reps[i].0@.spec_span()->0;
                (sp.0, sp.1, reps[i].1@)
            },
    )
}

/// `spec_insert_rep` puts `x` exactly at position `pos`.
proof fn lemma_insert_rep_pos(x: RepV, rs: Seq<RepV>, pos: int)
    requires
        0 <= pos <= rs.len(),
        forall|k: int| 0 <= k < pos ==> (#[trigger] rs[k]).0 <= x.0,
        pos < rs.len() ==> x.0 < rs[pos].0,
    ensures
        spec_insert_rep(x, rs) =~= rs.take(pos) + seq![x] + rs.skip(pos),
    decreases pos,
{
    if rs.len() == 0 {
        assert(spec_insert_rep(x, rs) =~= rs.take(0) + seq![x] + rs.skip(0));
    } else if x.0 < rs[0].0 {
        assert(pos == 0);
    } else {
        assert(pos >= 1);
        lemma_insert_rep_pos(x, rs.drop_first(), pos - 1);
        assert(rs.drop_first().take(pos - 1) =~= rs.take(pos).drop_first());
        assert(rs.drop_first().skip(pos - 1) =~= rs.skip(pos));
        assert(seq![rs[0]] + (rs.take(pos).drop_first() + seq![x] + rs.skip(pos)) =~= rs.take(
            pos,
        ) + seq![x] + rs.skip(pos));
    }
}

/// Sorting keeps the length, keeps every element (as a member of the input),
/// and yields an ascending, still pairwise-disjoint list.
proof fn lemma_sort_reps_props(rs: Seq<RepV>)
    requires
        reps_disjoint(rs),
    ensures
        spec_sort_reps(rs).len() == rs.len(),
        reps_sorted(spec_sort_reps(rs)),
        reps_disjoint(spec_sort_reps(rs)),
        forall|p: int|
            0 <= p < rs.len() ==> exists|k: int|
                0 <= k < rs.len() && #[trigger] spec_sort_reps(rs)[p] == rs[k],
    decreases rs.len(),
{
    if rs.len() > 0 {
        let front = rs.drop_last();
        let x = rs.last();
        assert(reps_disjoint(front)) by {
            assert forall|i: int, j: int|
                0 <= i < front.len() && 0 <= j < front.len() && i != j implies ((
            #[trigger] front[i]).1 <= (#[trigger] front[j]).0 || front[j].1 <= front[i].0)
                && front[i].0 != front[j].0 by {
                assert(front[i] == rs[i] && front[j] == rs[j]);
            }
        }
        lemma_sort_reps_props(front);
        let sf = spec_sort_reps(front);
        // Find the insertion point of x in sf.
        let pos = lemma_first_above(sf, x.0);
        lemma_insert_rep_pos(x, sf, pos);
        let out = spec_sort_reps(rs);
        assert(out =~= sf.take(pos) + seq![x] + sf.skip(pos));
        // Every element of out is x or an element of sf, hence of rs.
        assert forall|p: int| 0 <= p < rs.len() implies exists|k: int|
            0 <= k < rs.len() && #[trigger] out[p] == rs[k] by {
            if p < pos {
                let k0 = choose|k0: int| 0 <= k0 < front.len() && sf[p] == front[k0];
                assert(out[p] == sf[p]);
                assert(front[k0] == rs[k0]);
            } else if p == pos {
                assert(out[p] == x);
                assert(x == rs[rs.len() - 1]);
            } else {
                let k0 = choose|k0: int| 0 <= k0 < front.len() && sf[p - 1] == front[k0];
                assert(out[p] == sf[p - 1]);
                assert(front[k0] == rs[k0]);
            }
        }
        // x is disjoint from every element of sf.
        assert forall|p: int| 0 <= p < sf.len() implies ((#[trigger] sf[p]).1 <= x.0 || x.1
            <= sf[p].0) && sf[p].0 != x.0 by {
            let k0 = choose|k0: int| 0 <= k0 < front.len() && sf[p] == front[k0];
            assert(rs[k0] == front[k0]);
            assert(rs[k0].1 <= rs[rs.len() - 1].0 || rs[rs.len() - 1].1 <= rs[k0].0);
            assert(rs[k0].0 != rs[rs.len() - 1].0);
        }
        assert(reps_sorted(out)) by {
            assert forall|i: int, j: int| 0 <= i < j < out.len() implies (#[trigger] out[i]).0
                <= (#[trigger] out[j]).0 by {
                if i < pos && j < pos {
                    assert(out[i] == sf[i] && out[j] == sf[j]);
                } else if i < pos && j == pos {
                    assert(out[i] == sf[i]);
                } else if i < pos && j > pos {
                    assert(out[i] == sf[i] && out[j] == sf[j - 1]);
                } else if i == pos && j > pos {
                    assert(out[j] == sf[j - 1]);
                    assert(x.0 < sf[pos].0 || pos >= sf.len());
                    assert(sf[pos].0 <= sf[j - 1].0 || pos == j - 1);
                } else {
                    assert(out[i] == sf[i - 1] && out[j] == sf[j - 1]);
                }
            }
        }
        assert(reps_disjoint(out)) by {
            assert forall|i: int, j: int|
                0 <= i < out.len() && 0 <= j < out.len() && i != j implies ((
            #[trigger] out[i]).1 <= (#[trigger] out[j]).0 || out[j].1 <= out[i].0) && out[i].0
                != out[j].0 by {
                let oi = if i < pos {
                    sf[i]
                } else if i == pos {
                    x
                } else {
                    sf[i - 1]
                };
                let oj = if j < pos {
                    sf[j]
                } else if j == pos {
                    x
                } else {
                    sf[j - 1]
                };
                assert(out[i] == oi && out[j] == oj);
            }
        }
    }
}

/// The first position whose start exceeds `v` in a sorted list.
proof fn lemma_first_above(sf: Seq<RepV>, v: int) -> (pos: int)
    requires
        reps_sorted(sf),
    ensures
        0 <= pos <= sf.len(),
        forall|k: int| 0 <= k < pos ==> (#[trigger] sf[k]).0 <= v,
        pos < sf.len() ==> v < sf[pos].0,
    decreases sf.len(),
{
    if sf.len() == 0 {
        0
    } else if v < sf[0].0 {
        0
    } else {
        let tail = sf.drop_first();
        assert(reps_sorted(tail)) by {
            assert forall|i: int, j: int| 0 <= i < j < tail.len() implies (#[trigger] tail[i]).0
                <= (#[trigger] tail[j]).0 by {
                assert(tail[i] == sf[i + 1] && tail[j] == sf[j + 1]);
            }
        }
        let p0 = lemma_first_above(tail, v);
        assert forall|k: int| 0 <= k < p0 + 1 implies (#[trigger] sf[k]).0 <= v by {
            if k > 0 {
                assert(tail[k - 1] == sf[k]);
            }
        }
        assert(p0 + 1 < sf.len() ==> v < sf[p0 + 1].0) by {
            if p0 + 1 < sf.len() {
                assert(sf[p0 + 1] == tail[p0]);
            }
        }
        p0 + 1
    }
}

} // verus!

verus! {

/// Views of an executable replacement list.
pub open spec fn triple_views(rs: Seq<(usize, usize, Vec<u8>)>) -> Seq<RepV> {
    Seq::new(rs.len(), |i: int| (rs[i].0 as int, rs[i].1 as int, rs[i].2@))
}

/// A prefix of a pairwise-disjoint list is pairwise disjoint.
proof fn lemma_disjoint_take(rs: Seq<RepV>, n: int)
    requires
        reps_disjoint(rs),
        0 <= n <= rs.len(),
    ensures
        reps_disjoint(rs.take(n)),
{
    assert forall|i: int, j: int|
        0 <= i < rs.take(n).len() && 0 <= j < rs.take(n).len() && i != j implies ((
    #[trigger] rs.take(n)[i]).1 <= (#[trigger] rs.take(n)[j]).0 || rs.take(n)[j].1 <= rs.take(
        n,
    )[i].0) && rs.take(n)[i].0 != rs.take(n)[j].0 by {
        assert(rs.take(n)[i] == rs[i] && rs.take(n)[j] == rs[j]);
    }
}

impl SolAST {
    /// Apply several replacements at once: the spans are sorted by start
    /// offset and spliced in ascending order, each landing at its original
    /// position shifted by the length deltas of the edits before it.
    pub fn replace_multiple(&self, source: &[u8], reps: Vec<(SolAST, Vec<u8>)>) -> (r: Vec<u8>)
        requires
            forall|i: int|
                0 <= i < reps@.len() ==> (#[trigger] reps@[i]).0@.spec_span() is Some,
            forall|i: int|
                0 <= i < reps@.len() ==> rep_wf(
                    #[trigger] pair_views(reps@)[i],
                    source@.len() as int,
                ),
            reps_disjoint(pair_views(reps@)),
        ensures
            r@ == spec_multi_splice(source@, pair_views(reps@)),
    {
        let ghost views = pair_views(reps@);
        // Extract each span and replacement text.
        let mut rv: Vec<(usize, usize, Vec<u8>)> = Vec::new();
        let mut i: usize = 0;
        while i < reps.len()
            invariant
                0 <= i <= reps@.len(),
                views == pair_views(reps@),
                forall|k: int|
                    0 <= k < reps@.len() ==> (#[trigger] reps@[k]).0@.spec_span() is Some,
                rv@.len() == i,
                triple_views(rv@) =~= views.take(i as int),
            decreases reps@.len() - i,
        {
            let b = match reps[i].0.try_bounds() {
                Some(b) => b,
                None => vstd::pervasive::unreached(),
            };
            let text = crate::bytes::dup_bytes(&reps[i].1);
            let ghost prev = rv@;
            rv.push((b.0, b.1, text));
            proof {
                assert(triple_views(rv@) =~= triple_views(prev).push(
                    (b.0 as int, b.1 as int, reps@[i as int].1@),
                ));
                assert(triple_views(rv@) =~= views.take(i + 1));
            }
            i += 1;
        }
        proof {
            assert(views.take(reps@.len() as int) =~= views);
        }
        // Sort by ascending start offset.
        let mut sorted: Vec<(usize, usize, Vec<u8>)> = Vec::new();
        let mut i: usize = 0;
        while i < rv.len()
            invariant
                0 <= i <= rv@.len(),
                views == pair_views(reps@),
                reps_disjoint(views),
                triple_views(rv@) == views,
                rv@.len() == views.len(),
                sorted@.len() == i,
                triple_views(sorted@) =~= spec_sort_reps(views.take(i as int)),
            decreases rv@.len() - i,
        {
            let x: (usize, usize, Vec<u8>) = (rv[i].0, rv[i].1, crate::bytes::dup_bytes(&rv[i].2));
            let ghost xv = (x.0 as int, x.1 as int, x.2@);
            let ghost sv = triple_views(sorted@);
            proof {
                lemma_disjoint_take(views, i as int);
                lemma_sort_reps_props(views.take(i as int));
            }
            let mut pos: usize = 0;
            while pos < sorted.len() && sorted[pos].0 <= x.0
                invariant
                    0 <= pos <= sorted@.len(),
                    sv == triple_views(sorted@),
                    xv == (x.0 as int, x.1 as int, x.2@),
                    forall|k: int| 0 <= k < pos ==> (#[trigger] sv[k]).0 <= xv.0,
                decreases sorted@.len() - pos,
            {
                proof {
                    assert(sv[pos as int].0 == sorted@[pos as int].0 as int);
                }
                pos += 1;
            }
            proof {
                if pos < sorted@.len() {
                    assert(sv[pos as int].0 == sorted@[pos as int].0 as int);
                }
            }
            let ghost prev = sorted@;
            sorted.insert(pos, x);
            proof {
                lemma_insert_rep_pos(xv, sv, pos as int);
                assert(triple_views(sorted@) =~= sv.take(pos as int) + seq![xv] + sv.skip(
                    pos as int,
                )) by {
                    assert(sorted@ =~= prev.take(pos as int) + seq![x] + prev.skip(pos as int));
                    assert forall|k: int| 0 <= k < sorted@.len() implies triple_views(sorted@)[k]
                        == (sv.take(pos as int) + seq![xv] + sv.skip(pos as int))[k] by {
                        if k < pos {
                            assert(sorted@[k] == prev[k]);
                        } else if k > pos {
                            assert(sorted@[k] == prev[k - 1]);
                        }
                    }
                }
                assert(views.take(i + 1).drop_last() =~= views.take(i as int));
                assert(views.take(i + 1).last() == views[i as int]);
                assert(xv == views[i as int]);
                assert(triple_views(sorted@) =~= spec_sort_reps(views.take(i + 1)));
            }
            i += 1;
        }
        proof {
            assert(views.take(views.len() as int) =~= views);
        }
        let ghost sortedv = spec_sort_reps(views);
        proof {
            lemma_sort_reps_props(views);
            // Every sorted entry is one of the original spans, so it fits the
            // buffer; sortedness and disjointness chain the spans in order.
            assert forall|p: int| 0 <= p < sortedv.len() implies rep_wf(
                #[trigger] sortedv[p],
                source@.len() as int,
            ) by {
                let k = choose|k: int| 0 <= k < views.len() && sortedv[p] == views[k];
            }
            assert forall|p: int| 0 <= p < sortedv.len() - 1 implies (#[trigger] sortedv[p]).1
                <= sortedv[p + 1].0 by {
                assert(sortedv[p].0 <= sortedv[p + 1].0);
                if !(sortedv[p].1 <= sortedv[p + 1].0) {
                    assert(sortedv[p + 1].1 <= sortedv[p].0);
                    assert(sortedv[p].0 == sortedv[p + 1].0);
                    assert(false);
                }
            }
        }
        // Splice in ascending order, carrying a cursor through the source.
        let mut out: Vec<u8> = Vec::new();
        let mut cursor: usize = 0;
        let mut i: usize = 0;
        proof {
            assert(sortedv.skip(0) =~= sortedv);
            assert(out@ + spec_multi_splice_from(source@, sortedv, 0) =~= spec_multi_splice_from(
                source@,
                sortedv,
                0,
            ));
        }
        while i < sorted.len()
            invariant
                0 <= i <= sorted@.len(),
                sortedv == triple_views(sorted@),
                sortedv.len() == sorted@.len(),
                forall|p: int|
                    0 <= p < sortedv.len() ==> rep_wf(#[trigger] sortedv[p], source@.len() as int),
                forall|p: int|
                    0 <= p < sortedv.len() - 1 ==> (#[trigger] sortedv[p]).1 <= sortedv[p + 1].0,
                cursor <= source@.len(),
                if i == 0 {
                    cursor == 0
                } else {
                    cursor == sortedv[i - 1].1
                },
                out@ + spec_multi_splice_from(source@, sortedv.skip(i as int), cursor as int)
                    == spec_multi_splice_from(source@, sortedv, 0),
            decreases sorted@.len() - i,
        {
            let s0 = sorted[i].0;
            let e0 = sorted[i].1;
            proof {
                assert(sortedv[i as int] == (
                    sorted@[i as int].0 as int,
                    sorted@[i as int].1 as int,
                    sorted@[i as int].2@,
                ));
                if i > 0 {
                    assert(sortedv[i - 1].1 <= sortedv[i as int].0);
                }
            }
            let ghost prev_out = out@;
            let ghost prev_cursor = cursor as int;
            let gap = copy_range(source, cursor, s0);
            push_all(&mut out, gap.as_slice());
            push_all(&mut out, sorted[i].2.as_slice());
            cursor = e0;
            proof {
                let rest = sortedv.skip(i as int);
                assert(rest[0] == sortedv[i as int]);
                assert(rest.drop_first() =~= sortedv.skip(i + 1));
                assert(spec_multi_splice_from(source@, rest, prev_cursor) == source@.subrange(
                    prev_cursor,
                    s0 as int,
                ) + sorted@[i as int].2@ + spec_multi_splice_from(
                    source@,
                    sortedv.skip(i + 1),
                    e0 as int,
                ));
                assert(out@ =~= prev_out + source@.subrange(prev_cursor, s0 as int)
                    + sorted@[i as int].2@);
                assert(out@ + spec_multi_splice_from(source@, sortedv.skip(i + 1), e0 as int)
                    =~= prev_out + spec_multi_splice_from(source@, rest, prev_cursor));
            }
            i += 1;
        }
        let tail = copy_range(source, cursor, source.len());
        push_all(&mut out, tail.as_slice());
        proof {
            assert(sortedv.skip(sortedv.len() as int).len() == 0);
            assert(spec_multi_splice_from(
                source@,
                sortedv.skip(sortedv.len() as int),
                cursor as int,
            ) == source@.skip(cursor as int));
            assert(source@.subrange(cursor as int, source@.len() as int) =~= source@.skip(
                cursor as int,
            ));
            assert(out@ =~= spec_multi_splice(source@, views));
        }
        out
    }
}

} // verus!

verus! {

/// The cumulative length delta of the first `i` replacements: text length
/// gained minus span length removed.
pub open spec fn spec_offset_delta(rs: Seq<RepV>, i: int) -> int
    decreases i,
{
    if i <= 0 {
        0
    } else {
        spec_offset_delta(rs, i - 1) + rs[i - 1].2.len() - (rs[i - 1].1 - rs[i - 1].0)
    }
}

/// Spans follow one another: each ends at or before the next begins.
pub open spec fn reps_chained(rs: Seq<RepV>) -> bool {
    forall|p: int| 0 <= p < rs.len() - 1 ==> (#[trigger] rs[p]).1 <= rs[p + 1].0
}

proof fn lemma_offset_delta_shift(rs: Seq<RepV>, i: int)
    requires
        1 <= i <= rs.len(),
    ensures
        spec_offset_delta(rs, i) == rs[0].2.len() - (rs[0].1 - rs[0].0) + spec_offset_delta(
            rs.drop_first(),
            i - 1,
        ),
    decreases i,
{
    let tail = rs.drop_first();
    if i == 1 {
        assert(spec_offset_delta(rs, 1) == spec_offset_delta(rs, 0) + rs[0].2.len() - (rs[0].1
            - rs[0].0));
        assert(spec_offset_delta(rs, 0) == 0);
        assert(spec_offset_delta(tail, 0) == 0);
    } else {
        lemma_offset_delta_shift(rs, i - 1);
        assert(tail[i - 2] == rs[i - 1]);
        assert(spec_offset_delta(rs, i) == spec_offset_delta(rs, i - 1) + rs[i - 1].2.len() - (
        rs[i - 1].1 - rs[i - 1].0));
        assert(spec_offset_delta(tail, i - 1) == spec_offset_delta(tail, i - 2) + tail[i
            - 2].2.len() - (tail[i - 2].1 - tail[i - 2].0));
    }
}

proof fn lemma_splice_from_len(s: Seq<u8>, rs: Seq<RepV>, cursor: int)
    requires
        forall|p: int| 0 <= p < rs.len() ==> rep_wf(#[trigger] rs[p], s.len() as int),
        reps_chained(rs),
        0 <= cursor <= s.len(),
        rs.len() > 0 ==> cursor <= rs[0].0,
    ensures
        spec_multi_splice_from(s, rs, cursor).len() == s.len() - cursor + spec_offset_delta(
            rs,
            rs.len() as int,
        ),
    decreases rs.len(),
{
    if rs.len() > 0 {
        let tail = rs.drop_first();
        assert(reps_chained(tail)) by {
            assert forall|p: int| 0 <= p < tail.len() - 1 implies (#[trigger] tail[p]).1 <= tail[p
                + 1].0 by {
                assert(tail[p] == rs[p + 1] && tail[p + 1] == rs[p + 2]);
            }
        }
        assert(tail.len() > 0 ==> rs[0].1 <= tail[0].0) by {
            if tail.len() > 0 {
                assert(tail[0] == rs[1]);
            }
        }
        lemma_splice_from_len(s, tail, rs[0].1);
        lemma_offset_delta_shift(rs, rs.len() as int);
        assert(spec_offset_delta(tail, tail.len() as int) == spec_offset_delta(
            rs,
            rs.len() as int,
        ) - (rs[0].2.len() - (rs[0].1 - rs[0].0)));
    }
}

/// Multi-replace correctness: after applying an ascending, chained list of
/// replacements, the `i`-th replacement text occupies exactly the byte range
/// that starts at its original start offset shifted by the cumulative length
/// delta of the replacements before it — whatever the number and the length
/// deltas of the other edits.
pub proof fn lemma_multi_splice_positions(s: Seq<u8>, rs: Seq<RepV>, cursor: int, i: int)
    requires
        0 <= i < rs.len(),
        forall|p: int| 0 <= p < rs.len() ==> rep_wf(#[trigger] rs[p], s.len() as int),
        reps_chained(rs),
        0 <= cursor <= rs[0].0,
    ensures
        ({
            let pos = rs[i].0 - cursor + spec_offset_delta(rs, i);
            &&& 0 <= pos
            &&& pos + rs[i].2.len() <= spec_multi_splice_from(s, rs, cursor).len()
            &&& spec_multi_splice_from(s, rs, cursor).subrange(pos, pos + rs[i].2.len())
                =~= rs[i].2
        }),
    decreases i,
{
    let out = spec_multi_splice_from(s, rs, cursor);
    let tail = rs.drop_first();
    let inner = spec_multi_splice_from(s, tail, rs[0].1);
    assert(out == s.subrange(cursor, rs[0].0) + rs[0].2 + inner);
    assert(reps_chained(tail)) by {
        assert forall|p: int| 0 <= p < tail.len() - 1 implies (#[trigger] tail[p]).1 <= tail[p
            + 1].0 by {
            assert(tail[p] == rs[p + 1] && tail[p + 1] == rs[p + 2]);
        }
    }
    assert(tail.len() > 0 ==> rs[0].1 <= tail[0].0) by {
        if tail.len() > 0 {
            assert(tail[0] == rs[1]);
        }
    }
    lemma_splice_from_len(s, tail, rs[0].1);
    if i == 0 {
        let pos = rs[0].0 - cursor;
        assert(out.subrange(pos, pos + rs[0].2.len()) =~= rs[0].2);
    } else {
        assert(tail[i - 1] == rs[i]);
        lemma_multi_splice_positions(s, tail, rs[0].1, i - 1);
        lemma_offset_delta_shift(rs, i);
        let ipos = rs[i].0 - rs[0].1 + spec_offset_delta(tail, i - 1);
        let head_len = (rs[0].0 - cursor) + rs[0].2.len();
        let pos = rs[i].0 - cursor + spec_offset_delta(rs, i);
        assert(pos == head_len + ipos);
        assert(out.subrange(pos, pos + rs[i].2.len()) =~= inner.subrange(
            ipos,
            ipos + rs[i].2.len(),
        ));
    }
}

} // verus!
