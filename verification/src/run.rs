//! The generation driver: one traversal discovers mutation points under the
//! configured scope, a schedule spreads the quota across the discovered
//! kinds, and a bounded, deduplicating loop generates candidates for an
//! external validity check.

use vstd::prelude::*;
use crate::ast::{spec_new_ast, AstV, SolAST};
use crate::chars::str_eq;
use crate::doc::{
    spec_get, spec_haskey, spec_lookup, view_elems, view_fields, DocV, DocValue,
    lemma_view_elems_index, lemma_view_elems_len, lemma_view_fields_index, lemma_view_fields_len,
};
use crate::mutation::{spec_is_mutation_point, Mutation, MutationType};
use crate::rng::rng_below;

verus! {

/// The scope of one run: the allowed kinds, an optional function-name
/// allow-list, and an optional single-contract restriction.
pub struct ScopeSpec {
    pub kinds: Seq<MutationType>,
    pub funcs: Option<Seq<Seq<char>>>,
    pub contract: Option<Seq<char>>,
}

pub open spec fn opt_str_view(o: Option<String>) -> Option<Seq<char>> {
    match o {
        Some(s) => Some(s@),
        None => None,
    }
}

pub open spec fn opt_strs_view(o: Option<Vec<String>>) -> Option<Seq<Seq<char>>> {
    match o {
        Some(v) => Some(v.deep_view()),
        None => None,
    }
}

/// Whether a node satisfies the scope's accept predicate: inside the named
/// contract, a function named in the allow-list, or both.
pub open spec fn spec_accept(cfg: ScopeSpec, a: AstV) -> bool {
    match (cfg.contract, cfg.funcs) {
        (None, None) => true,
        (Some(c), None) => a.contract == Some(c),
        (None, Some(fs)) => a.node_type_str() == Some("FunctionDefinition"@) && (a.name_str()
            matches Some(n) && fs.contains(n)),
        (Some(c), Some(fs)) => a.contract == Some(c) && a.node_type_str() == Some(
            "FunctionDefinition"@,
        ) && (a.name_str() matches Some(n) && fs.contains(n)),
    }
}

/// Whether a node is an assertion-check call, whose whole subtree is pruned.
pub open spec fn spec_skip(a: AstV) -> bool {
    a.name_str() == Some("assert"@)
}

/// The mutation points a single node contributes: one pair per applicable
/// kind, in the order the kinds were configured.
pub open spec fn spec_emit(kinds: Seq<MutationType>, a: AstV) -> Seq<(MutationType, AstV)>
    decreases kinds.len(),
{
    if kinds.len() == 0 {
        Seq::empty()
    } else {
        (if spec_is_mutation_point(kinds[0], a) {
            seq![(kinds[0], a)]
        } else {
            Seq::empty()
        }) + spec_emit(kinds.drop_first(), a)
    }
}

/// The contract name propagated to the children of an object node: a node
/// that declares a contract renames the attribution to its own name.
pub open spec fn spec_child_contract(
    fs: Seq<(Seq<char>, DocV)>,
    inherited: Option<Seq<char>>,
) -> Option<Seq<char>> {
    if spec_haskey(fs, "contractKind"@) {
        match spec_lookup(fs, "name"@) {
            DocV::Text(t) => Some(t),
            _ => None,
        }
    } else {
        inherited
    }
}

/// The mutation points discovered below a parsed value that enters the walk
/// with the given contract attribution and sticky acceptance flag.
pub open spec fn spec_discover_value(
    v: DocV,
    contract: Option<Seq<char>>,
    cfg: ScopeSpec,
    accepted: bool,
) -> Seq<(MutationType, AstV)>
    decreases v,
{
    let a = spec_new_ast(v, contract);
    let acc2 = accepted || spec_accept(cfg, a);
    if spec_skip(a) {
        Seq::empty()
    } else {
        (if acc2 {
            spec_emit(cfg.kinds, a)
        } else {
            Seq::empty()
        }) + (match v {
            DocV::Object(fs) => spec_discover_fields(
                fs,
                spec_child_contract(fs, a.contract),
                cfg,
                acc2,
            ),
            DocV::Array(es) => spec_discover_elems(es, contract, cfg, acc2),
            _ => Seq::empty(),
        })
    }
}

pub open spec fn spec_discover_fields(
    fs: Seq<(Seq<char>, DocV)>,
    contract: Option<Seq<char>>,
    cfg: ScopeSpec,
    accepted: bool,
) -> Seq<(MutationType, AstV)>
    decreases fs,
{
    if fs.len() == 0 {
        Seq::empty()
    } else {
        spec_discover_value(fs[0].1, contract, cfg, accepted) + spec_discover_fields(
            fs.drop_first(),
            contract,
            cfg,
            accepted,
        )
    }
}

pub open spec fn spec_discover_elems(
    es: Seq<DocV>,
    contract: Option<Seq<char>>,
    cfg: ScopeSpec,
    accepted: bool,
) -> Seq<(MutationType, AstV)>
    decreases es,
{
    if es.len() == 0 {
        Seq::empty()
    } else {
        spec_discover_value(es[0], contract, cfg, accepted) + spec_discover_elems(
            es.drop_first(),
            contract,
            cfg,
            accepted,
        )
    }
}

/// The mutation points discovered in the tree rooted at node `a`.
pub open spec fn spec_discover(a: AstV, cfg: ScopeSpec, accepted: bool) -> Seq<
    (MutationType, AstV),
> {
    let acc2 = accepted || spec_accept(cfg, a);
    if spec_skip(a) {
        Seq::empty()
    } else {
        (if acc2 {
            spec_emit(cfg.kinds, a)
        } else {
            Seq::empty()
        }) + (match a.element {
            Some(v) => match v {
                DocV::Object(fs) => spec_discover_fields(
                    fs,
                    spec_child_contract(fs, a.contract),
                    cfg,
                    acc2,
                ),
                DocV::Array(es) => spec_discover_elems(es, a.contract, cfg, acc2),
                _ => Seq::empty(),
            },
            None => Seq::empty(),
        })
    }
}

/// The views of a discovered point list.
pub open spec fn pairs_view(s: Seq<(MutationType, SolAST)>) -> Seq<(MutationType, AstV)> {
    Seq::new(s.len(), |i: int| (s[i].0, s[i].1@))
}

proof fn lemma_emit_snoc(kinds: Seq<MutationType>, a: AstV)
    requires
        kinds.len() > 0,
    ensures
        spec_emit(kinds, a) == spec_emit(kinds.drop_last(), a) + (if spec_is_mutation_point(
            kinds.last(),
            a,
        ) {
            seq![(kinds.last(), a)]
        } else {
            Seq::<(MutationType, AstV)>::empty()
        }),
    decreases kinds.len(),
{
    if kinds.len() == 1 {
        assert(kinds.drop_last() =~= Seq::<MutationType>::empty());
        assert(kinds.drop_first() =~= Seq::<MutationType>::empty());
        assert(kinds[0] == kinds.last());
        assert(spec_emit(kinds, a) =~= spec_emit(kinds.drop_last(), a) + (if
        spec_is_mutation_point(kinds.last(), a) {
            seq![(kinds.last(), a)]
        } else {
            Seq::<(MutationType, AstV)>::empty()
        }));
    } else {
        lemma_emit_snoc(kinds.drop_first(), a);
        assert(kinds.drop_first().drop_last() =~= kinds.drop_last().drop_first());
        assert(kinds.drop_first().last() == kinds.last());
        assert(kinds.drop_last()[0] == kinds[0]);
        assert(kinds.drop_last().len() > 0);
        assert(spec_emit(kinds, a) =~= spec_emit(kinds.drop_last(), a) + (if
        spec_is_mutation_point(kinds.last(), a) {
            seq![(kinds.last(), a)]
        } else {
            Seq::<(MutationType, AstV)>::empty()
        }));
    }
}

/// Whether the allow-list holds a name equal to `n`.
fn names_contain(fs: &Vec<String>, n: &String) -> (r: bool)
    ensures
        r == fs.deep_view().contains(n@),
{
    let mut i: usize = 0;
    while i < fs.len()
        invariant
            0 <= i <= fs@.len(),
            forall|k: int| 0 <= k < i ==> fs.deep_view()[k] != n@,
        decreases fs@.len() - i,
    {
        proof {
            assert(fs.deep_view()[i as int] == fs@[i as int]@);
        }
        if str_eq(fs[i].as_str(), n.as_str()) {
            assert(fs.deep_view().contains(n@));
            return true;
        }
        i += 1;
    }
    proof {
        if fs.deep_view().contains(n@) {
            let j = choose|j: int| 0 <= j < fs.deep_view().len() && fs.deep_view()[j] == n@;
            assert(false);
        }
    }
    false
}

/// Test the scope's accept predicate on a node.
fn accept_node(node: &SolAST, funcs_to_mutate: &Option<Vec<String>>, contract: &Option<String>)
    -> (r: bool)
    ensures
        r == spec_accept(
            ScopeSpec {
                kinds: Seq::empty(),
                funcs: opt_strs_view(*funcs_to_mutate),
                contract: opt_str_view(*contract),
            },
            node@,
        ),
{
    match (contract, funcs_to_mutate) {
        (None, None) => true,
        (Some(c), None) => {
            match &node.contract {
                Some(nc) => str_eq(nc.as_str(), c.as_str()),
                None => false,
            }
        }
        (None, Some(f)) => {
            let nt = node.node_type();
            let is_fd = match &nt {
                Some(s) => str_eq(s.as_str(), "FunctionDefinition"),
                None => false,
            };
            if !is_fd {
                return false;
            }
            match node.name() {
                Some(n) => names_contain(f, &n),
                None => false,
            }
        }
        (Some(c), Some(f)) => {
            let cm = match &node.contract {
                Some(nc) => str_eq(nc.as_str(), c.as_str()),
                None => false,
            };
            if !cm {
                return false;
            }
            let nt = node.node_type();
            let is_fd = match &nt {
                Some(s) => str_eq(s.as_str(), "FunctionDefinition"),
                None => false,
            };
            if !is_fd {
                return false;
            }
            match node.name() {
                Some(n) => names_contain(f, &n),
                None => false,
            }
        }
    }
}

/// The mutation points this node contributes, appended to `acc`.
fn emit_node(
    kinds: &Vec<MutationType>,
    node: &SolAST,
    acc: &mut Vec<(MutationType, SolAST)>,
)
    ensures
        pairs_view(final(acc)@) == pairs_view(old(acc)@) + spec_emit(kinds@, node@),
{
    let ghost base = pairs_view(acc@);
    let mut j: usize = 0;
    while j < kinds.len()
        invariant
            0 <= j <= kinds@.len(),
            pairs_view(acc@) =~= base + spec_emit(kinds@.take(j as int), node@),
        decreases kinds@.len() - j,
    {
        let k = kinds[j];
        let ghost prev = pairs_view(acc@);
        if k.is_mutation_point(node) {
            acc.push((k, node.duplicate()));
            proof {
                assert(pairs_view(acc@) =~= prev.push((k, node@)));
            }
        }
        proof {
            let kt = kinds@.take(j + 1);
            assert(kt.drop_last() =~= kinds@.take(j as int));
            assert(kt.last() == kinds@[j as int]);
            lemma_emit_snoc(kt, node@);
            assert(pairs_view(acc@) =~= base + spec_emit(kinds@.take(j + 1), node@));
        }
        j += 1;
    }
    proof {
        assert(kinds@.take(kinds@.len() as int) =~= kinds@);
    }
}

/// Walk a parsed value depth-first, collecting mutation points.
fn discover_value(
    v: &DocValue,
    contract: &Option<String>,
    kinds: &Vec<MutationType>,
    funcs_to_mutate: &Option<Vec<String>>,
    contract_scope: &Option<String>,
    accepted: bool,
    acc: &mut Vec<(MutationType, SolAST)>,
)
    ensures
        pairs_view(final(acc)@) == pairs_view(old(acc)@) + spec_discover_value(
            v@,
            opt_str_view(*contract),
            ScopeSpec {
                kinds: kinds@,
                funcs: opt_strs_view(*funcs_to_mutate),
                contract: opt_str_view(*contract_scope),
            },
            accepted,
        ),
    decreases *v,
{
    let ghost cfg = ScopeSpec {
        kinds: kinds@,
        funcs: opt_strs_view(*funcs_to_mutate),
        contract: opt_str_view(*contract_scope),
    };
    let ghost base = pairs_view(acc@);
    let node = SolAST::new(v.duplicate(), crate::ast::dup_opt_string(contract));
    let acc2 = accepted || accept_node(&node, funcs_to_mutate, contract_scope);
    let skip = match node.name() {
        Some(n) => str_eq(n.as_str(), "assert"),
        None => false,
    };
    if skip {
        return ;
    }
    if acc2 {
        emit_node(kinds, &node, acc);
    }
    match v {
        DocValue::Object(fs) => {
            // A contract declaration renames the attribution for descendants.
            let child_contract: Option<String> = match v.get_field("contractKind") {
                Some(_) => match v.get_field("name") {
                    Some(DocValue::Text(t)) => Some(t.clone()),
                    _ => None,
                },
                None => crate::ast::dup_opt_string(&node.contract),
            };
            proof {
                assert(opt_str_view(child_contract) == spec_child_contract(
                    view_fields(fs@),
                    node@.contract,
                ));
                assert(decreases_to!(*v => (*v)->Object_0));
                assert((*v)->Object_0 == *fs);
            }
            walk_fields(fs, &child_contract, kinds, funcs_to_mutate, contract_scope, acc2, acc);
            proof {
                assert(pairs_view(acc@) =~= base + spec_discover_value(
                    v@,
                    opt_str_view(*contract),
                    cfg,
                    accepted,
                ));
            }
        }
        DocValue::Array(es) => {
            proof {
                assert(decreases_to!(*v => (*v)->Array_0));
                assert((*v)->Array_0 == *es);
            }
            walk_elems(es, contract, kinds, funcs_to_mutate, contract_scope, acc2, acc);
            proof {
                assert(pairs_view(acc@) =~= base + spec_discover_value(
                    v@,
                    opt_str_view(*contract),
                    cfg,
                    accepted,
                ));
            }
        }
        _ => {
            proof {
                assert(pairs_view(acc@) =~= base + spec_discover_value(
                    v@,
                    opt_str_view(*contract),
                    cfg,
                    accepted,
                ));
            }
        }
    }
}

/// The points contributed by the first `n` fields.
pub open spec fn spec_discover_fields_upto(
    fs: Seq<(Seq<char>, DocV)>,
    contract: Option<Seq<char>>,
    cfg: ScopeSpec,
    accepted: bool,
    n: int,
) -> Seq<(MutationType, AstV)> {
    spec_discover_fields(fs.take(n), contract, cfg, accepted)
}

/// The points contributed by the first `n` elements.
pub open spec fn spec_discover_elems_upto(
    es: Seq<DocV>,
    contract: Option<Seq<char>>,
    cfg: ScopeSpec,
    accepted: bool,
    n: int,
) -> Seq<(MutationType, AstV)> {
    spec_discover_elems(es.take(n), contract, cfg, accepted)
}

proof fn lemma_discover_fields_upto_snoc(
    fs: Seq<(Seq<char>, DocV)>,
    contract: Option<Seq<char>>,
    cfg: ScopeSpec,
    accepted: bool,
    n: int,
)
    requires
        0 <= n < fs.len(),
    ensures
        spec_discover_fields_upto(fs, contract, cfg, accepted, n + 1)
            == spec_discover_fields_upto(fs, contract, cfg, accepted, n) + spec_discover_value(
            fs[n].1,
            contract,
            cfg,
            accepted,
        ),
{
    lemma_discover_fields_append(fs.take(n + 1), contract, cfg, accepted, n);
    assert(fs.take(n + 1).take(n) =~= fs.take(n));
    assert(fs.take(n + 1)[n] == fs[n]);
}

/// Splitting off the last field of a prefix.
proof fn lemma_discover_fields_append(
    fs: Seq<(Seq<char>, DocV)>,
    contract: Option<Seq<char>>,
    cfg: ScopeSpec,
    accepted: bool,
    n: int,
)
    requires
        0 <= n,
        fs.len() == n + 1,
    ensures
        spec_discover_fields(fs, contract, cfg, accepted) == spec_discover_fields(
            fs.take(n),
            contract,
            cfg,
            accepted,
        ) + spec_discover_value(fs[n].1, contract, cfg, accepted),
    decreases n,
{
    if n == 0 {
        assert(fs.take(0) =~= Seq::<(Seq<char>, DocV)>::empty());
        assert(fs.drop_first() =~= Seq::<(Seq<char>, DocV)>::empty());
        assert(spec_discover_fields(fs, contract, cfg, accepted) =~= spec_discover_fields(
            fs.take(0),
            contract,
            cfg,
            accepted,
        ) + spec_discover_value(fs[0].1, contract, cfg, accepted));
    } else {
        lemma_discover_fields_append(fs.drop_first(), contract, cfg, accepted, n - 1);
        assert(fs.drop_first().take(n - 1) =~= fs.take(n).drop_first());
        assert(fs.drop_first()[n - 1] == fs[n]);
        assert(fs.take(n)[0] == fs[0]);
        assert(fs.take(n).len() > 0);
        assert(spec_discover_fields(fs, contract, cfg, accepted) =~= spec_discover_fields(
            fs.take(n),
            contract,
            cfg,
            accepted,
        ) + spec_discover_value(fs[n].1, contract, cfg, accepted));
    }
}

proof fn lemma_discover_fields_upto_full(
    fs: Seq<(Seq<char>, DocV)>,
    contract: Option<Seq<char>>,
    cfg: ScopeSpec,
    accepted: bool,
)
    ensures
        spec_discover_fields_upto(fs, contract, cfg, accepted, fs.len() as int)
            == spec_discover_fields(fs, contract, cfg, accepted),
{
    assert(fs.take(fs.len() as int) =~= fs);
}

proof fn lemma_discover_elems_upto_snoc(
    es: Seq<DocV>,
    contract: Option<Seq<char>>,
    cfg: ScopeSpec,
    accepted: bool,
    n: int,
)
    requires
        0 <= n < es.len(),
    ensures
        spec_discover_elems_upto(es, contract, cfg, accepted, n + 1) == spec_discover_elems_upto(
            es,
            contract,
            cfg,
            accepted,
            n,
        ) + spec_discover_value(es[n], contract, cfg, accepted),
{
    lemma_discover_elems_append(es.take(n + 1), contract, cfg, accepted, n);
    assert(es.take(n + 1).take(n) =~= es.take(n));
    assert(es.take(n + 1)[n] == es[n]);
}

proof fn lemma_discover_elems_append(
    es: Seq<DocV>,
    contract: Option<Seq<char>>,
    cfg: ScopeSpec,
    accepted: bool,
    n: int,
)
    requires
        0 <= n,
        es.len() == n + 1,
    ensures
        spec_discover_elems(es, contract, cfg, accepted) == spec_discover_elems(
            es.take(n),
            contract,
            cfg,
            accepted,
        ) + spec_discover_value(es[n], contract, cfg, accepted),
    decreases n,
{
    if n == 0 {
        assert(es.take(0) =~= Seq::<DocV>::empty());
        assert(es.drop_first() =~= Seq::<DocV>::empty());
        assert(spec_discover_elems(es, contract, cfg, accepted) =~= spec_discover_elems(
            es.take(0),
            contract,
            cfg,
            accepted,
        ) + spec_discover_value(es[0], contract, cfg, accepted));
    } else {
        lemma_discover_elems_append(es.drop_first(), contract, cfg, accepted, n - 1);
        assert(es.drop_first().take(n - 1) =~= es.take(n).drop_first());
        assert(es.drop_first()[n - 1] == es[n]);
        assert(es.take(n)[0] == es[0]);
        assert(es.take(n).len() > 0);
        assert(spec_discover_elems(es, contract, cfg, accepted) =~= spec_discover_elems(
            es.take(n),
            contract,
            cfg,
            accepted,
        ) + spec_discover_value(es[n], contract, cfg, accepted));
    }
}

proof fn lemma_discover_elems_upto_full(
    es: Seq<DocV>,
    contract: Option<Seq<char>>,
    cfg: ScopeSpec,
    accepted: bool,
)
    ensures
        spec_discover_elems_upto(es, contract, cfg, accepted, es.len() as int)
            == spec_discover_elems(es, contract, cfg, accepted),
{
    assert(es.take(es.len() as int) =~= es);
}

impl SolAST {
    /// Walk the tree depth-first under the given scope and collect every
    /// mutation point: one (kind, node) pair per applicable kind per
    /// in-scope, non-skipped node, in pre-order.
    pub fn traverse(
        self,
        mutation_types: &Vec<MutationType>,
        funcs_to_mutate: &Option<Vec<String>>,
        contract: &Option<String>,
    ) -> (r: Vec<(MutationType, SolAST)>)
        ensures
            pairs_view(r@) == spec_discover(
                self@,
                ScopeSpec {
                    kinds: mutation_types@,
                    funcs: opt_strs_view(*funcs_to_mutate),
                    contract: opt_str_view(*contract),
                },
                false,
            ),
    {
        let ghost cfg = ScopeSpec {
            kinds: mutation_types@,
            funcs: opt_strs_view(*funcs_to_mutate),
            contract: opt_str_view(*contract),
        };
        let mut acc: Vec<(MutationType, SolAST)> = Vec::new();
        let acc2 = accept_node(&self, funcs_to_mutate, contract);
        let skip = match self.name() {
            Some(n) => str_eq(n.as_str(), "assert"),
            None => false,
        };
        if skip {
            proof {
                assert(pairs_view(acc@) =~= spec_discover(self@, cfg, false));
            }
            return acc;
        }
        if acc2 {
            emit_node(mutation_types, &self, &mut acc);
        }
        match &self.element {
            Some(v) => match v {
                DocValue::Object(fs) => {
                    let child_contract: Option<String> = match v.get_field("contractKind") {
                        Some(_) => match v.get_field("name") {
                            Some(DocValue::Text(t)) => Some(t.clone()),
                            _ => None,
                        },
                        None => crate::ast::dup_opt_string(&self.contract),
                    };
                    proof {
                        assert(opt_str_view(child_contract) == spec_child_contract(
                            view_fields(fs@),
                            self@.contract,
                        ));
                    }
                    walk_fields(
                        fs,
                        &child_contract,
                        mutation_types,
                        funcs_to_mutate,
                        contract,
                        acc2,
                        &mut acc,
                    );
                    proof {
                        assert(pairs_view(acc@) =~= spec_discover(self@, cfg, false));
                    }
                }
                DocValue::Array(es) => {
                    let inherited = crate::ast::dup_opt_string(&self.contract);
                    walk_elems(
                        es,
                        &inherited,
                        mutation_types,
                        funcs_to_mutate,
                        contract,
                        acc2,
                        &mut acc,
                    );
                    proof {
                        assert(opt_str_view(inherited) == self@.contract);
                        assert(pairs_view(acc@) =~= spec_discover(self@, cfg, false));
                    }
                }
                _ => {
                    proof {
                        assert(pairs_view(acc@) =~= spec_discover(self@, cfg, false));
                    }
                }
            },
            None => {
                proof {
                    assert(pairs_view(acc@) =~= spec_discover(self@, cfg, false));
                }
            }
        }
        acc
    }
}

/// Walk every field value of an object node.
fn walk_fields(
    fs: &Vec<(String, DocValue)>,
    contract: &Option<String>,
    kinds: &Vec<MutationType>,
    funcs_to_mutate: &Option<Vec<String>>,
    contract_scope: &Option<String>,
    accepted: bool,
    acc: &mut Vec<(MutationType, SolAST)>,
)
    ensures
        pairs_view(final(acc)@) == pairs_view(old(acc)@) + spec_discover_fields(
            view_fields(fs@),
            opt_str_view(*contract),
            ScopeSpec {
                kinds: kinds@,
                funcs: opt_strs_view(*funcs_to_mutate),
                contract: opt_str_view(*contract_scope),
            },
            accepted,
        ),
    decreases *fs,
{
    let ghost cfg = ScopeSpec {
        kinds: kinds@,
        funcs: opt_strs_view(*funcs_to_mutate),
        contract: opt_str_view(*contract_scope),
    };
    let ghost base = pairs_view(acc@);
    let ghost fsv = view_fields(fs@);
    proof {
        lemma_view_fields_len(fs@);
    }
    let mut i: usize = 0;
    while i < fs.len()
        invariant
            0 <= i <= fs@.len(),
            fsv == view_fields(fs@),
            fsv.len() == fs@.len(),
            pairs_view(acc@) =~= base + spec_discover_fields_upto(
                fsv,
                opt_str_view(*contract),
                cfg,
                accepted,
                i as int,
            ),
            cfg == (ScopeSpec {
                kinds: kinds@,
                funcs: opt_strs_view(*funcs_to_mutate),
                contract: opt_str_view(*contract_scope),
            }),
        decreases fs@.len() - i,
    {
        proof {
            assert(decreases_to!(*fs => fs@));
            assert(decreases_to!(fs@ => fs@[i as int]));
            let pair = fs@[i as int];
            assert(decreases_to!(pair => pair.1));
            assert(decreases_to!(*fs => fs@[i as int].1));
        }
        discover_value(&fs[i].1, contract, kinds, funcs_to_mutate, contract_scope, accepted, acc);
        proof {
            lemma_view_fields_index(fs@, i as int);
            lemma_discover_fields_upto_snoc(fsv, opt_str_view(*contract), cfg, accepted, i as int);
        }
        i += 1;
    }
    proof {
        lemma_discover_fields_upto_full(fsv, opt_str_view(*contract), cfg, accepted);
    }
}

/// Walk every element of an array node.
fn walk_elems(
    es: &Vec<DocValue>,
    contract: &Option<String>,
    kinds: &Vec<MutationType>,
    funcs_to_mutate: &Option<Vec<String>>,
    contract_scope: &Option<String>,
    accepted: bool,
    acc: &mut Vec<(MutationType, SolAST)>,
)
    ensures
        pairs_view(final(acc)@) == pairs_view(old(acc)@) + spec_discover_elems(
            view_elems(es@),
            opt_str_view(*contract),
            ScopeSpec {
                kinds: kinds@,
                funcs: opt_strs_view(*funcs_to_mutate),
                contract: opt_str_view(*contract_scope),
            },
            accepted,
        ),
    decreases *es,
{
    let ghost cfg = ScopeSpec {
        kinds: kinds@,
        funcs: opt_strs_view(*funcs_to_mutate),
        contract: opt_str_view(*contract_scope),
    };
    let ghost base = pairs_view(acc@);
    let ghost esv = view_elems(es@);
    proof {
        lemma_view_elems_len(es@);
    }
    let mut i: usize = 0;
    while i < es.len()
        invariant
            0 <= i <= es@.len(),
            esv == view_elems(es@),
            esv.len() == es@.len(),
            pairs_view(acc@) =~= base + spec_discover_elems_upto(
                esv,
                opt_str_view(*contract),
                cfg,
                accepted,
                i as int,
            ),
            cfg == (ScopeSpec {
                kinds: kinds@,
                funcs: opt_strs_view(*funcs_to_mutate),
                contract: opt_str_view(*contract_scope),
            }),
        decreases es@.len() - i,
    {
        proof {
            assert(decreases_to!(*es => es@));
            assert(decreases_to!(es@ => es@[i as int]));
        }
        discover_value(&es[i], contract, kinds, funcs_to_mutate, contract_scope, accepted, acc);
        proof {
            lemma_view_elems_index(es@, i as int);
            lemma_discover_elems_upto_snoc(esv, opt_str_view(*contract), cfg, accepted, i as int);
        }
        i += 1;
    }
    proof {
        lemma_discover_elems_upto_full(esv, opt_str_view(*contract), cfg, accepted);
    }
}

} // verus!

verus! {

/// How many tries, per requested mutant, the generation loop may spend.
pub const ATTEMPTS: i64 = 50;

/// Why a run cannot proceed: a discovered node lacks a byte span its
/// generator needs, which means the predicates and the grammar disagree.
pub enum RunError {
    MalformedNode,
}

/// The kinds of a discovery list, in order of first appearance.
pub open spec fn spec_group_kinds(ps: Seq<(MutationType, AstV)>) -> Seq<MutationType>
    decreases ps.len(),
{
    if ps.len() == 0 {
        Seq::empty()
    } else {
        let rest = spec_group_kinds(ps.drop_last());
        if rest.contains(ps.last().0) {
            rest
        } else {
            rest.push(ps.last().0)
        }
    }
}

/// The nodes a discovery list offers for one kind, in discovery order.
pub open spec fn spec_nodes_for(ps: Seq<(MutationType, AstV)>, k: MutationType) -> Seq<AstV>
    decreases ps.len(),
{
    if ps.len() == 0 {
        Seq::empty()
    } else {
        spec_nodes_for(ps.drop_last(), k) + (if ps.last().0 == k {
            seq![ps.last().1]
        } else {
            Seq::empty()
        })
    }
}

/// The work queue: full passes over the discovered kinds, the last pass
/// truncated to the remaining quota.
pub open spec fn spec_schedule(kinds: Seq<MutationType>, remaining: int) -> Seq<MutationType>
    decreases remaining,
{
    if kinds.len() == 0 || remaining <= 0 {
        Seq::empty()
    } else if remaining >= kinds.len() {
        kinds + spec_schedule(kinds, remaining - kinds.len())
    } else {
        kinds.take(remaining)
    }
}

/// A kind that appears in the grouping has at least one node.
proof fn lemma_group_nonempty(ps: Seq<(MutationType, AstV)>, k: MutationType)
    requires
        spec_group_kinds(ps).contains(k),
    ensures
        spec_nodes_for(ps, k).len() > 0,
    decreases ps.len(),
{
    if ps.len() > 0 {
        let rest = spec_group_kinds(ps.drop_last());
        if ps.last().0 == k {
        } else {
            assert(rest.contains(k)) by {
                if rest.contains(ps.last().0) {
                } else {
                    assert(spec_group_kinds(ps) == rest.push(ps.last().0));
                    let j = choose|j: int|
                        0 <= j < spec_group_kinds(ps).len() && spec_group_kinds(ps)[j] == k;
                    assert(j < rest.len());
                }
            }
            lemma_group_nonempty(ps.drop_last(), k);
        }
    }
}

/// The grouped kinds are pairwise distinct.
proof fn lemma_group_distinct(ps: Seq<(MutationType, AstV)>)
    ensures
        forall|i: int, j: int|
            0 <= i < j < spec_group_kinds(ps).len() ==> #[trigger] spec_group_kinds(ps)[i]
                != #[trigger] spec_group_kinds(ps)[j],
    decreases ps.len(),
{
    if ps.len() > 0 {
        lemma_group_distinct(ps.drop_last());
        let rest = spec_group_kinds(ps.drop_last());
        let out = spec_group_kinds(ps);
        if !rest.contains(ps.last().0) {
            assert forall|i: int, j: int| 0 <= i < j < out.len() implies #[trigger] out[i]
                != #[trigger] out[j] by {
                if j == out.len() - 1 {
                    assert(out[j] == ps.last().0);
                    assert(rest[i] == out[i]);
                    if out[i] == ps.last().0 {
                        assert(rest.contains(ps.last().0));
                    }
                } else {
                    assert(out[i] == rest[i] && out[j] == rest[j]);
                }
            }
        }
    }
}

/// Check that `node` carries every span `kind`'s generator needs, inside a
/// source of `src_len` bytes.
pub fn point_wf_check(kind: MutationType, node: &SolAST, src_len: usize) -> (r: bool)
    ensures
        r == crate::mutation::spec_point_wf(kind, node@, src_len as int),
{
    match kind {
        MutationType::BinaryOpMutation => {
            let le = node.left_expression();
            let re = node.right_expression();
            match (le.try_bounds(), re.try_bounds()) {
                (Some(lb), Some(rb)) => lb.1 <= rb.0 && rb.0 <= src_len,
                _ => false,
            }
        }
        MutationType::RequireMutation => {
            let args = node.arguments();
            if args.len() == 0 {
                return false;
            }
            proof {
                assert(args.deep_view()[0] == node@.arguments_v()[0]);
            }
            match args[0].try_bounds() {
                Some(b) => b.1 <= src_len,
                None => false,
            }
        }
        MutationType::AssignmentMutation => {
            let rhs = node.right_hand_side();
            match rhs.try_bounds() {
                Some(b) => b.1 <= src_len,
                None => false,
            }
        }
        MutationType::DeleteExpressionMutation => {
            match node.try_bounds() {
                Some(b) => b.1 <= src_len,
                None => false,
            }
        }
        MutationType::FunctionCallMutation => {
            match node.try_bounds() {
                Some(b) => {
                    if !(b.1 <= src_len) {
                        return false;
                    }
                    let args = node.arguments();
                    all_spans_within(&args, src_len)
                }
                None => false,
            }
        }
        MutationType::IfStatementMutation => {
            let cond = node.condition();
            match cond.try_bounds() {
                Some(b) => b.1 <= src_len,
                None => false,
            }
        }
        MutationType::SwapArgumentsFunctionMutation => {
            match node.try_bounds() {
                Some(b) => {
                    if !(b.1 <= src_len) {
                        return false;
                    }
                    let args = node.arguments();
                    if !all_spans_within(&args, src_len) {
                        return false;
                    }
                    if args.len() == 2 {
                        proof {
                            assert(args.deep_view()[0] == node@.arguments_v()[0]);
                            assert(args.deep_view()[1] == node@.arguments_v()[1]);
                        }
                        match (args[0].try_bounds(), args[1].try_bounds()) {
                            (Some(b0), Some(b1)) => spans_separate_check(b0, b1),
                            _ => false,
                        }
                    } else {
                        true
                    }
                }
                None => false,
            }
        }
        MutationType::SwapArgumentsOperatorMutation => {
            let le = node.left_expression();
            let re = node.right_expression();
            match (le.try_bounds(), re.try_bounds()) {
                (Some(lb), Some(rb)) => lb.1 <= src_len && rb.1 <= src_len
                    && spans_separate_check(lb, rb),
                _ => false,
            }
        }
        MutationType::SwapLinesMutation => {
            match node.try_bounds() {
                Some(b) => {
                    if !(b.1 <= src_len) {
                        return false;
                    }
                    let stmts = node.statements();
                    if !all_spans_within(&stmts, src_len) {
                        return false;
                    }
                    if stmts.len() == 2 {
                        proof {
                            assert(stmts.deep_view()[0] == node@.statements_v()[0]);
                            assert(stmts.deep_view()[1] == node@.statements_v()[1]);
                        }
                        match (stmts[0].try_bounds(), stmts[1].try_bounds()) {
                            (Some(b0), Some(b1)) => spans_separate_check(b0, b1),
                            _ => false,
                        }
                    } else {
                        true
                    }
                }
                None => false,
            }
        }
        MutationType::UnaryOperatorMutation => {
            match node.try_bounds() {
                Some(b) => {
                    if !(b.1 <= src_len) {
                        return false;
                    }
                    match node.operator() {
                        Some(op) => {
                            let oplen = op.as_str().unicode_len();
                            oplen >= 1 && oplen <= b.1 - b.0
                        }
                        None => false,
                    }
                }
                None => false,
            }
        }
        MutationType::ElimDelegateMutation => {
            let e = node.expression();
            let inner = e.expression();
            match (inner.try_bounds(), e.try_bounds()) {
                (Some(ib), Some(ob)) => ib.1 < ob.1 && ob.1 <= src_len,
                _ => false,
            }
        }
    }
}

/// Exact test for [`crate::mutation::spans_separate`].
fn spans_separate_check(a: (usize, usize), b: (usize, usize)) -> (r: bool)
    ensures
        r == crate::mutation::spans_separate(
            (a.0 as int, a.1 as int),
            (b.0 as int, b.1 as int),
        ),
{
    (a.1 <= b.0 || b.1 <= a.0) && a.0 != b.0
}

/// Every argument node has a span inside the source.
fn all_spans_within(args: &Vec<SolAST>, src_len: usize) -> (r: bool)
    ensures
        r == (forall|i: int|
            0 <= i < args.deep_view().len() ==> ((#[trigger] args.deep_view()[i]).spec_span()
                matches Some(sp) && sp.1 <= src_len)),
{
    let mut i: usize = 0;
    while i < args.len()
        invariant
            0 <= i <= args@.len(),
            forall|k: int|
                0 <= k < i ==> ((#[trigger] args.deep_view()[k]).spec_span() matches Some(sp)
                    && sp.1 <= src_len),
        decreases args@.len() - i,
    {
        proof {
            assert(args.deep_view()[i as int] == args@[i as int]@);
        }
        match args[i].try_bounds() {
            Some(b) => {
                if !(b.1 <= src_len) {
                    return false;
                }
            }
            None => {
                return false;
            }
        }
        i += 1;
    }
    true
}

} // verus!

verus! {

/// The first position where the two line lists differ; the length of the
/// shorter list when one is a prefix of the other.
pub open spec fn spec_first_diff(a: Seq<Seq<u8>>, b: Seq<Seq<u8>>) -> int
    decreases a.len(),
{
    if a.len() == 0 || b.len() == 0 {
        0
    } else if a[0] != b[0] {
        0
    } else {
        1 + spec_first_diff(a.drop_first(), b.drop_first())
    }
}

/// The lines joined back together, each closed with a newline.
pub open spec fn spec_join_lines(ls: Seq<Seq<u8>>) -> Seq<u8>
    decreases ls.len(),
{
    if ls.len() == 0 {
        Seq::empty()
    } else {
        ls[0] + seq![10u8] + spec_join_lines(ls.drop_first())
    }
}

/// The provenance comment placed above the first changed line: the original
/// line's indentation, the kind's name, and the original line trimmed.
pub open spec fn spec_comment_line(orig_line: Seq<u8>, kname: Seq<u8>) -> Seq<u8> {
    crate::bytes::spec_indent(orig_line) + crate::chars::ascii_seq("/// "@) + kname
        + crate::chars::ascii_seq(" of: "@) + crate::bytes::spec_trim(orig_line)
}

/// The annotated mutant: the mutant's lines with a provenance comment
/// inserted above the first line that differs from the original.  When no
/// line differs before one text ends, the mutant is only renormalized.
pub open spec fn spec_annotate(orig: Seq<u8>, mutant: Seq<u8>, kname: Seq<u8>) -> Seq<u8> {
    let lo = crate::bytes::spec_lines(orig);
    let lm = crate::bytes::spec_lines(mutant);
    let d = spec_first_diff(lo, lm);
    if d < lo.len() && d < lm.len() {
        spec_join_lines(lm.take(d)) + spec_comment_line(lo[d], kname) + seq![10u8]
            + spec_join_lines(lm.skip(d))
    } else {
        spec_join_lines(lm)
    }
}

proof fn lemma_first_diff_at(a: Seq<Seq<u8>>, b: Seq<Seq<u8>>, d: int)
    requires
        0 <= d <= a.len(),
        d <= b.len(),
        forall|k: int| 0 <= k < d ==> a[k] == b[k],
        d < a.len() && d < b.len() ==> a[d] != b[d],
        d == a.len() || d == b.len() || a[d] != b[d],
    ensures
        spec_first_diff(a, b) == d,
    decreases d,
{
    if a.len() == 0 || b.len() == 0 {
    } else if a[0] != b[0] {
        assert(d == 0);
    } else {
        assert(d >= 1);
        lemma_first_diff_at(a.drop_first(), b.drop_first(), d - 1);
    }
}

proof fn lemma_join_snoc(ls: Seq<Seq<u8>>)
    requires
        ls.len() > 0,
    ensures
        spec_join_lines(ls) == spec_join_lines(ls.drop_last()) + ls.last() + seq![10u8],
    decreases ls.len(),
{
    if ls.len() == 1 {
        assert(ls.drop_last() =~= Seq::<Seq<u8>>::empty());
        assert(ls.drop_first() =~= Seq::<Seq<u8>>::empty());
        assert(spec_join_lines(ls) =~= spec_join_lines(ls.drop_last()) + ls.last() + seq![10u8]);
    } else {
        lemma_join_snoc(ls.drop_first());
        assert(ls.drop_first().drop_last() =~= ls.drop_last().drop_first());
        assert(ls.drop_first().last() == ls.last());
        assert(ls.drop_last()[0] == ls[0]);
        assert(ls.drop_last().len() > 0);
        assert(spec_join_lines(ls) =~= spec_join_lines(ls.drop_last()) + ls.last() + seq![10u8]);
    }
}

/// Join the line range `[from, to)`, each line closed with a newline.
fn join_lines_range(ls: &Vec<Vec<u8>>, from: usize, to: usize, out: &mut Vec<u8>)
    requires
        from <= to <= old(out)@.len() + ls@.len(),
        to <= ls@.len(),
    ensures
        final(out)@ == old(out)@ + spec_join_lines(ls.deep_view().subrange(from as int, to as int)),
{
    let ghost base = out@;
    let ghost dv = ls.deep_view();
    let mut i: usize = from;
    proof {
        assert(dv.subrange(from as int, from as int).len() == 0);
        assert(out@ =~= base + spec_join_lines(dv.subrange(from as int, from as int)));
    }
    while i < to
        invariant
            from <= i <= to <= ls@.len(),
            dv == ls.deep_view(),
            dv.len() == ls@.len(),
            out@ =~= base + spec_join_lines(dv.subrange(from as int, i as int)),
        decreases to - i,
    {
        proof {
            assert(dv[i as int] == ls@[i as int]@);
        }
        crate::bytes::push_all(out, ls[i].as_slice());
        out.push(10);
        proof {
            let pre = dv.subrange(from as int, i as int);
            let cur = dv.subrange(from as int, i + 1);
            assert(cur.drop_last() =~= pre);
            assert(cur.last() == dv[i as int]);
            lemma_join_snoc(cur);
            assert(out@ =~= base + spec_join_lines(cur));
        }
        i += 1;
    }
}

/// The first index at which the two line lists differ.
fn first_diff_index(a: &Vec<Vec<u8>>, b: &Vec<Vec<u8>>) -> (r: usize)
    ensures
        r as int == spec_first_diff(a.deep_view(), b.deep_view()),
        r <= a.deep_view().len(),
        r <= b.deep_view().len(),
{
    let ghost adv = a.deep_view();
    let ghost bdv = b.deep_view();
    let mut d: usize = 0;
    while d < a.len() && d < b.len()
        invariant
            0 <= d <= a@.len(),
            d <= b@.len(),
            adv == a.deep_view(),
            bdv == b.deep_view(),
            adv.len() == a@.len(),
            bdv.len() == b@.len(),
            forall|k: int| 0 <= k < d ==> adv[k] == bdv[k],
        decreases a@.len() - d,
    {
        proof {
            assert(adv[d as int] == a@[d as int]@);
            assert(bdv[d as int] == b@[d as int]@);
        }
        if !crate::bytes::bytes_eq(a[d].as_slice(), b[d].as_slice()) {
            proof {
                lemma_first_diff_at(adv, bdv, d as int);
            }
            return d;
        }
        d += 1;
    }
    proof {
        lemma_first_diff_at(adv, bdv, d as int);
    }
    d
}

/// Data structure for running mutations over one parsed source file.
pub struct RunMutations {
    pub fnm: String,
    pub node: SolAST,
    pub num_mutants: i64,
    pub rand: rand_pcg::Pcg64,
    pub out: String,
    pub mutation_types: Vec<MutationType>,
    pub funcs_to_mutate: Option<Vec<String>>,
    pub contract: Option<String>,
}

impl RunMutations {
    /// Check if a node in the tree is an assertion check.
    pub fn is_assert_call(node: &SolAST) -> (r: bool)
        ensures
            r == spec_skip(node@),
    {
        match node.name() {
            Some(n) => str_eq(n.as_str(), "assert"),
            None => false,
        }
    }

    /// Insert a comment above the first changed line, naming the mutation
    /// kind and quoting the original trimmed line.
    pub fn add_mutant_comment(orig: &[u8], mutant: &[u8], kind_name: &[u8]) -> (r: Vec<u8>)
        ensures
            r@ == spec_annotate(orig@, mutant@, kind_name@),
    {
        proof {
            reveal_strlit("/// ");
            reveal_strlit(" of: ");
        }
        assert("/// ".is_ascii());
        assert(" of: ".is_ascii());
        let lo = crate::bytes::split_lines(orig);
        let lm = crate::bytes::split_lines(mutant);
        let d = first_diff_index(&lo, &lm);
        let mut r: Vec<u8> = Vec::new();
        if d < lo.len() && d < lm.len() {
            proof {
                assert(lo.deep_view()[d as int] == lo@[d as int]@);
            }
            join_lines_range(&lm, 0, d, &mut r);
            let ghost mid0 = r@;
            let indent = crate::bytes::indent_of(lo[d].as_slice());
            crate::bytes::push_all(&mut r, indent.as_slice());
            crate::bytes::push_all(&mut r, crate::chars::ascii_bytes("/// ").as_slice());
            crate::bytes::push_all(&mut r, kind_name);
            crate::bytes::push_all(&mut r, crate::chars::ascii_bytes(" of: ").as_slice());
            let trimmed = crate::bytes::trim_bytes(lo[d].as_slice());
            crate::bytes::push_all(&mut r, trimmed.as_slice());
            r.push(10);
            join_lines_range(&lm, d, lm.len(), &mut r);
            proof {
                let lmv = lm.deep_view();
                assert(lmv.subrange(0, d as int) =~= lmv.take(d as int));
                assert(lmv.subrange(d as int, lmv.len() as int) =~= lmv.skip(d as int));
                assert(r@ =~= spec_annotate(orig@, mutant@, kind_name@));
            }
            r
        } else {
            join_lines_range(&lm, 0, lm.len(), &mut r);
            proof {
                let lmv = lm.deep_view();
                assert(lmv.subrange(0, lmv.len() as int) =~= lmv);
                assert(r@ =~= spec_annotate(orig@, mutant@, kind_name@));
            }
            r
        }
    }
}

} // verus!

verus! {

/// Whether the list holds a text equal to `x`.
fn texts_contain(l: &Vec<Vec<u8>>, x: &Vec<u8>) -> (r: bool)
    ensures
        r == (exists|i: int| 0 <= i < l@.len() && (#[trigger] l@[i])@ == x@),
{
    let mut i: usize = 0;
    while i < l.len()
        invariant
            0 <= i <= l@.len(),
            forall|k: int| 0 <= k < i ==> (#[trigger] l@[k])@ != x@,
        decreases l@.len() - i,
    {
        if crate::bytes::bytes_eq(l[i].as_slice(), x.as_slice()) {
            assert(l@[i as int]@ == x@);
            return true;
        }
        i += 1;
    }
    proof {
        if exists|k: int| 0 <= k < l@.len() && (#[trigger] l@[k])@ == x@ {
            let k = choose|k: int| 0 <= k < l@.len() && (#[trigger] l@[k])@ == x@;
            assert(false);
        }
    }
    false
}

/// A kind that the grouping does not list has no nodes.
proof fn lemma_group_absent(ps: Seq<(MutationType, AstV)>, k: MutationType)
    requires
        !spec_group_kinds(ps).contains(k),
    ensures
        spec_nodes_for(ps, k).len() == 0,
    decreases ps.len(),
{
    if ps.len() > 0 {
        let rest = spec_group_kinds(ps.drop_last());
        assert(!rest.contains(k)) by {
            if rest.contains(k) {
                let j = choose|j: int| 0 <= j < rest.len() && rest[j] == k;
                if rest.contains(ps.last().0) {
                    assert(spec_group_kinds(ps)[j] == k);
                } else {
                    assert(spec_group_kinds(ps) == rest.push(ps.last().0));
                    assert(spec_group_kinds(ps)[j] == k);
                }
            }
        }
        assert(ps.last().0 != k) by {
            if ps.last().0 == k {
                if rest.contains(k) {
                } else {
                    assert(spec_group_kinds(ps) == rest.push(k));
                    assert(spec_group_kinds(ps).last() == k);
                }
            }
        }
        lemma_group_absent(ps.drop_last(), k);
    }
}

/// Pushing a fresh text onto the deduplication memory keeps it duplicate
/// free, and keeps every persisted raw text a member distinct from the
/// original.
#[verifier::spinoff_prover]
#[verifier::rlimit(60)]
proof fn lemma_session_extend(
    old_seen: Seq<Vec<u8>>,
    new_seen: Seq<Vec<u8>>,
    old_raw: Seq<Seq<u8>>,
    new_raw: Seq<Seq<u8>>,
    source: Seq<u8>,
    raw: Vec<u8>,
)
    requires
        new_seen == old_seen.push(raw),
        old_seen.len() > 0,
        old_seen[0]@ == source,
        forall|i: int, j: int|
            0 <= i < j < old_seen.len() ==> (#[trigger] old_seen[i])@ != (
            #[trigger] old_seen[j])@,
        forall|i: int| 0 <= i < old_seen.len() ==> (#[trigger] old_seen[i])@ != raw@,
        forall|p: int|
            0 <= p < old_raw.len() ==> exists|i: int|
                0 <= i < old_seen.len() && #[trigger] old_raw[p] == old_seen[i]@,
        forall|p: int| 0 <= p < old_raw.len() ==> #[trigger] old_raw[p] != source,
        forall|p: int, q: int|
            0 <= p < q < old_raw.len() ==> (#[trigger] old_raw[p]) != (#[trigger] old_raw[q]),
        new_raw == old_raw || new_raw == old_raw.push(raw@),
    ensures
        new_seen.len() > 0,
        new_seen[0]@ == source,
        forall|i: int, j: int|
            0 <= i < j < new_seen.len() ==> (#[trigger] new_seen[i])@ != (
            #[trigger] new_seen[j])@,
        forall|p: int|
            0 <= p < new_raw.len() ==> exists|i: int|
                0 <= i < new_seen.len() && #[trigger] new_raw[p] == new_seen[i]@,
        forall|p: int| 0 <= p < new_raw.len() ==> #[trigger] new_raw[p] != source,
        forall|p: int, q: int|
            0 <= p < q < new_raw.len() ==> (#[trigger] new_raw[p]) != (#[trigger] new_raw[q]),
{
    assert forall|i: int, j: int| 0 <= i < j < new_seen.len() implies (#[trigger] new_seen[i])@
        != (#[trigger] new_seen[j])@ by {
        if j == new_seen.len() - 1 {
            assert(new_seen[i] == old_seen[i]);
            assert(new_seen[j] == raw);
        } else {
            assert(new_seen[i] == old_seen[i] && new_seen[j] == old_seen[j]);
        }
    }
    assert forall|p: int| 0 <= p < new_raw.len() implies exists|i: int|
        0 <= i < new_seen.len() && #[trigger] new_raw[p] == new_seen[i]@ by {
        if p < old_raw.len() {
            assert(exists|i: int| 0 <= i < old_seen.len() && #[trigger] old_raw[p] == old_seen[i]@);
            let i = choose|i: int| 0 <= i < old_seen.len() && #[trigger] old_raw[p] == old_seen[i]@;
            assert(new_seen[i] == old_seen[i]);
            assert(0 <= i < new_seen.len() && new_raw[p] == new_seen[i]@);
        } else {
            assert(new_raw[p] == raw@);
            assert(new_seen[new_seen.len() - 1]@ == raw@);
            assert(0 <= new_seen.len() - 1 < new_seen.len() && new_raw[p] == new_seen[new_seen.len() - 1]@);
        }
    }
    assert forall|p: int| 0 <= p < new_raw.len() implies #[trigger] new_raw[p] != source by {
        if p >= old_raw.len() {
            assert(new_raw[p] == raw@);
            assert(old_seen[0]@ != raw@);
        }
    }
    assert forall|p: int, q: int| 0 <= p < q < new_raw.len() implies (#[trigger] new_raw[p]) != (
    #[trigger] new_raw[q]) by {
        if q >= old_raw.len() {
            assert(new_raw[q] == raw@);
            let i = choose|i: int| 0 <= i < old_seen.len() && old_raw[p] == old_seen[i]@;
            assert(old_seen[i]@ != raw@);
            assert(new_raw[p] == old_raw[p]);
        }
    }
}

/// `t` is a rewrite that some discovered mutation point's generator may
/// produce over source `src`.
pub open spec fn rewrite_of_point(
    kinds: Seq<MutationType>,
    groups: Seq<Seq<AstV>>,
    src: Seq<u8>,
    t: Seq<u8>,
) -> bool {
    exists|i: int, j: int|
        0 <= i < kinds.len() && 0 <= j < groups[i].len() && crate::mutation::spec_mutant_ok(
            kinds[i],
            #[trigger] groups[i][j],
            src,
            t,
        )
}

/// A running generation session: the discovered points, the kind queue, the
/// random stream, the deduplication memory, and the mutants produced so far.
pub struct MutationRun {
    source: Vec<u8>,
    kinds: Vec<MutationType>,
    groups: Vec<Vec<SolAST>>,
    todo: Vec<MutationType>,
    rand: rand_pcg::Pcg64,
    seen: Vec<Vec<u8>>,
    attempts: i64,
    total_attempts: i64,
    mutants: Vec<Vec<u8>>,
    pending: Option<(MutationType, Vec<u8>)>,
    mutant_raw: Ghost<Seq<Seq<u8>>>,
}

impl MutationRun {
    /// The original source text.
    pub closed spec fn source_view(self) -> Seq<u8> {
        self.source@
    }

    /// The raw candidate text of each persisted mutant, in order.
    pub closed spec fn raw_texts(self) -> Seq<Seq<u8>> {
        self.mutant_raw@
    }

    /// The annotated text of each persisted mutant, in order.
    pub closed spec fn mutants_view(self) -> Seq<Seq<u8>> {
        self.mutants.deep_view()
    }

    pub closed spec fn attempts_spec(self) -> int {
        self.attempts as int
    }

    pub closed spec fn total_attempts_spec(self) -> int {
        self.total_attempts as int
    }

    pub closed spec fn todo_view(self) -> Seq<MutationType> {
        self.todo@
    }

    pub closed spec fn kinds_view(self) -> Seq<MutationType> {
        self.kinds@
    }

    pub closed spec fn pending_view(self) -> Option<(MutationType, Seq<u8>)> {
        match self.pending {
            Some(p) => Some((p.0, p.1@)),
            None => None,
        }
    }

    /// The discovered nodes, grouped by kind.
    pub closed spec fn groups_view(self) -> Seq<Seq<AstV>> {
        Seq::new(self.groups@.len(), |i: int| self.groups@[i].deep_view())
    }

    /// The deduplication memory.
    pub closed spec fn seen_view(self) -> Seq<Seq<u8>> {
        Seq::new(self.seen@.len(), |i: int| self.seen@[i]@)
    }

    /// The session invariant: every queued kind is discovered, every stored
    /// node satisfies its kind's predicate and has the spans its generator
    /// needs, the deduplication memory starts with the original text and
    /// holds no duplicates, and every persisted mutant's raw text is a fresh
    /// member of that memory.
    pub closed spec fn wf(self) -> bool {
        &&& self.kinds@.len() == self.groups@.len()
        &&& forall|i: int| 0 <= i < self.groups@.len() ==> (#[trigger] self.groups@[i])@.len() > 0
        &&& forall|i: int, j: int|
            0 <= i < self.groups@.len() && 0 <= j < self.groups@[i]@.len()
                ==> crate::mutation::spec_is_mutation_point(
                self.kinds@[i],
                (#[trigger] self.groups@[i]@[j])@,
            ) && crate::mutation::spec_point_wf(
                self.kinds@[i],
                self.groups@[i]@[j]@,
                self.source@.len() as int,
            )
        &&& forall|t: int|
            0 <= t < self.todo@.len() ==> self.kinds@.contains(#[trigger] self.todo@[t])
        &&& self.seen@.len() > 0
        &&& self.seen@[0]@ == self.source@
        &&& forall|i: int, j: int|
            0 <= i < j < self.seen@.len() ==> (#[trigger] self.seen@[i])@ != (
            #[trigger] self.seen@[j])@
        &&& self.mutants@.len() == self.mutant_raw@.len()
        &&& forall|p: int|
            0 <= p < self.mutant_raw@.len() ==> exists|i: int|
                0 <= i < self.seen@.len() && #[trigger] self.mutant_raw@[p] == self.seen@[i]@
        &&& forall|p: int|
            0 <= p < self.mutant_raw@.len() ==> #[trigger] self.mutant_raw@[p] != self.source@
        &&& forall|p: int, q: int|
            0 <= p < q < self.mutant_raw@.len() ==> (#[trigger] self.mutant_raw@[p]) != (
            #[trigger] self.mutant_raw@[q])
        &&& 0 <= self.attempts
        &&& (self.pending matches Some(p) ==> self.kinds@.contains(p.0) && self.attempts
            < self.total_attempts && (forall|i: int|
            0 <= i < self.seen@.len() ==> (#[trigger] self.seen@[i])@ != p.1@)
            && rewrite_of_point(self.kinds@, self.groups_view(), self.source@, p.1@))
        &&& forall|p: int|
            0 <= p < self.mutant_raw@.len() ==> rewrite_of_point(
                self.kinds@,
                self.groups_view(),
                self.source@,
                #[trigger] self.mutant_raw@[p],
            )
    }

    /// The mutants persisted so far, annotated.
    pub fn mutants(&self) -> (r: &Vec<Vec<u8>>)
        ensures
            r.deep_view() == self.mutants_view(),
    {
        &self.mutants
    }

    /// The mutants, consuming the session.
    pub fn into_mutants(self) -> (r: Vec<Vec<u8>>)
        ensures
            r.deep_view() == self.mutants_view(),
    {
        self.mutants
    }

    /// How many attempts the loop has spent.
    pub fn attempts(&self) -> (r: i64)
        ensures
            r as int == self.attempts_spec(),
    {
        self.attempts
    }

    /// The attempt budget.
    pub fn total_attempts(&self) -> (r: i64)
        ensures
            r as int == self.total_attempts_spec(),
    {
        self.total_attempts
    }

    /// Advance until a fresh candidate awaits the external validity check.
    /// Duplicates are consumed internally: each one requeues its kind and
    /// costs an attempt.  `None` means the run is over: the queue is empty
    /// or the attempt budget is spent.
    pub fn next_candidate(&mut self) -> (r: Option<Vec<u8>>)
        requires
            old(self).wf(),
            old(self).pending_view() is None,
        ensures
            final(self).wf(),
            final(self).source_view() == old(self).source_view(),
            final(self).kinds_view() == old(self).kinds_view(),
            final(self).total_attempts_spec() == old(self).total_attempts_spec(),
            final(self).mutants_view() == old(self).mutants_view(),
            final(self).raw_texts() == old(self).raw_texts(),
            match r {
                Some(t) => final(self).pending_view() matches Some(p) && p.1 == t@ && (
                forall|i: int|
                    0 <= i < final(self).seen_view().len()
                        ==> #[trigger] final(self).seen_view()[i] != t@),
                None => final(self).pending_view() is None && (final(self).todo_view().len() == 0
                    || final(self).attempts_spec() >= final(self).total_attempts_spec()),
            },
    {
        while self.todo.len() > 0 && self.attempts < self.total_attempts
            invariant
                self.wf(),
                self.pending is None,
                self.source@ == old(self).source@,
                self.kinds@ == old(self).kinds@,
                self.groups@ == old(self).groups@,
                self.total_attempts == old(self).total_attempts,
                self.mutants@ == old(self).mutants@,
                self.mutant_raw@ == old(self).mutant_raw@,
                self.mutants.deep_view() == old(self).mutants.deep_view(),
            decreases self.total_attempts - self.attempts,
        {
            let kind = self.todo.remove(0);
            // Locate this kind's node list.
            let mut idx: usize = 0;
            while idx < self.kinds.len() && !(self.kinds[idx] == kind)
                invariant
                    0 <= idx <= self.kinds@.len(),
                    forall|k: int| 0 <= k < idx ==> self.kinds@[k] != kind,
                decreases self.kinds@.len() - idx,
            {
                idx += 1;
            }
            if idx >= self.kinds.len() {
                proof {
                    let j = choose|j: int|
                        0 <= j < self.kinds@.len() && self.kinds@[j] == kind;
                    assert(false);
                }
                return vstd::pervasive::unreached();
            }
            let n = self.groups[idx].len();
            let pick = rng_below(&mut self.rand, n);
            let candidate = kind.mutate_randomly(
                &self.groups[idx][pick],
                self.source.as_slice(),
                &mut self.rand,
            );
            if texts_contain(&self.seen, &candidate) {
                // Already produced once: retry the kind later.
                self.todo.push(kind);
                self.attempts = self.attempts + 1;
            } else {
                let copy = crate::bytes::dup_bytes(&candidate);
                proof {
                    assert(self.groups_view()[idx as int][pick as int] == self.groups@[
                        idx as int]@[pick as int]@);
                    assert(rewrite_of_point(
                        self.kinds@,
                        self.groups_view(),
                        self.source@,
                        candidate@,
                    ));
                }
                self.pending = Some((kind, candidate));
                return Some(copy);
            }
        }
        None
    }

    /// Resolve the pending candidate with the validity service's verdict.
    /// A valid candidate is annotated with its provenance and persisted; an
    /// invalid one requeues its kind.  Either way the candidate joins the
    /// deduplication memory and the attempt is counted.
    pub fn report_validity(&mut self, valid: bool) -> (r: Option<Vec<u8>>)
        requires
            old(self).wf(),
            old(self).pending_view() is Some,
        ensures
            final(self).wf(),
            final(self).pending_view() is None,
            final(self).source_view() == old(self).source_view(),
            final(self).kinds_view() == old(self).kinds_view(),
            final(self).total_attempts_spec() == old(self).total_attempts_spec(),
            final(self).attempts_spec() == old(self).attempts_spec() + 1,
            ({
                let p = old(self).pending_view()->0;
                if valid {
                    &&& r matches Some(ann) && ann@ == spec_annotate(
                        old(self).source_view(),
                        p.1,
                        crate::mutation::spec_kind_name(p.0),
                    )
                    &&& final(self).raw_texts() == old(self).raw_texts().push(p.1)
                    &&& final(self).mutants_view() == old(self).mutants_view().push(
                        spec_annotate(
                            old(self).source_view(),
                            p.1,
                            crate::mutation::spec_kind_name(p.0),
                        ),
                    )
                    &&& final(self).todo_view() == old(self).todo_view()
                } else {
                    &&& r is None
                    &&& final(self).raw_texts() == old(self).raw_texts()
                    &&& final(self).mutants_view() == old(self).mutants_view()
                    &&& final(self).todo_view() == old(self).todo_view().push(p.0)
                }
            }),
    {
        let p = self.pending.take();
        match p {
            Some((kind, raw)) => {
                self.attempts = self.attempts + 1;
                if valid {
                    let kname = kind.name_bytes();
                    let ann = RunMutations::add_mutant_comment(
                        self.source.as_slice(),
                        raw.as_slice(),
                        kname.as_slice(),
                    );
                    let copy = crate::bytes::dup_bytes(&ann);
                    let ghost old_raws = self.mutant_raw@;
                    self.mutants.push(ann);
                    proof {
                        self.mutant_raw@ = old_raws.push(raw@);
                    }
                    self.seen.push(raw);
                    proof {
                        assert(self.groups_view() =~~= old(self).groups_view());
                        assert forall|p: int| 0 <= p < self.mutant_raw@.len() implies
                            rewrite_of_point(
                            self.kinds@,
                            self.groups_view(),
                            self.source@,
                            #[trigger] self.mutant_raw@[p],
                        ) by {
                            if p == self.mutant_raw@.len() - 1 {
                                assert(self.mutant_raw@[p] == raw@);
                            } else {
                                assert(rewrite_of_point(
                                    old(self).kinds@,
                                    old(self).groups_view(),
                                    old(self).source@,
                                    old(self).mutant_raw@[p],
                                ));
                            }
                        }
                        let pv = old(self).pending_view()->0;
                        assert(self.mutants.deep_view() =~~= old(self).mutants.deep_view().push(
                            spec_annotate(
                                old(self).source@,
                                pv.1,
                                crate::mutation::spec_kind_name(pv.0),
                            ),
                        ));
                        lemma_session_extend(old(self).seen@, self.seen@, old(self).mutant_raw@,
                            self.mutant_raw@, old(self).source@, raw);
                    }
                    Some(copy)
                } else {
                    self.todo.push(kind);
                    self.seen.push(raw);
                    proof {
                        lemma_session_extend(old(self).seen@, self.seen@, old(self).mutant_raw@,
                            self.mutant_raw@, old(self).source@, raw);
                        assert forall|t: int| 0 <= t < self.todo@.len() implies self.kinds@
                            .contains(#[trigger] self.todo@[t]) by {
                            if t < self.todo@.len() - 1 {
                                assert(self.todo@[t] == old(self).todo@[t]);
                            } else {
                                assert(self.todo@[t] == kind);
                            }
                        }
                    }
                    None
                }
            }
            None => vstd::pervasive::unreached(),
        }
    }
}

} // verus!

verus! {

/// Every point discovered in the tree carries the spans its generator needs.
pub open spec fn spec_all_points_wf(a: AstV, cfg: ScopeSpec, len: int) -> bool {
    forall|p: int|
        0 <= p < spec_discover(a, cfg, false).len() ==> crate::mutation::spec_point_wf(
            (#[trigger] spec_discover(a, cfg, false)[p]).0,
            spec_discover(a, cfg, false)[p].1,
            len,
        )
}

impl RunMutations {
    /// Traverse once to discover every mutation point under the configured
    /// scope, reject the run when a discovered node is malformed, spread the
    /// quota across the discovered kinds, and return the ready session.
    /// An empty discovery yields a session that is immediately done, with
    /// zero mutants.
    pub fn get_mutations(self, source: Vec<u8>) -> (r: Result<MutationRun, RunError>)
        requires
            self.num_mutants <= i64::MAX / 50,
            self.num_mutants >= -(i64::MAX / 50),
        ensures
            ({
                let cfg = ScopeSpec {
                    kinds: self.mutation_types@,
                    funcs: opt_strs_view(self.funcs_to_mutate),
                    contract: opt_str_view(self.contract),
                };
                let pv = spec_discover(self.node@, cfg, false);
                match r {
                    Ok(run) => {
                        &&& run.wf()
                        &&& run.source_view() == source@
                        &&& run.kinds_view() == spec_group_kinds(pv)
                        &&& run.todo_view() == spec_schedule(
                            spec_group_kinds(pv),
                            self.num_mutants as int,
                        )
                        &&& run.attempts_spec() == 0
                        &&& run.total_attempts_spec() == self.num_mutants * ATTEMPTS
                        &&& run.mutants_view().len() == 0
                        &&& run.raw_texts().len() == 0
                        &&& run.pending_view() is None
                        &&& spec_all_points_wf(self.node@, cfg, source@.len() as int)
                    }
                    Err(e) => !spec_all_points_wf(self.node@, cfg, source@.len() as int),
                }
            }),
    {
        let ghost self0 = self;
        let RunMutations {
            fnm: _,
            node,
            num_mutants,
            rand,
            out: _,
            mutation_types,
            funcs_to_mutate,
            contract,
        } = self;
        let ghost cfg = ScopeSpec {
            kinds: mutation_types@,
            funcs: opt_strs_view(funcs_to_mutate),
            contract: opt_str_view(contract),
        };
        let pairs = node.traverse(&mutation_types, &funcs_to_mutate, &contract);
        let ghost pv = pairs_view(pairs@);
        // Malformed input aborts the run: a discovered node must carry the
        // spans its generator needs.
        let mut ci: usize = 0;
        while ci < pairs.len()
            invariant
                self0 == self,
                0 <= ci <= pairs@.len(),
                pv == pairs_view(pairs@),
                pv.len() == pairs@.len(),
                pv == spec_discover(
                    self0.node@,
                    ScopeSpec {
                        kinds: self0.mutation_types@,
                        funcs: opt_strs_view(self0.funcs_to_mutate),
                        contract: opt_str_view(self0.contract),
                    },
                    false,
                ),
                forall|p: int|
                    0 <= p < ci ==> crate::mutation::spec_point_wf(
                        (#[trigger] pv[p]).0,
                        pv[p].1,
                        source@.len() as int,
                    ),
            decreases pairs@.len() - ci,
        {
            proof {
                assert(pv[ci as int] == (pairs@[ci as int].0, pairs@[ci as int].1@));
            }
            if !point_wf_check(pairs[ci].0, &pairs[ci].1, source.len()) {
                proof {
                    let dpv = spec_discover(
                        self0.node@,
                        ScopeSpec {
                            kinds: self0.mutation_types@,
                            funcs: opt_strs_view(self0.funcs_to_mutate),
                            contract: opt_str_view(self0.contract),
                        },
                        false,
                    );
                    assert(dpv == pv);
                    assert(0 <= ci < dpv.len() && !crate::mutation::spec_point_wf(
                        dpv[ci as int].0,
                        dpv[ci as int].1,
                        source@.len() as int,
                    ));
                    let cfg0 = ScopeSpec {
                        kinds: self0.mutation_types@,
                        funcs: opt_strs_view(self0.funcs_to_mutate),
                        contract: opt_str_view(self0.contract),
                    };
                    assert(!spec_all_points_wf(self0.node@, cfg0, source@.len() as int)) by {
                        if spec_all_points_wf(self0.node@, cfg0, source@.len() as int) {
                            assert(crate::mutation::spec_point_wf(
                                (dpv[ci as int]).0,
                                dpv[ci as int].1,
                                source@.len() as int,
                            ));
                        }
                    }
                }
                return Err(RunError::MalformedNode);
            }
            ci += 1;
        }
        // Group the points: kinds in order of first appearance, each with
        // its nodes in discovery order.
        let mut kinds: Vec<MutationType> = Vec::new();
        let mut groups: Vec<Vec<SolAST>> = Vec::new();
        let mut i: usize = 0;
        proof {
            assert(pv.take(0) =~= Seq::<(MutationType, AstV)>::empty());
        }
        while i < pairs.len()
            invariant
                0 <= i <= pairs@.len(),
                pv == pairs_view(pairs@),
                pv.len() == pairs@.len(),
                kinds@.len() == groups@.len(),
                kinds@ =~= spec_group_kinds(pv.take(i as int)),
                forall|t: int|
                    0 <= t < kinds@.len() ==> (#[trigger] groups@[t]).deep_view()
                        =~= spec_nodes_for(pv.take(i as int), kinds@[t]),
            decreases pairs@.len() - i,
        {
            proof {
                assert(pv[i as int] == (pairs@[i as int].0, pairs@[i as int].1@));
                lemma_group_distinct(pv.take(i as int));
            }
            let k = pairs[i].0;
            let n = pairs[i].1.duplicate();
            let mut idx: usize = 0;
            while idx < kinds.len() && !(kinds[idx] == k)
                invariant
                    0 <= idx <= kinds@.len(),
                    forall|t: int| 0 <= t < idx ==> kinds@[t] != k,
                decreases kinds@.len() - idx,
            {
                idx += 1;
            }
            let ghost prefix = pv.take(i as int);
            let ghost prefix2 = pv.take(i + 1);
            proof {
                assert(prefix2.drop_last() =~= prefix);
                assert(prefix2.last() == pv[i as int]);
            }
            if idx < kinds.len() {
                proof {
                    assert(kinds@.contains(k));
                    assert(spec_group_kinds(prefix2) =~= kinds@);
                }
                let ghost g0 = groups@;
                let mut g = groups.remove(idx);
                let ghost gmid = g@;
                g.push(n);
                groups.insert(idx, g);
                proof {
                    assert(gmid == g0[idx as int]@);
                    assert forall|t: int| 0 <= t < groups@.len() implies #[trigger] groups@[t]
                        == (if t == idx {
                        g
                    } else {
                        g0[t]
                    }) by {
                        if t < idx {
                            assert(g0.remove(idx as int)[t] == g0[t]);
                        } else if t > idx {
                            assert(g0.remove(idx as int)[t - 1] == g0[t]);
                        }
                    }
                    assert forall|t: int| 0 <= t < kinds@.len() implies (
                    #[trigger] groups@[t]).deep_view() =~= spec_nodes_for(prefix2, kinds@[t]) by {
                        if t == idx {
                            assert(groups@[t] == g);
                            assert(g.deep_view() =~~= g0[idx as int].deep_view().push(
                                pv[i as int].1,
                            ));
                            assert(spec_nodes_for(prefix2, kinds@[t]) =~= spec_nodes_for(
                                prefix,
                                kinds@[t],
                            ) + seq![pv[i as int].1]);
                            assert(g.deep_view() =~~= spec_nodes_for(prefix2, kinds@[t]));
                        } else {
                            assert(groups@[t] == g0[t]);
                            assert(kinds@[t] != k);
                            assert(spec_nodes_for(prefix2, kinds@[t]) =~= spec_nodes_for(
                                prefix,
                                kinds@[t],
                            ));
                        }
                    }
                }
            } else {
                proof {
                    if kinds@.contains(k) {
                        let j = choose|j: int| 0 <= j < kinds@.len() && kinds@[j] == k;
                        assert(false);
                    }
                    assert(spec_group_kinds(prefix2) =~= kinds@.push(k));
                }
                kinds.push(k);
                let mut g: Vec<SolAST> = Vec::new();
                g.push(n);
                groups.push(g);
                proof {
                    lemma_group_absent(prefix, k);
                    assert forall|t: int| 0 <= t < kinds@.len() implies (
                    #[trigger] groups@[t]).deep_view() =~= spec_nodes_for(prefix2, kinds@[t]) by {
                        if t == kinds@.len() - 1 {
                            assert(groups@[t].deep_view() =~~= seq![pv[i as int].1]);
                            assert(spec_nodes_for(prefix2, k) =~= spec_nodes_for(prefix, k)
                                + seq![pv[i as int].1]);
                        } else {
                            assert(spec_nodes_for(prefix2, kinds@[t]) =~= spec_nodes_for(
                                prefix,
                                kinds@[t],
                            ));
                        }
                    }
                }
            }
            i += 1;
        }
        proof {
            assert(pv.take(pv.len() as int) =~= pv);
        }
        // Schedule: full passes over the discovered kinds, the last pass
        // truncated, spreading the quota evenly.
        let mut todo: Vec<MutationType> = Vec::new();
        if kinds.len() > 0 && num_mutants > 0 {
            let mut remaining: i64 = num_mutants;
            while remaining > 0
                invariant
                    kinds@.len() > 0,
                    remaining <= num_mutants,
                    spec_schedule(kinds@, num_mutants as int) =~= todo@ + spec_schedule(
                        kinds@,
                        remaining as int,
                    ),
                decreases remaining,
            {
                let ghost rem0 = remaining as int;
                let ghost base = todo@;
                let mut c: usize = 0;
                while c < kinds.len() && remaining > 0
                    invariant
                        0 <= c <= kinds@.len(),
                        remaining == rem0 - c,
                        c <= rem0,
                        todo@ =~= base + kinds@.take(c as int),
                    decreases kinds@.len() - c,
                {
                    todo.push(kinds[c]);
                    proof {
                        assert(todo@ =~= base + kinds@.take(c + 1));
                    }
                    c += 1;
                    remaining = remaining - 1;
                }
                proof {
                    if c == kinds@.len() {
                        assert(kinds@.take(c as int) =~= kinds@);
                        assert(spec_schedule(kinds@, rem0) =~= kinds@ + spec_schedule(
                            kinds@,
                            rem0 - kinds@.len(),
                        ));
                    } else {
                        assert(remaining == 0);
                        assert(rem0 == c);
                        assert(rem0 < kinds@.len());
                        assert(spec_schedule(kinds@, rem0) =~= kinds@.take(rem0));
                    }
                    assert(spec_schedule(kinds@, num_mutants as int) =~= todo@ + spec_schedule(
                        kinds@,
                        remaining as int,
                    ));
                }
            }
        }
        let mut seen: Vec<Vec<u8>> = Vec::new();
        seen.push(crate::bytes::dup_bytes(&source));
        proof {
            vstd::arithmetic::div_mod::lemma_fundamental_div_mod(i64::MAX as int, 50);
            vstd::arithmetic::div_mod::lemma_mod_bound(i64::MAX as int, 50);
            assert(50 * ((i64::MAX as int) / 50) <= i64::MAX as int);
            assert(num_mutants as int * 50 <= 50 * ((i64::MAX as int) / 50))
                by (nonlinear_arith)
                requires
                    num_mutants as int <= (i64::MAX as int) / 50,
            ;
            assert(num_mutants as int * 50 >= -(50 * ((i64::MAX as int) / 50)))
                by (nonlinear_arith)
                requires
                    num_mutants as int >= -((i64::MAX as int) / 50),
            ;
        }
        let total_attempts: i64 = num_mutants * ATTEMPTS;
        let run = MutationRun {
            source,
            kinds,
            groups,
            todo,
            rand,
            seen,
            attempts: 0,
            total_attempts,
            mutants: Vec::new(),
            pending: None,
            mutant_raw: Ghost(Seq::empty()),
        };
        proof {
            let cfg0 = ScopeSpec {
                kinds: self0.mutation_types@,
                funcs: opt_strs_view(self0.funcs_to_mutate),
                contract: opt_str_view(self0.contract),
            };
            assert(spec_all_points_wf(self0.node@, cfg0, run.source@.len() as int)) by {
                assert forall|p: int|
                    0 <= p < spec_discover(self0.node@, cfg0, false).len() implies
                    crate::mutation::spec_point_wf(
                    (#[trigger] spec_discover(self0.node@, cfg0, false)[p]).0,
                    spec_discover(self0.node@, cfg0, false)[p].1,
                    run.source@.len() as int,
                ) by {
                    assert(spec_discover(self0.node@, cfg0, false)[p] == pv[p]);
                }
            }
            assert forall|t: int|
                0 <= t < run.todo@.len() implies run.kinds@.contains(
                #[trigger] run.todo@[t]) by {
                lemma_schedule_members(run.kinds@, num_mutants as int, t);
            }
            assert forall|t: int| 0 <= t < run.groups@.len() implies (
            #[trigger] run.groups@[t])@.len() > 0 by {
                lemma_group_nonempty(pv, run.kinds@[t]);
                assert(run.groups@[t].deep_view().len() == run.groups@[t]@.len());
            }
            lemma_discover_applicable(
                self.node@,
                ScopeSpec {
                    kinds: self.mutation_types@,
                    funcs: opt_strs_view(self.funcs_to_mutate),
                    contract: opt_str_view(self.contract),
                },
                false,
            );
            assert forall|a: int, b: int|
                0 <= a < run.groups@.len() && 0 <= b < run.groups@[a]@.len() implies
                crate::mutation::spec_is_mutation_point(
                run.kinds@[a],
                (#[trigger] run.groups@[a]@[b])@,
            ) && crate::mutation::spec_point_wf(
                run.kinds@[a],
                run.groups@[a]@[b]@,
                run.source@.len() as int,
            ) by {
                assert(run.groups@[a].deep_view()[b] == run.groups@[a]@[b]@);
                lemma_nodes_for_props(pv, run.kinds@[a], b, run.source@.len() as int);
            }
        }
        Ok(run)
    }
}

/// Every scheduled kind is one of the discovered kinds.
proof fn lemma_schedule_members(kinds: Seq<MutationType>, remaining: int, t: int)
    requires
        0 <= t < spec_schedule(kinds, remaining).len(),
    ensures
        kinds.contains(spec_schedule(kinds, remaining)[t]),
    decreases remaining,
{
    if kinds.len() == 0 || remaining <= 0 {
    } else if remaining >= kinds.len() {
        if t < kinds.len() {
            assert(spec_schedule(kinds, remaining)[t] == kinds[t]);
        } else {
            lemma_schedule_members(kinds, remaining - kinds.len(), t - kinds.len());
        }
    } else {
        assert(spec_schedule(kinds, remaining)[t] == kinds[t]);
    }
}

/// Every node grouped under a kind came from a discovered pair of that
/// kind, so it satisfies the kind's predicate; and when every discovered
/// point is well-formed, so is it.
proof fn lemma_nodes_for_props(ps: Seq<(MutationType, AstV)>, k: MutationType, b: int, len: int)
    requires
        0 <= b < spec_nodes_for(ps, k).len(),
        forall|p: int|
            0 <= p < ps.len() ==> crate::mutation::spec_is_mutation_point(
                (#[trigger] ps[p]).0,
                ps[p].1,
            ),
        forall|p: int|
            0 <= p < ps.len() ==> crate::mutation::spec_point_wf(
                (#[trigger] ps[p]).0,
                ps[p].1,
                len,
            ),
    ensures
        crate::mutation::spec_is_mutation_point(k, spec_nodes_for(ps, k)[b]),
        crate::mutation::spec_point_wf(k, spec_nodes_for(ps, k)[b], len),
    decreases ps.len(),
{
    if ps.len() > 0 {
        let rest = spec_nodes_for(ps.drop_last(), k);
        if b < rest.len() {
            lemma_nodes_for_props(ps.drop_last(), k, b, len);
        } else {
            assert(ps.last().0 == k);
            assert(spec_nodes_for(ps, k)[b] == ps.last().1);
            assert(ps.last() == ps[ps.len() - 1]);
        }
    }
}

} // verus!

verus! {

proof fn lemma_emit_applicable(kinds: Seq<MutationType>, a: AstV)
    ensures
        forall|p: int|
            0 <= p < spec_emit(kinds, a).len() ==> spec_is_mutation_point(
                (#[trigger] spec_emit(kinds, a)[p]).0,
                spec_emit(kinds, a)[p].1,
            ),
    decreases kinds.len(),
{
    if kinds.len() > 0 {
        lemma_emit_applicable(kinds.drop_first(), a);
        let head: Seq<(MutationType, AstV)> = if spec_is_mutation_point(kinds[0], a) {
            seq![(kinds[0], a)]
        } else {
            Seq::empty()
        };
        assert forall|p: int| 0 <= p < spec_emit(kinds, a).len() implies spec_is_mutation_point(
            (#[trigger] spec_emit(kinds, a)[p]).0,
            spec_emit(kinds, a)[p].1,
        ) by {
            if p >= head.len() {
                assert(spec_emit(kinds, a)[p] == spec_emit(kinds.drop_first(), a)[p
                    - head.len()]);
            }
        }
    }
}

proof fn lemma_discover_value_applicable(
    v: DocV,
    contract: Option<Seq<char>>,
    cfg: ScopeSpec,
    accepted: bool,
)
    ensures
        forall|p: int|
            0 <= p < spec_discover_value(v, contract, cfg, accepted).len()
                ==> spec_is_mutation_point(
                (#[trigger] spec_discover_value(v, contract, cfg, accepted)[p]).0,
                spec_discover_value(v, contract, cfg, accepted)[p].1,
            ),
    decreases v,
{
    let a = spec_new_ast(v, contract);
    let acc2 = accepted || spec_accept(cfg, a);
    if !spec_skip(a) {
        let own: Seq<(MutationType, AstV)> = if acc2 {
            spec_emit(cfg.kinds, a)
        } else {
            Seq::empty()
        };
        lemma_emit_applicable(cfg.kinds, a);
        match v {
            DocV::Object(fs) => {
                lemma_discover_fields_applicable(
                    fs,
                    spec_child_contract(fs, a.contract),
                    cfg,
                    acc2,
                );
                let rest = spec_discover_fields(fs, spec_child_contract(fs, a.contract), cfg, acc2);
                assert forall|p: int|
                    0 <= p < spec_discover_value(v, contract, cfg, accepted).len() implies
                    spec_is_mutation_point(
                    (#[trigger] spec_discover_value(v, contract, cfg, accepted)[p]).0,
                    spec_discover_value(v, contract, cfg, accepted)[p].1,
                ) by {
                    if p >= own.len() {
                        assert(spec_discover_value(v, contract, cfg, accepted)[p] == rest[p
                            - own.len()]);
                    } else {
                        assert(spec_discover_value(v, contract, cfg, accepted)[p] == own[p]);
                    }
                }
            }
            DocV::Array(es) => {
                lemma_discover_elems_applicable(es, contract, cfg, acc2);
                let rest = spec_discover_elems(es, contract, cfg, acc2);
                assert forall|p: int|
                    0 <= p < spec_discover_value(v, contract, cfg, accepted).len() implies
                    spec_is_mutation_point(
                    (#[trigger] spec_discover_value(v, contract, cfg, accepted)[p]).0,
                    spec_discover_value(v, contract, cfg, accepted)[p].1,
                ) by {
                    if p >= own.len() {
                        assert(spec_discover_value(v, contract, cfg, accepted)[p] == rest[p
                            - own.len()]);
                    } else {
                        assert(spec_discover_value(v, contract, cfg, accepted)[p] == own[p]);
                    }
                }
            }
            _ => {
                assert forall|p: int|
                    0 <= p < spec_discover_value(v, contract, cfg, accepted).len() implies
                    spec_is_mutation_point(
                    (#[trigger] spec_discover_value(v, contract, cfg, accepted)[p]).0,
                    spec_discover_value(v, contract, cfg, accepted)[p].1,
                ) by {
                    assert(spec_discover_value(v, contract, cfg, accepted)[p] == own[p]);
                }
            }
        }
    }
}

proof fn lemma_discover_fields_applicable(
    fs: Seq<(Seq<char>, DocV)>,
    contract: Option<Seq<char>>,
    cfg: ScopeSpec,
    accepted: bool,
)
    ensures
        forall|p: int|
            0 <= p < spec_discover_fields(fs, contract, cfg, accepted).len()
                ==> spec_is_mutation_point(
                (#[trigger] spec_discover_fields(fs, contract, cfg, accepted)[p]).0,
                spec_discover_fields(fs, contract, cfg, accepted)[p].1,
            ),
    decreases fs,
{
    if fs.len() > 0 {
        lemma_discover_value_applicable(fs[0].1, contract, cfg, accepted);
        lemma_discover_fields_applicable(fs.drop_first(), contract, cfg, accepted);
        let head = spec_discover_value(fs[0].1, contract, cfg, accepted);
        let rest = spec_discover_fields(fs.drop_first(), contract, cfg, accepted);
        assert forall|p: int|
            0 <= p < spec_discover_fields(fs, contract, cfg, accepted).len() implies
            spec_is_mutation_point(
            (#[trigger] spec_discover_fields(fs, contract, cfg, accepted)[p]).0,
            spec_discover_fields(fs, contract, cfg, accepted)[p].1,
        ) by {
            if p < head.len() {
                assert(spec_discover_fields(fs, contract, cfg, accepted)[p] == head[p]);
            } else {
                assert(spec_discover_fields(fs, contract, cfg, accepted)[p] == rest[p
                    - head.len()]);
            }
        }
    }
}

proof fn lemma_discover_elems_applicable(
    es: Seq<DocV>,
    contract: Option<Seq<char>>,
    cfg: ScopeSpec,
    accepted: bool,
)
    ensures
        forall|p: int|
            0 <= p < spec_discover_elems(es, contract, cfg, accepted).len()
                ==> spec_is_mutation_point(
                (#[trigger] spec_discover_elems(es, contract, cfg, accepted)[p]).0,
                spec_discover_elems(es, contract, cfg, accepted)[p].1,
            ),
    decreases es,
{
    if es.len() > 0 {
        lemma_discover_value_applicable(es[0], contract, cfg, accepted);
        lemma_discover_elems_applicable(es.drop_first(), contract, cfg, accepted);
        let head = spec_discover_value(es[0], contract, cfg, accepted);
        let rest = spec_discover_elems(es.drop_first(), contract, cfg, accepted);
        assert forall|p: int|
            0 <= p < spec_discover_elems(es, contract, cfg, accepted).len() implies
            spec_is_mutation_point(
            (#[trigger] spec_discover_elems(es, contract, cfg, accepted)[p]).0,
            spec_discover_elems(es, contract, cfg, accepted)[p].1,
        ) by {
            if p < head.len() {
                assert(spec_discover_elems(es, contract, cfg, accepted)[p] == head[p]);
            } else {
                assert(spec_discover_elems(es, contract, cfg, accepted)[p] == rest[p
                    - head.len()]);
            }
        }
    }
}

/// Predicate/generator pairing, discovery half: every discovered mutation
/// point satisfies its kind's applicability predicate.  Together with the
/// generator's precondition this keeps a generator from ever running where
/// its predicate is false.
pub proof fn lemma_discover_applicable(a: AstV, cfg: ScopeSpec, accepted: bool)
    ensures
        forall|p: int|
            0 <= p < spec_discover(a, cfg, accepted).len() ==> spec_is_mutation_point(
                (#[trigger] spec_discover(a, cfg, accepted)[p]).0,
                spec_discover(a, cfg, accepted)[p].1,
            ),
{
    let acc2 = accepted || spec_accept(cfg, a);
    if !spec_skip(a) {
        let own: Seq<(MutationType, AstV)> = if acc2 {
            spec_emit(cfg.kinds, a)
        } else {
            Seq::empty()
        };
        lemma_emit_applicable(cfg.kinds, a);
        let rest: Seq<(MutationType, AstV)> = match a.element {
            Some(v) => match v {
                DocV::Object(fs) => {
                    lemma_discover_fields_applicable(
                        fs,
                        spec_child_contract(fs, a.contract),
                        cfg,
                        acc2,
                    );
                    spec_discover_fields(fs, spec_child_contract(fs, a.contract), cfg, acc2)
                }
                DocV::Array(es) => {
                    lemma_discover_elems_applicable(es, a.contract, cfg, acc2);
                    spec_discover_elems(es, a.contract, cfg, acc2)
                }
                _ => Seq::empty(),
            },
            None => Seq::empty(),
        };
        assert forall|p: int|
            0 <= p < spec_discover(a, cfg, accepted).len() implies spec_is_mutation_point(
            (#[trigger] spec_discover(a, cfg, accepted)[p]).0,
            spec_discover(a, cfg, accepted)[p].1,
        ) by {
            assert(spec_discover(a, cfg, accepted) == own + rest);
            if p < own.len() {
                assert(spec_discover(a, cfg, accepted)[p] == own[p]);
            } else {
                assert(spec_discover(a, cfg, accepted)[p] == rest[p - own.len()]);
            }
        }
    }
}

} // verus!

verus! {

/// Discovery idempotence: the kind-to-nodes mapping is a pure function of
/// the tree and the scope, so two traversals of the same tree under the
/// same scope discover exactly the same points, and group them the same way.
pub proof fn lemma_discovery_idempotent(
    r1: Seq<(MutationType, SolAST)>,
    r2: Seq<(MutationType, SolAST)>,
    a: AstV,
    cfg: ScopeSpec,
)
    requires
        pairs_view(r1) == spec_discover(a, cfg, false),
        pairs_view(r2) == spec_discover(a, cfg, false),
    ensures
        pairs_view(r1) == pairs_view(r2),
        spec_group_kinds(pairs_view(r1)) == spec_group_kinds(pairs_view(r2)),
        forall|k: MutationType|
            spec_nodes_for(pairs_view(r1), k) == spec_nodes_for(pairs_view(r2), k),
{
}

/// Skip propagation: an assertion-check call contributes no mutation point,
/// and neither does anything below it — discovery never descends into the
/// pruned subtree.
pub proof fn lemma_skip_propagation(a: AstV, cfg: ScopeSpec, accepted: bool)
    requires
        spec_skip(a),
    ensures
        spec_discover(a, cfg, accepted) == Seq::<(MutationType, AstV)>::empty(),
{
}

/// Skip propagation for a value reached during the walk.
pub proof fn lemma_skip_propagation_value(
    v: DocV,
    contract: Option<Seq<char>>,
    cfg: ScopeSpec,
    accepted: bool,
)
    requires
        spec_skip(spec_new_ast(v, contract)),
    ensures
        spec_discover_value(v, contract, cfg, accepted) == Seq::<(MutationType, AstV)>::empty(),
{
}

/// Seen-set containment: no two mutants persisted by one run share their
/// candidate text, and the unmutated original text is never persisted.
pub proof fn lemma_seen_set_containment(run: MutationRun)
    requires
        run.wf(),
    ensures
        forall|p: int, q: int|
            0 <= p < q < run.raw_texts().len() ==> run.raw_texts()[p] != run.raw_texts()[q],
        forall|p: int| 0 <= p < run.raw_texts().len() ==> run.raw_texts()[p] != run.source_view(),
{
    assert forall|p: int, q: int|
        0 <= p < q < run.raw_texts().len() implies run.raw_texts()[p] != run.raw_texts()[q] by {
        assert((#[trigger] run.raw_texts()[p]) != (#[trigger] run.raw_texts()[q]));
    }
    assert forall|p: int|
        0 <= p < run.raw_texts().len() implies run.raw_texts()[p] != run.source_view() by {
        assert((#[trigger] run.raw_texts()[p]) != run.source_view());
    }
}

} // verus!

verus! {

/// No node in the value carries a contract declaration marker.
pub open spec fn marker_free(v: DocV) -> bool
    decreases v,
{
    match v {
        DocV::Object(fs) => !spec_haskey(fs, "contractKind"@) && marker_free_fields(fs),
        DocV::Array(es) => marker_free_elems(es),
        _ => true,
    }
}

pub open spec fn marker_free_fields(fs: Seq<(Seq<char>, DocV)>) -> bool
    decreases fs,
{
    fs.len() == 0 || (marker_free(fs[0].1) && marker_free_fields(fs.drop_first()))
}

pub open spec fn marker_free_elems(es: Seq<DocV>) -> bool
    decreases es,
{
    es.len() == 0 || (marker_free(es[0]) && marker_free_elems(es.drop_first()))
}

/// Contract declarations are not nested: below any node that carries the
/// marker, the whole subtree is marker free.
pub open spec fn no_nested_markers(v: DocV) -> bool
    decreases v,
{
    match v {
        DocV::Object(fs) => if spec_haskey(fs, "contractKind"@) {
            marker_free_fields(fs)
        } else {
            no_nested_fields(fs)
        },
        DocV::Array(es) => no_nested_elems(es),
        _ => true,
    }
}

pub open spec fn no_nested_fields(fs: Seq<(Seq<char>, DocV)>) -> bool
    decreases fs,
{
    fs.len() == 0 || (no_nested_markers(fs[0].1) && no_nested_fields(fs.drop_first()))
}

pub open spec fn no_nested_elems(es: Seq<DocV>) -> bool
    decreases es,
{
    es.len() == 0 || (no_nested_markers(es[0]) && no_nested_elems(es.drop_first()))
}

proof fn lemma_marker_free_no_nested(v: DocV)
    requires
        marker_free(v),
    ensures
        no_nested_markers(v),
    decreases v,
{
    match v {
        DocV::Object(fs) => {
            lemma_marker_free_no_nested_fields(fs);
        }
        DocV::Array(es) => {
            lemma_marker_free_no_nested_elems(es);
        }
        _ => {}
    }
}

proof fn lemma_marker_free_no_nested_fields(fs: Seq<(Seq<char>, DocV)>)
    requires
        marker_free_fields(fs),
    ensures
        no_nested_fields(fs),
    decreases fs,
{
    if fs.len() > 0 {
        lemma_marker_free_no_nested(fs[0].1);
        lemma_marker_free_no_nested_fields(fs.drop_first());
    }
}

proof fn lemma_marker_free_no_nested_elems(es: Seq<DocV>)
    requires
        marker_free_elems(es),
    ensures
        no_nested_elems(es),
    decreases es,
{
    if es.len() > 0 {
        lemma_marker_free_no_nested(es[0]);
        lemma_marker_free_no_nested_elems(es.drop_first());
    }
}

/// A node without an underlying value is never a mutation point.
proof fn lemma_emit_empty_node(kinds: Seq<MutationType>, a: AstV)
    requires
        a.element is None,
    ensures
        spec_emit(kinds, a) == Seq::<(MutationType, AstV)>::empty(),
    decreases kinds.len(),
{
    if kinds.len() > 0 {
        assert(!spec_is_mutation_point(kinds[0], a));
        lemma_emit_empty_node(kinds.drop_first(), a);
        assert(spec_emit(kinds, a) =~= Seq::<(MutationType, AstV)>::empty());
    }
}

/// The invariant carried down the walk for the contract-scope law.
pub open spec fn contract_scope_inv(
    v: DocV,
    contract: Option<Seq<char>>,
    accepted: bool,
    c: Seq<char>,
) -> bool {
    &&& (accepted ==> contract == Some(c) && marker_free(v))
    &&& (!accepted ==> no_nested_markers(v) && (contract == Some(c) ==> marker_free(v)))
}

proof fn lemma_contract_scope_value(
    v: DocV,
    contract: Option<Seq<char>>,
    cfg: ScopeSpec,
    accepted: bool,
    c: Seq<char>,
)
    requires
        cfg.contract == Some(c),
        cfg.funcs is None,
        contract_scope_inv(v, contract, accepted, c),
    ensures
        forall|p: int|
            0 <= p < spec_discover_value(v, contract, cfg, accepted).len() ==> (
            #[trigger] spec_discover_value(v, contract, cfg, accepted)[p]).1.contract == Some(c),
    decreases v,
{
    let a = spec_new_ast(v, contract);
    let acc2 = accepted || spec_accept(cfg, a);
    if !spec_skip(a) {
        let own: Seq<(MutationType, AstV)> = if acc2 {
            spec_emit(cfg.kinds, a)
        } else {
            Seq::empty()
        };
        // Emitted pairs carry the node itself; its attribution is `c` when
        // the walk is inside the scoped contract.
        assert forall|p: int| 0 <= p < own.len() implies (#[trigger] own[p]).1.contract == Some(
            c,
        ) by {
            if v is Null {
                lemma_emit_empty_node(cfg.kinds, a);
            } else {
                assert(a.contract == contract);
                assert(acc2);
                if !accepted {
                    assert(spec_accept(cfg, a));
                }
                lemma_emit_nodes(cfg.kinds, a, p);
            }
        }
        match v {
            DocV::Object(fs) => {
                let contract2 = spec_child_contract(fs, a.contract);
                assert forall|i: int| 0 <= i < fs.len() implies contract_scope_inv(
                    #[trigger] fs[i].1,
                    contract2,
                    acc2,
                    c,
                ) by {
                    lemma_marker_free_fields_index(fs, i);
                    lemma_no_nested_fields_index(fs, i);
                    if acc2 {
                        // Inside the contract: the subtree has no marker, so
                        // the attribution is unchanged.
                        assert(contract == Some(c));
                        assert(marker_free(v));
                        assert(!spec_haskey(fs, "contractKind"@));
                        assert(contract2 == contract);
                        assert(marker_free_fields(fs));
                    } else {
                        assert(contract != Some(c) || marker_free(v));
                        if contract == Some(c) {
                            // Attribution already matches the scope, so the
                            // accept predicate would have fired.
                            assert(spec_accept(cfg, a));
                            assert(false);
                        }
                        assert(no_nested_markers(v));
                        if spec_haskey(fs, "contractKind"@) {
                            assert(marker_free_fields(fs));
                            lemma_marker_free_fields_index(fs, i);
                            lemma_marker_free_no_nested(fs[i].1);
                        } else {
                            assert(contract2 == contract);
                        }
                    }
                }
                lemma_contract_scope_fields(fs, contract2, cfg, acc2, c);
                lemma_scope_concat(own, spec_discover_fields(fs, contract2, cfg, acc2), c);
            }
            DocV::Array(es) => {
                assert forall|i: int| 0 <= i < es.len() implies contract_scope_inv(
                    #[trigger] es[i],
                    contract,
                    acc2,
                    c,
                ) by {
                    lemma_marker_free_elems_index(es, i);
                    lemma_no_nested_elems_index(es, i);
                    if acc2 {
                        if !accepted {
                            assert(spec_accept(cfg, a));
                            assert(contract == Some(c));
                        }
                        assert(marker_free(v));
                    } else {
                        if contract == Some(c) {
                            assert(spec_accept(cfg, a));
                            assert(false);
                        }
                        lemma_no_nested_elems_index(es, i);
                    }
                }
                lemma_contract_scope_elems(es, contract, cfg, acc2, c);
                lemma_scope_concat(own, spec_discover_elems(es, contract, cfg, acc2), c);
            }
            _ => {
                lemma_scope_concat(own, Seq::empty(), c);
            }
        }
    }
}

/// An emitted pair's node is the visited node itself.
proof fn lemma_emit_nodes(kinds: Seq<MutationType>, a: AstV, p: int)
    requires
        0 <= p < spec_emit(kinds, a).len(),
    ensures
        spec_emit(kinds, a)[p].1 == a,
    decreases kinds.len(),
{
    if kinds.len() > 0 {
        let head: Seq<(MutationType, AstV)> = if spec_is_mutation_point(kinds[0], a) {
            seq![(kinds[0], a)]
        } else {
            Seq::empty()
        };
        if p >= head.len() {
            lemma_emit_nodes(kinds.drop_first(), a, p - head.len());
            assert(spec_emit(kinds, a)[p] == spec_emit(kinds.drop_first(), a)[p - head.len()]);
        }
    }
}

proof fn lemma_marker_free_fields_index(fs: Seq<(Seq<char>, DocV)>, i: int)
    requires
        0 <= i < fs.len(),
    ensures
        marker_free_fields(fs) ==> marker_free(fs[i].1),
    decreases i,
{
    if i > 0 {
        lemma_marker_free_fields_index(fs.drop_first(), i - 1);
    }
}

proof fn lemma_marker_free_elems_index(es: Seq<DocV>, i: int)
    requires
        0 <= i < es.len(),
    ensures
        marker_free_elems(es) ==> marker_free(es[i]),
    decreases i,
{
    if i > 0 {
        lemma_marker_free_elems_index(es.drop_first(), i - 1);
    }
}

proof fn lemma_no_nested_fields_index(fs: Seq<(Seq<char>, DocV)>, i: int)
    requires
        0 <= i < fs.len(),
    ensures
        no_nested_fields(fs) ==> no_nested_markers(fs[i].1),
    decreases i,
{
    if i > 0 {
        lemma_no_nested_fields_index(fs.drop_first(), i - 1);
    }
}

proof fn lemma_no_nested_elems_index(es: Seq<DocV>, i: int)
    requires
        0 <= i < es.len(),
    ensures
        no_nested_elems(es) ==> no_nested_markers(es[i]),
    decreases i,
{
    if i > 0 {
        lemma_no_nested_elems_index(es.drop_first(), i - 1);
    }
}

/// Concatenating two lists whose pairs all carry attribution `c` keeps it.
proof fn lemma_scope_concat(
    xs: Seq<(MutationType, AstV)>,
    ys: Seq<(MutationType, AstV)>,
    c: Seq<char>,
)
    requires
        forall|p: int| 0 <= p < xs.len() ==> (#[trigger] xs[p]).1.contract == Some(c),
        forall|p: int| 0 <= p < ys.len() ==> (#[trigger] ys[p]).1.contract == Some(c),
    ensures
        forall|p: int| 0 <= p < (xs + ys).len() ==> (#[trigger] (xs + ys)[p]).1.contract == Some(
            c,
        ),
{
    assert forall|p: int| 0 <= p < (xs + ys).len() implies (#[trigger] (xs + ys)[p]).1.contract
        == Some(c) by {
        if p < xs.len() {
            assert((xs + ys)[p] == xs[p]);
        } else {
            assert((xs + ys)[p] == ys[p - xs.len()]);
        }
    }
}

proof fn lemma_contract_scope_fields(
    fs: Seq<(Seq<char>, DocV)>,
    contract: Option<Seq<char>>,
    cfg: ScopeSpec,
    accepted: bool,
    c: Seq<char>,
)
    requires
        cfg.contract == Some(c),
        cfg.funcs is None,
        forall|i: int|
            0 <= i < fs.len() ==> contract_scope_inv(#[trigger] fs[i].1, contract, accepted, c),
    ensures
        forall|p: int|
            0 <= p < spec_discover_fields(fs, contract, cfg, accepted).len() ==> (
            #[trigger] spec_discover_fields(fs, contract, cfg, accepted)[p]).1.contract == Some(
                c,
            ),
    decreases fs,
{
    if fs.len() > 0 {
        lemma_contract_scope_value(fs[0].1, contract, cfg, accepted, c);
        assert forall|i: int|
            0 <= i < fs.drop_first().len() implies contract_scope_inv(
            #[trigger] fs.drop_first()[i].1,
            contract,
            accepted,
            c,
        ) by {
            assert(fs.drop_first()[i] == fs[i + 1]);
        }
        lemma_contract_scope_fields(fs.drop_first(), contract, cfg, accepted, c);
        lemma_scope_concat(
            spec_discover_value(fs[0].1, contract, cfg, accepted),
            spec_discover_fields(fs.drop_first(), contract, cfg, accepted),
            c,
        );
    }
}

proof fn lemma_contract_scope_elems(
    es: Seq<DocV>,
    contract: Option<Seq<char>>,
    cfg: ScopeSpec,
    accepted: bool,
    c: Seq<char>,
)
    requires
        cfg.contract == Some(c),
        cfg.funcs is None,
        forall|i: int|
            0 <= i < es.len() ==> contract_scope_inv(#[trigger] es[i], contract, accepted, c),
    ensures
        forall|p: int|
            0 <= p < spec_discover_elems(es, contract, cfg, accepted).len() ==> (
            #[trigger] spec_discover_elems(es, contract, cfg, accepted)[p]).1.contract == Some(c),
    decreases es,
{
    if es.len() > 0 {
        lemma_contract_scope_value(es[0], contract, cfg, accepted, c);
        assert forall|i: int|
            0 <= i < es.drop_first().len() implies contract_scope_inv(
            #[trigger] es.drop_first()[i],
            contract,
            accepted,
            c,
        ) by {
            assert(es.drop_first()[i] == es[i + 1]);
        }
        lemma_contract_scope_elems(es.drop_first(), contract, cfg, accepted, c);
        lemma_scope_concat(
            spec_discover_value(es[0], contract, cfg, accepted),
            spec_discover_elems(es.drop_first(), contract, cfg, accepted),
            c,
        );
    }
}

/// Scope filtering, contract form: when the scope names contract `c`, the
/// tree nests no contract declaration inside another, and the root is not
/// already attributed to `c`, every discovered mutation point lies inside
/// `c` — its node carries the attribution `c`.
pub proof fn lemma_contract_scope(a: AstV, cfg: ScopeSpec, c: Seq<char>)
    requires
        cfg.contract == Some(c),
        cfg.funcs is None,
        a.element matches Some(v) ==> no_nested_markers(v) && (a.contract == Some(c)
            ==> marker_free(v)),
    ensures
        forall|p: int|
            0 <= p < spec_discover(a, cfg, false).len() ==> (
            #[trigger] spec_discover(a, cfg, false)[p]).1.contract == Some(c),
{
    let acc2 = spec_accept(cfg, a);
    if !spec_skip(a) {
        let own: Seq<(MutationType, AstV)> = if acc2 {
            spec_emit(cfg.kinds, a)
        } else {
            Seq::empty()
        };
        assert forall|p: int| 0 <= p < own.len() implies (#[trigger] own[p]).1.contract == Some(
            c,
        ) by {
            assert(acc2);
            assert(a.contract == Some(c));
            lemma_emit_nodes(cfg.kinds, a, p);
        }
        let rest: Seq<(MutationType, AstV)> = match a.element {
            Some(v) => match v {
                DocV::Object(fs) => {
                    let contract2 = spec_child_contract(fs, a.contract);
                    assert forall|i: int| 0 <= i < fs.len() implies contract_scope_inv(
                        #[trigger] fs[i].1,
                        contract2,
                        acc2,
                        c,
                    ) by {
                        lemma_marker_free_fields_index(fs, i);
                        lemma_no_nested_fields_index(fs, i);
                        if acc2 {
                            assert(a.contract == Some(c));
                            assert(marker_free(v));
                            assert(!spec_haskey(fs, "contractKind"@));
                        } else {
                            if spec_haskey(fs, "contractKind"@) {
                                assert(marker_free_fields(fs));
                                lemma_marker_free_fields_index(fs, i);
                                lemma_marker_free_no_nested(fs[i].1);
                            } else {
                                assert(contract2 == a.contract);
                                if contract2 == Some(c) {
                                    assert(spec_accept(cfg, a));
                                    assert(false);
                                }
                            }
                        }
                    }
                    lemma_contract_scope_fields(fs, contract2, cfg, acc2, c);
                    spec_discover_fields(fs, contract2, cfg, acc2)
                }
                DocV::Array(es) => {
                    assert forall|i: int| 0 <= i < es.len() implies contract_scope_inv(
                        #[trigger] es[i],
                        a.contract,
                        acc2,
                        c,
                    ) by {
                        lemma_marker_free_elems_index(es, i);
                        lemma_no_nested_elems_index(es, i);
                        if acc2 {
                            assert(a.contract == Some(c));
                            assert(marker_free(v));
                        } else {
                            if a.contract == Some(c) {
                                assert(spec_accept(cfg, a));
                                assert(false);
                            }
                        }
                    }
                    lemma_contract_scope_elems(es, a.contract, cfg, acc2, c);
                    spec_discover_elems(es, a.contract, cfg, acc2)
                }
                _ => Seq::empty(),
            },
            None => Seq::empty(),
        };
        lemma_scope_concat(own, rest, c);
        assert(spec_discover(a, cfg, false) == own + rest);
    }
}

} // verus!

verus! {

/// `u` occurs within `v`: it is `v` itself or sits somewhere below it.
pub open spec fn within(v: DocV, u: DocV) -> bool
    decreases v,
{
    v == u || (match v {
        DocV::Object(fs) => within_fields(fs, u),
        DocV::Array(es) => within_elems(es, u),
        _ => false,
    })
}

pub open spec fn within_fields(fs: Seq<(Seq<char>, DocV)>, u: DocV) -> bool
    decreases fs,
{
    fs.len() > 0 && (within(fs[0].1, u) || within_fields(fs.drop_first(), u))
}

pub open spec fn within_elems(es: Seq<DocV>, u: DocV) -> bool
    decreases es,
{
    es.len() > 0 && (within(es[0], u) || within_elems(es.drop_first(), u))
}

/// A function-definition node whose name stands in the allow-list.
pub open spec fn allowed_function(w: DocV, fnames: Seq<Seq<char>>) -> bool {
    &&& spec_get(w, "nodeType"@) == DocV::Text("FunctionDefinition"@)
    &&& (spec_get(w, "name"@) matches DocV::Text(n) && fnames.contains(n))
}

proof fn lemma_within_field(fs: Seq<(Seq<char>, DocV)>, i: int, u: DocV)
    requires
        0 <= i < fs.len(),
        within(fs[i].1, u),
    ensures
        within_fields(fs, u),
    decreases i,
{
    if i > 0 {
        lemma_within_field(fs.drop_first(), i - 1, u);
    }
}

proof fn lemma_within_elem(es: Seq<DocV>, i: int, u: DocV)
    requires
        0 <= i < es.len(),
        within(es[i], u),
    ensures
        within_elems(es, u),
    decreases i,
{
    if i > 0 {
        lemma_within_elem(es.drop_first(), i - 1, u);
    }
}

/// Every node a walk discovers lies within the value it started from.
proof fn lemma_discover_within(v: DocV, contract: Option<Seq<char>>, cfg: ScopeSpec, acc: bool)
    ensures
        forall|p: int|
            0 <= p < spec_discover_value(v, contract, cfg, acc).len() ==> ((
            #[trigger] spec_discover_value(v, contract, cfg, acc)[p]).1.element matches Some(u)
                ==> within(v, u)),
    decreases v,
{
    let a = spec_new_ast(v, contract);
    let acc2 = acc || spec_accept(cfg, a);
    if !spec_skip(a) {
        let own: Seq<(MutationType, AstV)> = if acc2 {
            spec_emit(cfg.kinds, a)
        } else {
            Seq::empty()
        };
        let out = spec_discover_value(v, contract, cfg, acc);
        match v {
            DocV::Object(fs) => {
                let contract2 = spec_child_contract(fs, a.contract);
                lemma_discover_within_fields(fs, contract2, cfg, acc2);
                let rest = spec_discover_fields(fs, contract2, cfg, acc2);
                assert forall|p: int| 0 <= p < out.len() implies ((#[trigger] out[p]).1.element
                    matches Some(u) ==> within(v, u)) by {
                    if p < own.len() {
                        lemma_emit_nodes(cfg.kinds, a, p);
                        assert(out[p] == own[p]);
                    } else {
                        assert(out[p] == rest[p - own.len()]);
                        if out[p].1.element is Some {
                            let u = out[p].1.element->0;
                            let i = choose|i: int|
                                0 <= i < fs.len() && within(#[trigger] fs[i].1, u);
                            lemma_within_field(fs, i, u);
                        }
                    }
                }
            }
            DocV::Array(es) => {
                lemma_discover_within_elems(es, contract, cfg, acc2);
                let rest = spec_discover_elems(es, contract, cfg, acc2);
                assert forall|p: int| 0 <= p < out.len() implies ((#[trigger] out[p]).1.element
                    matches Some(u) ==> within(v, u)) by {
                    if p < own.len() {
                        lemma_emit_nodes(cfg.kinds, a, p);
                        assert(out[p] == own[p]);
                    } else {
                        assert(out[p] == rest[p - own.len()]);
                        if out[p].1.element is Some {
                            let u = out[p].1.element->0;
                            let i = choose|i: int| 0 <= i < es.len() && within(#[trigger] es[i], u);
                            lemma_within_elem(es, i, u);
                        }
                    }
                }
            }
            _ => {
                assert forall|p: int| 0 <= p < out.len() implies ((#[trigger] out[p]).1.element
                    matches Some(u) ==> within(v, u)) by {
                    lemma_emit_nodes(cfg.kinds, a, p);
                    assert(out[p] == own[p]);
                }
            }
        }
    }
}

/// As [`lemma_discover_within`], with an explicit containing child.
proof fn lemma_discover_within_fields(
    fs: Seq<(Seq<char>, DocV)>,
    contract: Option<Seq<char>>,
    cfg: ScopeSpec,
    acc: bool,
)
    ensures
        forall|p: int|
            0 <= p < spec_discover_fields(fs, contract, cfg, acc).len() ==> ((
            #[trigger] spec_discover_fields(fs, contract, cfg, acc)[p]).1.element matches Some(u)
                ==> exists|i: int| 0 <= i < fs.len() && within(#[trigger] fs[i].1, u)),
    decreases fs,
{
    if fs.len() > 0 {
        lemma_discover_within(fs[0].1, contract, cfg, acc);
        lemma_discover_within_fields(fs.drop_first(), contract, cfg, acc);
        let head = spec_discover_value(fs[0].1, contract, cfg, acc);
        let rest = spec_discover_fields(fs.drop_first(), contract, cfg, acc);
        let out = spec_discover_fields(fs, contract, cfg, acc);
        assert forall|p: int| 0 <= p < out.len() implies ((#[trigger] out[p]).1.element
            matches Some(u) ==> exists|i: int| 0 <= i < fs.len() && within(
            #[trigger] fs[i].1,
            u,
        )) by {
            if p < head.len() {
                assert(out[p] == head[p]);
                if out[p].1.element is Some {
                    let u = out[p].1.element->0;
                    assert(within(fs[0].1, u));
                }
            } else {
                assert(out[p] == rest[p - head.len()]);
                if out[p].1.element is Some {
                    let u = out[p].1.element->0;
                    let i = choose|i: int|
                        0 <= i < fs.drop_first().len() && within(
                            #[trigger] fs.drop_first()[i].1,
                            u,
                        );
                    assert(fs.drop_first()[i] == fs[i + 1]);
                    assert(within(fs[i + 1].1, u));
                }
            }
        }
    }
}

proof fn lemma_discover_within_elems(
    es: Seq<DocV>,
    contract: Option<Seq<char>>,
    cfg: ScopeSpec,
    acc: bool,
)
    ensures
        forall|p: int|
            0 <= p < spec_discover_elems(es, contract, cfg, acc).len() ==> ((
            #[trigger] spec_discover_elems(es, contract, cfg, acc)[p]).1.element matches Some(u)
                ==> exists|i: int| 0 <= i < es.len() && within(#[trigger] es[i], u)),
    decreases es,
{
    if es.len() > 0 {
        lemma_discover_within(es[0], contract, cfg, acc);
        lemma_discover_within_elems(es.drop_first(), contract, cfg, acc);
        let head = spec_discover_value(es[0], contract, cfg, acc);
        let rest = spec_discover_elems(es.drop_first(), contract, cfg, acc);
        let out = spec_discover_elems(es, contract, cfg, acc);
        assert forall|p: int| 0 <= p < out.len() implies ((#[trigger] out[p]).1.element
            matches Some(u) ==> exists|i: int| 0 <= i < es.len() && within(#[trigger] es[i], u))
            by {
            if p < head.len() {
                assert(out[p] == head[p]);
                if out[p].1.element is Some {
                    let u = out[p].1.element->0;
                    assert(within(es[0], u));
                }
            } else {
                assert(out[p] == rest[p - head.len()]);
                if out[p].1.element is Some {
                    let u = out[p].1.element->0;
                    let i = choose|i: int|
                        0 <= i < es.drop_first().len() && within(#[trigger] es.drop_first()[i], u);
                    assert(es.drop_first()[i] == es[i + 1]);
                    assert(within(es[i + 1], u));
                }
            }
        }
    }
}

} // verus!

verus! {

/// The discovered node lies inside some allowed function within `v`.
pub open spec fn inside_allowed(v: DocV, fnames: Seq<Seq<char>>, node: AstV) -> bool {
    exists|w: DocV|
        #[trigger] within(v, w) && allowed_function(w, fnames) && (node.element matches Some(u)
            ==> within(w, u))
}

/// The discovered node lies inside some allowed function within a child.
pub open spec fn inside_allowed_fields(
    fs: Seq<(Seq<char>, DocV)>,
    fnames: Seq<Seq<char>>,
    node: AstV,
) -> bool {
    exists|i: int, w: DocV|
        0 <= i < fs.len() && #[trigger] within(fs[i].1, w) && allowed_function(w, fnames) && (
        node.element matches Some(u) ==> within(w, u))
}

/// The discovered node lies inside some allowed function within an element.
pub open spec fn inside_allowed_elems(es: Seq<DocV>, fnames: Seq<Seq<char>>, node: AstV) -> bool {
    exists|i: int, w: DocV|
        0 <= i < es.len() && #[trigger] within(es[i], w) && allowed_function(w, fnames) && (
        node.element matches Some(u) ==> within(w, u))
}

proof fn lemma_function_scope_value(
    v: DocV,
    contract: Option<Seq<char>>,
    cfg: ScopeSpec,
    fnames: Seq<Seq<char>>,
)
    requires
        cfg.funcs == Some(fnames),
        cfg.contract is None,
    ensures
        forall|p: int|
            0 <= p < spec_discover_value(v, contract, cfg, false).len() ==> inside_allowed(
                v,
                fnames,
                (#[trigger] spec_discover_value(v, contract, cfg, false)[p]).1,
            ),
    decreases v,
{
    let a = spec_new_ast(v, contract);
    let acc2 = spec_accept(cfg, a);
    let out = spec_discover_value(v, contract, cfg, false);
    if !spec_skip(a) {
        if acc2 {
            // The node itself is an allowed function: everything discovered
            // below it stays inside it.
            assert(a.element is Some);
            assert(allowed_function(v, fnames));
            lemma_discover_within(v, contract, cfg, false);
            assert forall|p: int| 0 <= p < out.len() implies inside_allowed(
                v,
                fnames,
                (#[trigger] out[p]).1,
            ) by {
                assert(within(v, v) && allowed_function(v, fnames) && (out[p].1.element
                    matches Some(u) ==> within(v, u)));
            }
        } else {
            match v {
                DocV::Object(fs) => {
                    let contract2 = spec_child_contract(fs, a.contract);
                    lemma_function_scope_fields(fs, contract2, cfg, fnames);
                    let rest = spec_discover_fields(fs, contract2, cfg, false);
                    assert forall|p: int| 0 <= p < out.len() implies inside_allowed(
                        v,
                        fnames,
                        (#[trigger] out[p]).1,
                    ) by {
                        assert(out[p] == rest[p]);
                        assert(inside_allowed_fields(fs, fnames, rest[p].1));
                        let (i, w) = choose|i: int, w: DocV|
                            0 <= i < fs.len() && #[trigger] within(fs[i].1, w)
                                && allowed_function(w, fnames) && (rest[p].1.element matches Some(
                                u,
                            ) ==> within(w, u));
                        lemma_within_field(fs, i, w);
                        assert(within(v, w) && allowed_function(w, fnames) && (out[p].1.element
                            matches Some(u) ==> within(w, u)));
                    }
                }
                DocV::Array(es) => {
                    lemma_function_scope_elems(es, contract, cfg, fnames);
                    let rest = spec_discover_elems(es, contract, cfg, false);
                    assert forall|p: int| 0 <= p < out.len() implies inside_allowed(
                        v,
                        fnames,
                        (#[trigger] out[p]).1,
                    ) by {
                        assert(out[p] == rest[p]);
                        assert(inside_allowed_elems(es, fnames, rest[p].1));
                        let (i, w) = choose|i: int, w: DocV|
                            0 <= i < es.len() && #[trigger] within(es[i], w) && allowed_function(
                                w,
                                fnames,
                            ) && (rest[p].1.element matches Some(u) ==> within(w, u));
                        lemma_within_elem(es, i, w);
                        assert(within(v, w) && allowed_function(w, fnames) && (out[p].1.element
                            matches Some(u) ==> within(w, u)));
                    }
                }
                _ => {
                    assert(out.len() == 0);
                }
            }
        }
    }
}

proof fn lemma_function_scope_fields(
    fs: Seq<(Seq<char>, DocV)>,
    contract: Option<Seq<char>>,
    cfg: ScopeSpec,
    fnames: Seq<Seq<char>>,
)
    requires
        cfg.funcs == Some(fnames),
        cfg.contract is None,
    ensures
        forall|p: int|
            0 <= p < spec_discover_fields(fs, contract, cfg, false).len()
                ==> inside_allowed_fields(
                fs,
                fnames,
                (#[trigger] spec_discover_fields(fs, contract, cfg, false)[p]).1,
            ),
    decreases fs,
{
    if fs.len() > 0 {
        lemma_function_scope_value(fs[0].1, contract, cfg, fnames);
        lemma_function_scope_fields(fs.drop_first(), contract, cfg, fnames);
        let head = spec_discover_value(fs[0].1, contract, cfg, false);
        let rest = spec_discover_fields(fs.drop_first(), contract, cfg, false);
        let out = spec_discover_fields(fs, contract, cfg, false);
        assert forall|p: int| 0 <= p < out.len() implies inside_allowed_fields(
            fs,
            fnames,
            (#[trigger] out[p]).1,
        ) by {
            if p < head.len() {
                assert(out[p] == head[p]);
                assert(inside_allowed(fs[0].1, fnames, head[p].1));
                let w = choose|w: DocV|
                    #[trigger] within(fs[0].1, w) && allowed_function(w, fnames) && (head[
                    p].1.element matches Some(u) ==> within(w, u));
                assert(0 <= 0 < fs.len() && within(fs[0].1, w) && allowed_function(w, fnames)
                    && (out[p].1.element matches Some(u) ==> within(w, u)));
            } else {
                assert(out[p] == rest[p - head.len()]);
                assert(inside_allowed_fields(fs.drop_first(), fnames, rest[p - head.len()].1));
                let (i, w) = choose|i: int, w: DocV|
                    0 <= i < fs.drop_first().len() && #[trigger] within(fs.drop_first()[i].1, w)
                        && allowed_function(w, fnames) && (rest[p - head.len()].1.element
                        matches Some(u) ==> within(w, u));
                assert(fs.drop_first()[i] == fs[i + 1]);
                assert(0 <= i + 1 < fs.len() && within(fs[i + 1].1, w) && allowed_function(
                    w,
                    fnames,
                ) && (out[p].1.element matches Some(u) ==> within(w, u)));
            }
        }
    }
}

proof fn lemma_function_scope_elems(
    es: Seq<DocV>,
    contract: Option<Seq<char>>,
    cfg: ScopeSpec,
    fnames: Seq<Seq<char>>,
)
    requires
        cfg.funcs == Some(fnames),
        cfg.contract is None,
    ensures
        forall|p: int|
            0 <= p < spec_discover_elems(es, contract, cfg, false).len() ==> inside_allowed_elems(
                es,
                fnames,
                (#[trigger] spec_discover_elems(es, contract, cfg, false)[p]).1,
            ),
    decreases es,
{
    if es.len() > 0 {
        lemma_function_scope_value(es[0], contract, cfg, fnames);
        lemma_function_scope_elems(es.drop_first(), contract, cfg, fnames);
        let head = spec_discover_value(es[0], contract, cfg, false);
        let rest = spec_discover_elems(es.drop_first(), contract, cfg, false);
        let out = spec_discover_elems(es, contract, cfg, false);
        assert forall|p: int| 0 <= p < out.len() implies inside_allowed_elems(
            es,
            fnames,
            (#[trigger] out[p]).1,
        ) by {
            if p < head.len() {
                assert(out[p] == head[p]);
                assert(inside_allowed(es[0], fnames, head[p].1));
                let w = choose|w: DocV|
                    #[trigger] within(es[0], w) && allowed_function(w, fnames) && (head[
                    p].1.element matches Some(u) ==> within(w, u));
                assert(0 <= 0 < es.len() && within(es[0], w) && allowed_function(w, fnames) && (
                out[p].1.element matches Some(u) ==> within(w, u)));
            } else {
                assert(out[p] == rest[p - head.len()]);
                assert(inside_allowed_elems(es.drop_first(), fnames, rest[p - head.len()].1));
                let (i, w) = choose|i: int, w: DocV|
                    0 <= i < es.drop_first().len() && #[trigger] within(es.drop_first()[i], w)
                        && allowed_function(w, fnames) && (rest[p - head.len()].1.element
                        matches Some(u) ==> within(w, u));
                assert(es.drop_first()[i] == es[i + 1]);
                assert(0 <= i + 1 < es.len() && within(es[i + 1], w) && allowed_function(
                    w,
                    fnames,
                ) && (out[p].1.element matches Some(u) ==> within(w, u)));
            }
        }
    }
}

/// Scope filtering, allow-list form: with a function-name allow-list and no
/// contract restriction, every discovered mutation point lies inside the
/// subtree of some function definition named in the list.
pub proof fn lemma_function_scope(a: AstV, cfg: ScopeSpec, fnames: Seq<Seq<char>>)
    requires
        cfg.funcs == Some(fnames),
        cfg.contract is None,
        a.element matches Some(v),
    ensures
        forall|p: int|
            0 <= p < spec_discover(a, cfg, false).len() ==> inside_allowed(
                a.element->0,
                fnames,
                (#[trigger] spec_discover(a, cfg, false)[p]).1,
            ),
{
    let out = spec_discover(a, cfg, false);
    let v = a.element->0;
    if !spec_skip(a) {
        lemma_function_scope_value(v, a.contract, cfg, fnames);
        let vout = spec_discover_value(v, a.contract, cfg, false);
        assert(out == vout) by {
            if v is Null {
                assert(a.node_type_str() is None);
                assert(!spec_accept(cfg, a));
                assert(spec_new_ast(v, a.contract).element is None);
                assert(!spec_accept(cfg, spec_new_ast(v, a.contract)));
                assert(out =~= vout);
            } else {
                assert(spec_new_ast(v, a.contract) == a);
            }
        }
        assert forall|p: int| 0 <= p < out.len() implies inside_allowed(
            a.element->0,
            fnames,
            (#[trigger] out[p]).1,
        ) by {
            assert(inside_allowed(v, fnames, vout[p].1));
        }
    }
}

} // verus!

verus! {

/// Every persisted mutant's candidate text is a rewrite that some
/// discovered mutation point's generator may produce over this run's
/// source.
pub proof fn lemma_mutants_are_rewrites(run: MutationRun)
    requires
        run.wf(),
    ensures
        forall|p: int|
            0 <= p < run.raw_texts().len() ==> rewrite_of_point(
                run.kinds_view(),
                run.groups_view(),
                run.source_view(),
                #[trigger] run.raw_texts()[p],
            ),
{
}

} // verus!
