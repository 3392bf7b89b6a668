//! The generic parsed document: a tagged tree of objects, arrays and scalars,
//! together with its mathematical view and named projections.

use vstd::prelude::*;
use crate::chars::str_eq;

verus! {

broadcast use vstd::std_specs::vec::group_vec_axioms;

/// A parsed document value, as handed over by the caller after parsing.
/// Object fields keep the order in which they were inserted.
pub enum DocValue {
    Object(Vec<(String, DocValue)>),
    Array(Vec<DocValue>),
    Text(String),
    Int(i64),
    Boolean(bool),
    Null,
}

/// The mathematical value of a [`DocValue`].
pub enum DocV {
    Object(Seq<(Seq<char>, DocV)>),
    Array(Seq<DocV>),
    Text(Seq<char>),
    Int(i64),
    Boolean(bool),
    Null,
}

/// View of an object's field list.
pub open spec fn view_fields(fs: Seq<(String, DocValue)>) -> Seq<(Seq<char>, DocV)>
    decreases fs,
{
    if fs.len() == 0 {
        Seq::empty()
    } else {
        seq![(fs[0].0@, view_doc(fs[0].1))] + view_fields(fs.drop_first())
    }
}

/// View of an array's element list.
pub open spec fn view_elems(vs: Seq<DocValue>) -> Seq<DocV>
    decreases vs,
{
    if vs.len() == 0 {
        Seq::empty()
    } else {
        seq![view_doc(vs[0])] + view_elems(vs.drop_first())
    }
}

/// View of a document value.
pub open spec fn view_doc(v: DocValue) -> DocV
    decreases v,
{
    match v {
        DocValue::Object(fs) => DocV::Object(view_fields(fs@)),
        DocValue::Array(vs) => DocV::Array(view_elems(vs@)),
        DocValue::Text(t) => DocV::Text(t@),
        DocValue::Int(i) => DocV::Int(i),
        DocValue::Boolean(b) => DocV::Boolean(b),
        DocValue::Null => DocV::Null,
    }
}

impl View for DocValue {
    type V = DocV;

    open spec fn view(&self) -> DocV {
        view_doc(*self)
    }
}

impl DeepView for DocValue {
    type V = DocV;

    open spec fn deep_view(&self) -> DocV {
        view_doc(*self)
    }
}

pub broadcast proof fn lemma_view_fields_len(fs: Seq<(String, DocValue)>)
    ensures
        (#[trigger] view_fields(fs)).len() == fs.len(),
    decreases fs,
{
    if fs.len() > 0 {
        lemma_view_fields_len(fs.drop_first());
    }
}

pub broadcast proof fn lemma_view_fields_index(fs: Seq<(String, DocValue)>, i: int)
    requires
        0 <= i < fs.len(),
    ensures
        #[trigger] view_fields(fs)[i] == (fs[i].0@, view_doc(fs[i].1)),
    decreases fs,
{
    lemma_view_fields_len(fs);
    if i > 0 {
        lemma_view_fields_index(fs.drop_first(), i - 1);
    }
}

pub broadcast proof fn lemma_view_elems_len(vs: Seq<DocValue>)
    ensures
        (#[trigger] view_elems(vs)).len() == vs.len(),
    decreases vs,
{
    if vs.len() > 0 {
        lemma_view_elems_len(vs.drop_first());
    }
}

pub broadcast proof fn lemma_view_elems_index(vs: Seq<DocValue>, i: int)
    requires
        0 <= i < vs.len(),
    ensures
        #[trigger] view_elems(vs)[i] == view_doc(vs[i]),
    decreases vs,
{
    lemma_view_elems_len(vs);
    if i > 0 {
        lemma_view_elems_index(vs.drop_first(), i - 1);
    }
}

/// Value of the first field named `key` of an object field list, `Null` when
/// there is none.
pub open spec fn spec_lookup(fs: Seq<(Seq<char>, DocV)>, key: Seq<char>) -> DocV
    decreases fs,
{
    if fs.len() == 0 {
        DocV::Null
    } else if fs[0].0 == key {
        fs[0].1
    } else {
        spec_lookup(fs.drop_first(), key)
    }
}

/// Whether an object field list carries a field named `key`.
pub open spec fn spec_haskey(fs: Seq<(Seq<char>, DocV)>, key: Seq<char>) -> bool
    decreases fs,
{
    if fs.len() == 0 {
        false
    } else {
        fs[0].0 == key || spec_haskey(fs.drop_first(), key)
    }
}

/// Projection by field name: the named field of an object, `Null` for
/// everything else (a missing field included).
pub open spec fn spec_get(v: DocV, key: Seq<char>) -> DocV {
    match v {
        DocV::Object(fs) => spec_lookup(fs, key),
        _ => DocV::Null,
    }
}

impl DocValue {
    /// Structural copy, equal in value to `self`.
    pub fn duplicate(&self) -> (r: DocValue)
        ensures
            r@ == self@,
        decreases *self,
    {
        match self {
            DocValue::Object(fs) => {
                let mut out: Vec<(String, DocValue)> = Vec::new();
                let mut i: usize = 0;
                while i < fs.len()
                    invariant
                        0 <= i <= fs@.len(),
                        out@.len() == i,
                        *self == DocValue::Object(*fs),
                        view_fields(out@) =~= view_fields(fs@.take(i as int)),
                    decreases fs@.len() - i,
                {
                    proof {
                        assert(*self == DocValue::Object(*fs));
                        assert(decreases_to!(*self => (*self)->Object_0));
                        assert((*self)->Object_0 == *fs);
                        assert(decreases_to!(*fs => fs@));
                        assert(decreases_to!(fs@ => fs@[i as int]));
                        let pair = fs@[i as int];
                        assert(decreases_to!(pair => pair.1));
                        assert(decreases_to!(*self => fs@[i as int].1));
                    }
                    let k = fs[i].0.clone();
                    let dv = fs[i].1.duplicate();
                    let ghost prev = out@;
                    out.push((k, dv));
                    proof {
                        assert(out@.drop_last() =~= prev);
                        assert(out@.last() == (k, dv));
                        lemma_view_take_push(fs@, out@, i as int);
                    }
                    i += 1;
                }
                proof {
                    assert(fs@.take(fs@.len() as int) =~= fs@);
                }
                DocValue::Object(out)
            }
            DocValue::Array(vs) => {
                let mut out: Vec<DocValue> = Vec::new();
                let mut i: usize = 0;
                while i < vs.len()
                    invariant
                        0 <= i <= vs@.len(),
                        out@.len() == i,
                        *self == DocValue::Array(*vs),
                        view_elems(out@) =~= view_elems(vs@.take(i as int)),
                    decreases vs@.len() - i,
                {
                    proof {
                        assert(*self == DocValue::Array(*vs));
                        assert(decreases_to!(*self => (*self)->Array_0));
                        assert((*self)->Array_0 == *vs);
                        assert(decreases_to!(*vs => vs@));
                        assert(decreases_to!(vs@ => vs@[i as int]));
                        assert(decreases_to!(*self => vs@[i as int]));
                    }
                    let dv = vs[i].duplicate();
                    let ghost prev = out@;
                    out.push(dv);
                    proof {
                        assert(out@.drop_last() =~= prev);
                        lemma_elems_take_push(vs@, out@, i as int);
                    }
                    i += 1;
                }
                proof {
                    assert(vs@.take(vs@.len() as int) =~= vs@);
                }
                DocValue::Array(out)
            }
            DocValue::Text(t) => DocValue::Text(t.clone()),
            DocValue::Int(i) => DocValue::Int(*i),
            DocValue::Boolean(b) => DocValue::Boolean(*b),
            DocValue::Null => DocValue::Null,
        }
    }

    /// Reference to the value of the first field named `key`, when `self` is
    /// an object that has one.
    pub fn get_field<'a>(&'a self, key: &str) -> (r: Option<&'a DocValue>)
        ensures
            match r {
                Some(f) => f@ == spec_get(self@, key@) && (self@ matches DocV::Object(fs)
                    && spec_haskey(fs, key@)),
                None => !(self@ matches DocV::Object(fs) && spec_haskey(fs, key@))
                    && spec_get(self@, key@) == DocV::Null,
            },
    {
        broadcast use {lemma_view_fields_len, lemma_view_fields_index};

        match self {
            DocValue::Object(fs) => {
                let ghost fsv = view_fields(fs@);
                let mut i: usize = 0;
                while i < fs.len()
                    invariant
                        0 <= i <= fs@.len(),
                        fsv == view_fields(fs@),
                        fsv.len() == fs@.len(),
                        self@ == DocV::Object(fsv),
                        forall|k: int| 0 <= k < i ==> (#[trigger] fsv[k]).0 != key@,
                    decreases fs@.len() - i,
                {
                    proof {
                        lemma_view_fields_index(fs@, i as int);
                        assert(fsv[i as int] == (fs@[i as int].0@, view_doc(fs@[i as int].1)));
                    }
                    if str_eq(fs[i].0.as_str(), key) {
                        proof {
                            lemma_lookup_at(fsv, key@, i as int);
                        }
                        return Some(&fs[i].1);
                    }
                    i += 1;
                }
                proof {
                    lemma_lookup_none(fsv, key@);
                }
                None
            }
            _ => None,
        }
    }
}

proof fn lemma_view_take_push(fs: Seq<(String, DocValue)>, out: Seq<(String, DocValue)>, i: int)
    requires
        0 <= i < fs.len(),
        out.len() == i + 1,
        view_fields(out.drop_last()) == view_fields(fs.take(i)),
        out.last().0@ == fs[i].0@,
        view_doc(out.last().1) == view_doc(fs[i].1),
    ensures
        view_fields(out) =~= view_fields(fs.take(i + 1)),
{
    broadcast use {lemma_view_fields_len, lemma_view_fields_index};

    assert(fs.take(i + 1).drop_last() =~= fs.take(i));
    lemma_view_fields_snoc(out);
    lemma_view_fields_snoc(fs.take(i + 1));
}

proof fn lemma_view_fields_snoc(fs: Seq<(String, DocValue)>)
    requires
        fs.len() > 0,
    ensures
        view_fields(fs) =~= view_fields(fs.drop_last()) + seq![
            (fs.last().0@, view_doc(fs.last().1)),
        ],
{
    broadcast use {lemma_view_fields_len, lemma_view_fields_index};

}

proof fn lemma_elems_take_push(vs: Seq<DocValue>, out: Seq<DocValue>, i: int)
    requires
        0 <= i < vs.len(),
        out.len() == i + 1,
        view_elems(out.drop_last()) == view_elems(vs.take(i)),
        view_doc(out.last()) == view_doc(vs[i]),
    ensures
        view_elems(out) =~= view_elems(vs.take(i + 1)),
{
    broadcast use {lemma_view_elems_len, lemma_view_elems_index};

    assert(vs.take(i + 1).drop_last() =~= vs.take(i));
    lemma_view_elems_snoc(out);
    lemma_view_elems_snoc(vs.take(i + 1));
}

proof fn lemma_view_elems_snoc(vs: Seq<DocValue>)
    requires
        vs.len() > 0,
    ensures
        view_elems(vs) =~= view_elems(vs.drop_last()) + seq![view_doc(vs.last())],
{
    broadcast use {lemma_view_elems_len, lemma_view_elems_index};

}

proof fn lemma_lookup_at(fs: Seq<(Seq<char>, DocV)>, key: Seq<char>, i: int)
    requires
        0 <= i < fs.len(),
        fs[i].0 == key,
        forall|k: int| 0 <= k < i ==> (#[trigger] fs[k]).0 != key,
    ensures
        spec_lookup(fs, key) == fs[i].1,
        spec_haskey(fs, key),
    decreases i,
{
    if i > 0 {
        lemma_lookup_at(fs.drop_first(), key, i - 1);
    }
}

proof fn lemma_lookup_none(fs: Seq<(Seq<char>, DocV)>, key: Seq<char>)
    requires
        forall|k: int| 0 <= k < fs.len() ==> (#[trigger] fs[k]).0 != key,
    ensures
        !spec_haskey(fs, key),
        spec_lookup(fs, key) == DocV::Null,
    decreases fs,
{
    if fs.len() > 0 {
        lemma_lookup_none(fs.drop_first(), key);
    }
}

} // verus!
