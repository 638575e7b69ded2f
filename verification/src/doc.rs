//! The document tree: a closed tagged-variant value covering null, booleans,
//! integers, text, sequences and key/value mappings (keys kept in insertion
//! order).  `DocV` is the mathematical shape of a document; `Document` is the
//! executable tree, whose view is a `DocV`.

use vstd::prelude::*;
use vstd::string::StringExecFns;

verus! {

/// Mathematical form of a document: what contracts speak about.
#[verifier::ext_equal]
pub enum DocV {
    Null,
    Bool(bool),
    Int(i64),
    Text(Seq<char>),
    Array(Seq<DocV>),
    Object(Seq<(Seq<char>, DocV)>),
}

/// Executable document tree.  Mapping entries keep their insertion order;
/// order is observable in the canonical text (and therefore in signatures).
/// Numbers are signed 64-bit integers: the canonical form carries exactly
/// that range, and the parser rejects anything wider (floating point is
/// outside this library's model).
#[derive(Debug, PartialEq, Eq)]
pub enum Document {
    Null,
    Bool(bool),
    Int(i64),
    Text(String),
    Array(Vec<Document>),
    Object(Vec<(String, Document)>),
}

pub open spec fn view_of(d: Document) -> DocV
    decreases d,
{
    match d {
        Document::Null => DocV::Null,
        Document::Bool(b) => DocV::Bool(b),
        Document::Int(i) => DocV::Int(i),
        Document::Text(s) => DocV::Text(s@),
        Document::Array(v) => DocV::Array(view_list(v@)),
        Document::Object(v) => DocV::Object(view_entries(v@)),
    }
}

pub open spec fn view_list(s: Seq<Document>) -> Seq<DocV>
    decreases s,
{
    if s.len() == 0 {
        Seq::empty()
    } else {
        seq![view_of(s[0])] + view_list(s.drop_first())
    }
}

pub open spec fn view_entries(s: Seq<(String, Document)>) -> Seq<(Seq<char>, DocV)>
    decreases s,
{
    if s.len() == 0 {
        Seq::empty()
    } else {
        seq![(s[0].0@, view_of(s[0].1))] + view_entries(s.drop_first())
    }
}

impl View for Document {
    type V = DocV;

    open spec fn view(&self) -> DocV {
        view_of(*self)
    }
}

pub broadcast proof fn lemma_view_list_index(s: Seq<Document>)
    ensures
        (#[trigger] view_list(s)).len() == s.len(),
        forall|i: int| 0 <= i < s.len() ==> view_list(s)[i] == view_of(s[i]),
    decreases s,
{
    if s.len() > 0 {
        lemma_view_list_index(s.drop_first());
    }
}

pub broadcast proof fn lemma_view_entries_index(s: Seq<(String, Document)>)
    ensures
        (#[trigger] view_entries(s)).len() == s.len(),
        forall|i: int| 0 <= i < s.len() ==> view_entries(s)[i] == (s[i].0@, view_of(s[i].1)),
    decreases s,
{
    if s.len() > 0 {
        lemma_view_entries_index(s.drop_first());
    }
}

/// First value bound to `key` among the entries, if any.
pub open spec fn lookup(entries: Seq<(Seq<char>, DocV)>, key: Seq<char>) -> Option<DocV>
    decreases entries,
{
    if entries.len() == 0 {
        None
    } else if entries[0].0 == key {
        Some(entries[0].1)
    } else {
        lookup(entries.drop_first(), key)
    }
}

impl Document {
    /// First value bound to `key` if this document is a mapping that binds it;
    /// `None` otherwise (as on any non-mapping document).
    pub fn get_field<'a>(&'a self, key: &str) -> (r: Option<&'a Document>)
        ensures
            match r {
                Some(v) => self@ matches DocV::Object(es) && lookup(es, key@) == Some(v@),
                None => !(self@ matches DocV::Object(es) && lookup(es, key@) is Some),
            },
    {
        match self {
            Document::Object(entries) => {
                let k = String::from_str(key);
                let n = entries.len();
                let mut i: usize = 0;
                proof {
                    assert(view_entries(entries@).skip(0) =~= view_entries(entries@));
                }
                while i < n
                    invariant
                        n == entries.len(),
                        i <= n,
                        k@ == key@,
                        self@ matches DocV::Object(es) && es == view_entries(entries@),
                        lookup(view_entries(entries@), key@) == lookup(
                            view_entries(entries@).skip(i as int),
                            key@,
                        ),
                    decreases n - i,
                {
                    proof {
                        lemma_view_entries_index(entries@);
                        assert(view_entries(entries@).skip(i as int)[0] == (
                            entries@[i as int].0@,
                            view_of(entries@[i as int].1),
                        ));
                        assert(view_entries(entries@).skip(i as int).drop_first() =~= view_entries(
                            entries@,
                        ).skip(i + 1));
                    }
                    if entries[i].0.eq(&k) {
                        return Some(&entries[i].1);
                    }
                    i = i + 1;
                }
                proof {
                    lemma_view_entries_index(entries@);
                    assert(view_entries(entries@).skip(n as int) =~= Seq::<(
                        Seq<char>,
                        DocV,
                    )>::empty());
                }
                None
            },
            _ => None,
        }
    }

    /// Structural copy; the copy has the same view as the original.
    pub fn duplicate(&self) -> (r: Document)
        ensures
            r@ == self@,
        decreases *self,
    {
        match self {
            Document::Null => Document::Null,
            Document::Bool(b) => Document::Bool(*b),
            Document::Int(i) => Document::Int(*i),
            Document::Text(s) => Document::Text(s.clone()),
            Document::Array(v) => {
                let n = v.len();
                let mut out: Vec<Document> = Vec::new();
                let mut i: usize = 0;
                while i < n
                    invariant
                        *self == Document::Array(*v),
                        n == v.len(),
                        i <= n,
                        out@.len() == i,
                        view_list(out@) =~= view_list(v@).take(i as int),
                    decreases n - i,
                {
                    proof {
                        lemma_view_list_index(v@);
                        lemma_view_list_index(out@);
                        assert(decreases_to!(*self => self->Array_0));
                        assert(decreases_to!(*v => v@));
                        assert(decreases_to!(v@ => v@[i as int]));
                        assert(decreases_to!(*self => v@[i as int]));
                    }
                    let e = v[i].duplicate();
                    out.push(e);
                    proof {
                        lemma_view_list_index(out@);
                        lemma_view_list_index(v@);
                        assert(view_list(out@) =~= view_list(v@).take(i + 1));
                    }
                    i = i + 1;
                }
                proof {
                    lemma_view_list_index(v@);
                    assert(view_list(v@).take(n as int) =~= view_list(v@));
                }
                Document::Array(out)
            },
            Document::Object(v) => {
                let n = v.len();
                let mut out: Vec<(String, Document)> = Vec::new();
                let mut i: usize = 0;
                while i < n
                    invariant
                        *self == Document::Object(*v),
                        n == v.len(),
                        i <= n,
                        out@.len() == i,
                        view_entries(out@) =~= view_entries(v@).take(i as int),
                    decreases n - i,
                {
                    proof {
                        lemma_view_entries_index(v@);
                        lemma_view_entries_index(out@);
                        assert(decreases_to!(*self => self->Object_0));
                        assert(decreases_to!(*v => v@));
                        assert(decreases_to!(v@ => v@[i as int]));
                        assert(decreases_to!(v@[i as int] => v@[i as int].1));
                        assert(decreases_to!(*self => v@[i as int].1));
                    }
                    let k = v[i].0.clone();
                    let e = v[i].1.duplicate();
                    out.push((k, e));
                    proof {
                        lemma_view_entries_index(out@);
                        lemma_view_entries_index(v@);
                        assert(view_entries(out@) =~= view_entries(v@).take(i + 1));
                    }
                    i = i + 1;
                }
                proof {
                    lemma_view_entries_index(v@);
                    assert(view_entries(v@).take(n as int) =~= view_entries(v@));
                }
                Document::Object(out)
            },
        }
    }
}

} // verus!
