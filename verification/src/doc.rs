//! The hierarchical key-value document tree that ISA descriptions are
//! loaded from, and the bridge from TOML text to that tree.

use vstd::prelude::*;

verus! {

/// One value of an ISA-description document: an integer, a string, an
/// array, a table of key-value pairs, or something the loader has no use
/// for (a float, a boolean, a datetime).
#[derive(Debug)]
pub enum DocValue {
    Int(i64),
    Str(String),
    Arr(Vec<DocValue>),
    Tab(Vec<(String, DocValue)>),
    Other,
}

/// The mathematical shape of a document value.
pub enum DocV {
    Int(i64),
    Str(Seq<char>),
    Arr(Seq<DocV>),
    Tab(Seq<(Seq<char>, DocV)>),
    Other,
}

/// The deep view of a document value.
pub open spec fn view_doc(d: DocValue) -> DocV
    decreases d,
{
    match d {
        DocValue::Int(i) => DocV::Int(i),
        DocValue::Str(s) => DocV::Str(s@),
        DocValue::Arr(a) => DocV::Arr(view_doc_list(a@)),
        DocValue::Tab(t) => DocV::Tab(view_doc_tab(t@)),
        DocValue::Other => DocV::Other,
    }
}

/// The deep views of an array of document values.
pub open spec fn view_doc_list(ds: Seq<DocValue>) -> Seq<DocV>
    decreases ds,
{
    if ds.len() == 0 {
        Seq::empty()
    } else {
        seq![view_doc(ds.first())] + view_doc_list(ds.drop_first())
    }
}

/// The deep views of a table of document values.
pub open spec fn view_doc_tab(ts: Seq<(String, DocValue)>) -> Seq<(Seq<char>, DocV)>
    decreases ts,
{
    if ts.len() == 0 {
        Seq::empty()
    } else {
        seq![(ts.first().0@, view_doc(ts.first().1))] + view_doc_tab(ts.drop_first())
    }
}

/// Viewing an array views each element.
pub proof fn lemma_view_doc_list_index(ds: Seq<DocValue>)
    ensures
        view_doc_list(ds).len() == ds.len(),
        forall|i: int| 0 <= i < ds.len() ==> view_doc_list(ds)[i] == view_doc(#[trigger] ds[i]),
    decreases ds.len(),
{
    if ds.len() > 0 {
        lemma_view_doc_list_index(ds.drop_first());
        assert forall|i: int| 0 <= i < ds.len() implies view_doc_list(ds)[i] == view_doc(
            #[trigger] ds[i],
        ) by {
            if i > 0 {
                assert(ds.drop_first()[i - 1] == ds[i]);
            }
        }
    }
}

/// Viewing a table views each pair.
pub proof fn lemma_view_doc_tab_index(ts: Seq<(String, DocValue)>)
    ensures
        view_doc_tab(ts).len() == ts.len(),
        forall|i: int|
            0 <= i < ts.len() ==> view_doc_tab(ts)[i] == ((#[trigger] ts[i]).0@, view_doc(
                ts[i].1,
            )),
    decreases ts.len(),
{
    if ts.len() > 0 {
        lemma_view_doc_tab_index(ts.drop_first());
        assert forall|i: int| 0 <= i < ts.len() implies view_doc_tab(ts)[i] == ((#[trigger] ts[i]).0@, view_doc(
            ts[i].1,
        )) by {
            if i > 0 {
                assert(ts.drop_first()[i - 1] == ts[i]);
            }
        }
    }
}

/// The first value stored under a key in a table view, if any.
pub open spec fn tab_get(t: Seq<(Seq<char>, DocV)>, key: Seq<char>) -> Option<DocV>
    decreases t,
{
    if t.len() == 0 {
        None
    } else if t.first().0 == key {
        Some(t.first().1)
    } else {
        tab_get(t.drop_first(), key)
    }
}

/// Looks a key up in a document table; the first matching pair wins.
pub fn doc_tab_get<'a>(tab: &'a Vec<(String, DocValue)>, key: &str) -> (r: Option<&'a DocValue>)
    ensures
        r matches Some(d) ==> tab_get(view_doc_tab(tab@), key@) == Some(view_doc(*d)),
        r is None ==> tab_get(view_doc_tab(tab@), key@) is None,
{
    let n = tab.len();
    let mut i: usize = 0;
    proof {
        lemma_view_doc_tab_index(tab@);
        assert(view_doc_tab(tab@).skip(0) =~= view_doc_tab(tab@));
    }
    #[verifier::loop_isolation(false)]
    while i < n
        invariant
            n == tab@.len(),
            0 <= i <= n,
            forall|j: int| 0 <= j < i ==> (#[trigger] tab@[j]).0@ != key@,
            tab_get(view_doc_tab(tab@), key@) == tab_get(
                view_doc_tab(tab@).skip(i as int),
                key@,
            ),
        decreases n - i,
    {
        proof {
            assert(view_doc_tab(tab@).skip(i as int).first() == view_doc_tab(tab@)[i as int]);
            assert(view_doc_tab(tab@).skip(i as int).drop_first() =~= view_doc_tab(tab@).skip(
                i + 1 as int,
            ));
        }
        if crate::text::str_eq(tab[i].0.as_str(), key) {
            return Some(&tab[i].1);
        }
        i = i + 1;
    }
    proof {
        assert(view_doc_tab(tab@).skip(n as int) =~= Seq::<(Seq<char>, DocV)>::empty());
    }
    None
}

// ------------------------------------------------------------------
// The TOML bridge
// ------------------------------------------------------------------
#[verifier::external_type_specification]
#[verifier::external_body]
pub struct ExTomlValue(toml::Value);

/// The document tree that TOML text parses to, or nothing when the text is
/// not well-formed TOML. TOML parsing is a function of the text alone.
pub uninterp spec fn toml_doc_of(s: Seq<char>) -> Option<DocV>;

/// Relies on `toml::Value`'s variants: integers, strings, arrays and tables
/// are carried over one for one, and any other variant becomes
/// [`DocValue::Other`]. Converting only.
#[verifier::external_body]
fn doc_from_toml(v: &toml::Value) -> DocValue {
    match v {
        toml::Value::Integer(i) => DocValue::Int(*i),
        toml::Value::String(s) => DocValue::Str(s.clone()),
        toml::Value::Array(a) => DocValue::Arr(a.iter().map(doc_from_toml).collect()),
        toml::Value::Table(t) => DocValue::Tab(
            t.iter().map(|p| (p.0.clone(), doc_from_toml(p.1))).collect(),
        ),
        _ => DocValue::Other,
    }
}

/// Relies on `<toml::Table as FromStr>::from_str`: the text is parsed as a
/// TOML document, deterministically; a parse error yields nothing.
#[verifier::external_body]
pub fn parse_doc(s: &str) -> (r: Option<DocValue>)
    ensures
        r matches Some(d) ==> toml_doc_of(s@) == Some(view_doc(d)),
        r is None ==> toml_doc_of(s@) is None,
{
    match s.parse::<toml::Table>() {
        Ok(t) => Some(
            DocValue::Tab(t.iter().map(|p| (p.0.clone(), doc_from_toml(p.1))).collect()),
        ),
        Err(_) => None,
    }
}

} // verus!
