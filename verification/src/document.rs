use vstd::prelude::*;
use std::collections::BTreeMap;
use crate::error::CarbonError;
use crate::strings::{split_text, spec_split};

verus! {

/// One service document found by parsing a descriptor file: the service's
/// name (the document's single top-level key), the path of the file the
/// document came from, the document's raw text, and the service names its
/// `depends_on` sequence declares.
#[derive(Debug)]
pub struct ServiceData {
    pub name: String,
    pub path: String,
    pub yaml: String,
    pub depends_on: Vec<String>,
}

/// The mathematical image of a `ServiceData`.
#[verifier::ext_equal]
pub ghost struct DocView {
    pub name: Seq<char>,
    pub path: Seq<char>,
    pub yaml: Seq<char>,
    pub deps: Seq<Seq<char>>,
}

impl View for ServiceData {
    type V = DocView;

    open spec fn view(&self) -> DocView {
        DocView {
            name: self.name@,
            path: self.path@,
            yaml: self.yaml@,
            deps: self.depends_on.deep_view(),
        }
    }
}

pub open spec fn views_of(ds: Seq<ServiceData>) -> Seq<DocView> {
    ds.map_values(|d: ServiceData| d@)
}

/// The top-level keys of the YAML document `s`, in sorted order, or
/// `None` when `s` is not a single YAML mapping with string keys.
pub uninterp spec fn yaml_doc_keys(s: Seq<char>) -> Option<Seq<Seq<char>>>;

/// The sequence of strings stored under `key` inside the value of the
/// first top-level entry of the YAML document `s`: the empty sequence
/// when there is no such entry, `None` when the entry exists but is not
/// a sequence made of strings.
pub uninterp spec fn yaml_nested_string_list(s: Seq<char>, key: Seq<char>) -> Option<
    Seq<Seq<char>>,
>;

/// Relies on `serde_yaml::from_str`: a YAML document deserializes into a
/// `BTreeMap<String, Value>` exactly when it is one mapping with string
/// keys, and the map then holds the document's top-level keys.
#[verifier::external_body]
fn parse_top_level_keys(piece: &str) -> (r: Option<Vec<String>>)
    ensures
        r is Some <==> yaml_doc_keys(piece@) is Some,
        r matches Some(v) ==> Some(v.deep_view()) == yaml_doc_keys(piece@),
{
    let parsed: Result<BTreeMap<String, serde_yaml::Value>, serde_yaml::Error> =
        serde_yaml::from_str(piece);
    parsed.ok().map(|m| m.into_keys().collect())
}

/// Relies on `serde_yaml::from_str` and the accessors of
/// `serde_yaml::Value`: reads the sequence of strings stored under `key`
/// inside the value of the document's first top-level entry.
#[verifier::external_body]
fn parse_nested_string_list(piece: &str, key: &str) -> (r: Option<Vec<String>>)
    ensures
        r is Some <==> yaml_nested_string_list(piece@, key@) is Some,
        r matches Some(v) ==> Some(v.deep_view()) == yaml_nested_string_list(piece@, key@),
{
    let root: serde_yaml::Value = match serde_yaml::from_str(piece) {
        Ok(v) => v,
        Err(_) => return Some(Vec::new()),
    };
    let nested = root.as_mapping().and_then(|m| m.iter().next()).and_then(
        |(_, body)| body.get(key),
    );
    match nested {
        Some(v) => match v.as_sequence() {
            Some(s) => s.iter().map(|d| d.as_str().map(|x| x.to_string())).collect(),
            None => None,
        },
        None => Some(Vec::new()),
    }
}

/// The structural invariant of a descriptor document: it is a mapping
/// with exactly one top-level key, and its dependency declaration, if
/// any, is a sequence of strings.
pub open spec fn doc_ok(s: Seq<char>) -> bool {
    &&& yaml_doc_keys(s) matches Some(ks) && ks.len() == 1
    &&& yaml_nested_string_list(s, "depends_on"@) is Some
}

/// The service name a well-formed document declares: its single
/// top-level key.
pub open spec fn piece_name(s: Seq<char>) -> Seq<char> {
    yaml_doc_keys(s)->Some_0[0]
}

/// The dependency names a well-formed document declares.
pub open spec fn piece_deps(s: Seq<char>) -> Seq<Seq<char>> {
    yaml_nested_string_list(s, "depends_on"@)->Some_0
}

/// The image a well-formed document text parses to.
pub open spec fn doc_view_of(path: Seq<char>, piece: Seq<char>) -> DocView {
    DocView { name: piece_name(piece), path: path, yaml: piece, deps: piece_deps(piece) }
}

/// Parse one descriptor document. A document that is not a single-key
/// mapping, or whose dependency declaration is not a sequence of strings,
/// is a structural defect of the descriptor file at `path` and is
/// rejected.
pub fn parse_document(piece: &str, path: &str) -> (r: Result<ServiceData, CarbonError>)
    ensures
        r is Ok <==> doc_ok(piece@),
        r matches Ok(d) ==> d@ == doc_view_of(path@, piece@),
        r matches Err(e) ==> (e matches CarbonError::MalformedService(p) && p@ == path@),
{
    match parse_top_level_keys(piece) {
        Some(keys) => {
            if keys.len() == 1 {
                match parse_nested_string_list(piece, "depends_on") {
                    Some(deps) => {
                        let name = keys[0].clone();
                        proof {
                            assert(keys.deep_view()[0] == keys@[0]@);
                        }
                        Ok(
                            ServiceData {
                                name,
                                path: path.to_owned(),
                                yaml: piece.to_owned(),
                                depends_on: deps,
                            },
                        )
                    },
                    None => Err(CarbonError::MalformedService(path.to_owned())),
                }
            } else {
                Err(CarbonError::MalformedService(path.to_owned()))
            }
        },
        None => Err(CarbonError::MalformedService(path.to_owned())),
    }
}

/// The boundary marker between concatenated documents in one descriptor
/// file: a `---` line of its own.
pub open spec fn doc_marker() -> Seq<char> {
    seq!['\n', '-', '-', '-', '\n']
}

/// Whether every document of the descriptor blob `b` is well formed.
pub open spec fn blob_ok(b: Seq<char>) -> bool {
    forall|i: int|
        0 <= i < spec_split(b, doc_marker()).len() ==> doc_ok(#[trigger] spec_split(
            b,
            doc_marker(),
        )[i])
}

/// The service documents the descriptor blob `b`, found at `path`,
/// parses to: one per boundary-separated piece, in file order.
pub open spec fn blob_docs(path: Seq<char>, b: Seq<char>) -> Seq<DocView> {
    spec_split(b, doc_marker()).map_values(|p: Seq<char>| doc_view_of(path, p))
}

/// Split one descriptor file's text into its documents and parse each.
/// Any malformed document fails the whole file.
pub fn parse_config(path: &str, blob: &str) -> (r: Result<Vec<ServiceData>, CarbonError>)
    ensures
        r is Ok <==> blob_ok(blob@),
        r matches Ok(ds) ==> views_of(ds@) == blob_docs(path@, blob@),
        r matches Err(e) ==> (e matches CarbonError::MalformedService(p) && p@ == path@)
            && !blob_ok(blob@),
{
    proof {
        reveal_strlit("\n---\n");
        assert(("\n---\n")@ =~= doc_marker());
    }
    let pieces = split_text(blob, "\n---\n");
    let pn = pieces.len();
    let mut out: Vec<ServiceData> = Vec::new();
    let mut i: usize = 0;
    proof {
        assert(views_of(out@) =~= blob_docs(path@, blob@).take(0));
    }
    while i < pn
        invariant
            i <= pn,
            pn == pieces@.len(),
            pieces.deep_view() == spec_split(blob@, doc_marker()),
            pieces.deep_view().len() == pieces@.len(),
            forall|j: int| 0 <= j < i ==> doc_ok(#[trigger] pieces.deep_view()[j]),
            views_of(out@) == blob_docs(path@, blob@).take(i as int),
        decreases pn - i,
    {
        let ghost out0 = out@;
        match parse_document(pieces[i].as_str(), path) {
            Ok(d) => {
                out.push(d);
                i = i + 1;
                proof {
                    assert(views_of(out@) =~= views_of(out0).push(
                        doc_view_of(path@, pieces.deep_view()[(i - 1) as int]),
                    ));
                    assert(views_of(out@) =~= blob_docs(path@, blob@).take(i as int));
                }
            },
            Err(e) => {
                proof {
                    assert(!doc_ok(spec_split(blob@, doc_marker())[i as int]));
                }
                return Err(e);
            },
        }
    }
    proof {
        assert(blob_docs(path@, blob@).take(pn as int) =~= blob_docs(path@, blob@));
    }
    Ok(out)
}

/// Whether every descriptor blob among the scanned `(path, text)` pairs
/// parses cleanly.
pub open spec fn configs_ok(cs: Seq<(Seq<char>, Seq<char>)>) -> bool {
    forall|i: int| 0 <= i < cs.len() ==> blob_ok((#[trigger] cs[i]).1)
}

/// All the service documents the scanned `(path, text)` pairs parse to,
/// in scan order, documents of one file in file order.
pub open spec fn docs_of(cs: Seq<(Seq<char>, Seq<char>)>) -> Seq<DocView>
    decreases cs.len(),
{
    if cs.len() == 0 {
        Seq::empty()
    } else {
        blob_docs(cs[0].0, cs[0].1) + docs_of(cs.skip(1))
    }
}

pub proof fn lemma_docs_of_push(cs: Seq<(Seq<char>, Seq<char>)>, c: (Seq<char>, Seq<char>))
    ensures
        docs_of(cs.push(c)) == docs_of(cs) + blob_docs(c.0, c.1),
    decreases cs.len(),
{
    if cs.len() == 0 {
        assert(cs.push(c)[0] == c);
        assert(cs.push(c).skip(1) =~= Seq::<(Seq<char>, Seq<char>)>::empty());
        assert(docs_of(Seq::<(Seq<char>, Seq<char>)>::empty()) == Seq::<DocView>::empty());
        assert(docs_of(cs.push(c)) == blob_docs(c.0, c.1) + docs_of(cs.push(c).skip(1)));
        assert(blob_docs(c.0, c.1) + Seq::<DocView>::empty() =~= blob_docs(c.0, c.1));
        assert(docs_of(cs) + blob_docs(c.0, c.1) =~= blob_docs(c.0, c.1));
    } else {
        lemma_docs_of_push(cs.skip(1), c);
        assert(cs.push(c).skip(1) =~= cs.skip(1).push(c));
        assert(cs.push(c)[0] == cs[0]);
        assert(docs_of(cs.push(c)) == blob_docs(cs[0].0, cs[0].1) + (docs_of(cs.skip(1))
            + blob_docs(c.0, c.1)));
        assert(blob_docs(cs[0].0, cs[0].1) + (docs_of(cs.skip(1)) + blob_docs(c.0, c.1)) =~= (
        blob_docs(cs[0].0, cs[0].1) + docs_of(cs.skip(1))) + blob_docs(c.0, c.1));
    }
}

/// Parse every scanned descriptor file into service documents, keeping
/// scan order. The first malformed file fails the whole scan.
pub fn parse_configs(configs: &Vec<(String, String)>) -> (r: Result<Vec<ServiceData>, CarbonError>)
    ensures
        r is Ok <==> configs_ok(configs.deep_view()),
        r matches Ok(ds) ==> views_of(ds@) == docs_of(configs.deep_view()),
        r matches Err(e) ==> (exists|i: int|
            {
                &&& 0 <= i < configs.deep_view().len()
                &&& !blob_ok((#[trigger] configs.deep_view()[i]).1)
                &&& (e matches CarbonError::MalformedService(p) && p@ == configs.deep_view()[i].0)
                &&& forall|j: int| 0 <= j < i ==> blob_ok(configs.deep_view()[j].1)
            }),
{
    let cn = configs.len();
    let mut out: Vec<ServiceData> = Vec::new();
    let mut i: usize = 0;
    proof {
        assert(configs.deep_view().len() == configs@.len());
        assert(configs.deep_view().take(0) =~= Seq::<(Seq<char>, Seq<char>)>::empty());
        assert(views_of(out@) =~= docs_of(configs.deep_view().take(0)));
    }
    while i < cn
        invariant
            i <= cn,
            cn == configs@.len(),
            configs.deep_view().len() == configs@.len(),
            forall|j: int| 0 <= j < i ==> blob_ok((#[trigger] configs.deep_view()[j]).1),
            views_of(out@) == docs_of(configs.deep_view().take(i as int)),
        decreases cn - i,
    {
        proof {
            assert(configs.deep_view()[i as int] == configs@[i as int].deep_view());
        }
        let entry = &configs[i];
        let ghost out0 = out@;
        match parse_config(entry.0.as_str(), entry.1.as_str()) {
            Ok(mut ds) => {
                let ghost dsv = ds@;
                out.append(&mut ds);
                i = i + 1;
                proof {
                    let cs = configs.deep_view();
                    assert(views_of(out0 + dsv) =~= views_of(out0) + views_of(dsv));
                    lemma_docs_of_push(cs.take((i - 1) as int), cs[(i - 1) as int]);
                    assert(cs.take((i - 1) as int).push(cs[(i - 1) as int]) =~= cs.take(i as int));
                }
            },
            Err(e) => {
                return Err(e);
            },
        }
    }
    proof {
        assert(configs.deep_view().take(cn as int) =~= configs.deep_view());
    }
    Ok(out)
}

} // verus!
