use vstd::prelude::*;
use crate::document::{
    ServiceData, DocView, views_of, docs_of, configs_ok, parse_configs, blob_ok,
};
use crate::error::CarbonError;
use crate::strings::str_eq;

verus! {

/// Whether some document among `ds` declares the service `n`.
pub open spec fn defined_in(ds: Seq<DocView>, n: Seq<char>) -> bool {
    exists|i: int| 0 <= i < ds.len() && ds[i].name == n
}

/// The first document among `ds` that declares the service `n`, if any:
/// duplicate names across descriptor files resolve to the first match.
pub open spec fn find_first(ds: Seq<DocView>, n: Seq<char>) -> Option<DocView>
    decreases ds.len(),
{
    if ds.len() == 0 {
        None
    } else if ds[0].name == n {
        Some(ds[0])
    } else {
        find_first(ds.skip(1), n)
    }
}

pub proof fn lemma_find_first_props(ds: Seq<DocView>, n: Seq<char>)
    ensures
        find_first(ds, n) is Some <==> defined_in(ds, n),
        find_first(ds, n) matches Some(d) ==> d.name == n && exists|i: int|
            0 <= i < ds.len() && ds[i] == d,
    decreases ds.len(),
{
    if ds.len() == 0 {
    } else if ds[0].name == n {
    } else {
        lemma_find_first_props(ds.skip(1), n);
        if find_first(ds.skip(1), n) is Some {
            let d = find_first(ds.skip(1), n)->Some_0;
            let i = choose|i: int| 0 <= i < ds.skip(1).len() && ds.skip(1)[i] == d;
            assert(ds[i + 1] == d);
        }
        if defined_in(ds, n) {
            let i = choose|i: int| 0 <= i < ds.len() && ds[i].name == n;
            assert(ds.skip(1)[i - 1] == ds[i]);
        }
    }
}

pub proof fn lemma_find_first_index(ds: Seq<DocView>, n: Seq<char>, i: int)
    requires
        0 <= i < ds.len(),
        ds[i].name == n,
        forall|j: int| 0 <= j < i ==> ds[j].name != n,
    ensures
        find_first(ds, n) == Some(ds[i]),
    decreases i,
{
    if i == 0 {
    } else {
        lemma_find_first_index(ds.skip(1), n, i - 1);
        assert(ds.skip(1)[i - 1] == ds[i]);
        assert(forall|j: int| 0 <= j < i - 1 ==> ds.skip(1)[j] == ds[j + 1]);
    }
}

/// Copy a vector of strings, keeping each entry equal.
pub fn copy_strings(v: &Vec<String>) -> (r: Vec<String>)
    ensures
        r@ == v@,
{
    let vn = v.len();
    let mut r: Vec<String> = Vec::new();
    let mut i: usize = 0;
    while i < vn
        invariant
            i <= vn,
            vn == v@.len(),
            r@ == v@.take(i as int),
        decreases vn - i,
    {
        r.push(v[i].clone());
        i = i + 1;
        proof {
            assert(r@ =~= v@.take(i as int));
        }
    }
    proof {
        assert(v@.take(vn as int) =~= v@);
    }
    r
}

/// Copy one service document, keeping its image equal.
pub fn copy_doc(d: &ServiceData) -> (r: ServiceData)
    ensures
        r@ == d@,
{
    let r = ServiceData {
        name: d.name.clone(),
        path: d.path.clone(),
        yaml: d.yaml.clone(),
        depends_on: copy_strings(&d.depends_on),
    };
    proof {
        assert(r.depends_on.deep_view() =~= d.depends_on.deep_view());
        assert(r@ =~= d@);
    }
    r
}

/// Whether the already resolved documents contain one named `n`.
fn contains_name(v: &Vec<ServiceData>, n: &str) -> (r: bool)
    ensures
        r == defined_in(views_of(v@), n@),
{
    let vn = v.len();
    let mut i: usize = 0;
    proof {
        assert(views_of(v@).len() == v@.len());
    }
    while i < vn
        invariant
            i <= vn,
            vn == v@.len(),
            views_of(v@).len() == v@.len(),
            forall|j: int| 0 <= j < i ==> views_of(v@)[j].name != n@,
        decreases vn - i,
    {
        if str_eq(v[i].name.as_str(), n) {
            proof {
                assert(views_of(v@)[i as int].name == n@);
            }
            return true;
        }
        i = i + 1;
    }
    false
}

/// Find the first document named `n` and hand back a copy of it.
fn find_doc(docs: &Vec<ServiceData>, n: &str) -> (r: Option<ServiceData>)
    ensures
        r is Some <==> defined_in(views_of(docs@), n@),
        r matches Some(d) ==> Some(d@) == find_first(views_of(docs@), n@),
{
    let dn = docs.len();
    let mut i: usize = 0;
    proof {
        assert(views_of(docs@).len() == docs@.len());
    }
    while i < dn
        invariant
            i <= dn,
            dn == docs@.len(),
            views_of(docs@).len() == docs@.len(),
            forall|j: int| 0 <= j < i ==> views_of(docs@)[j].name != n@,
        decreases dn - i,
    {
        if str_eq(docs[i].name.as_str(), n) {
            proof {
                assert(views_of(docs@)[i as int].name == n@);
                lemma_find_first_index(views_of(docs@), n@, i as int);
            }
            let d = copy_doc(&docs[i]);
            return Some(d);
        }
        i = i + 1;
    }
    proof {
        lemma_find_first_props(views_of(docs@), n@);
        if defined_in(views_of(docs@), n@) {
            let j = choose|j: int| 0 <= j < dn && views_of(docs@)[j].name == n@;
            assert(false);
        }
    }
    None
}

/// The request that stands for every known service.
pub open spec fn wildcard() -> Seq<char> {
    "*"@
}

/// Whether the requested names contain the wildcard.
pub open spec fn has_wildcard(ns: Seq<Seq<char>>) -> bool {
    exists|i: int| 0 <= i < ns.len() && ns[i] == wildcard()
}

fn contains_star(services: &Vec<String>) -> (r: bool)
    ensures
        r == has_wildcard(services.deep_view()),
{
    let sn = services.len();
    let mut i: usize = 0;
    proof {
        assert(services.deep_view().len() == services@.len());
    }
    while i < sn
        invariant
            i <= sn,
            sn == services@.len(),
            services.deep_view().len() == services@.len(),
            forall|j: int| 0 <= j < i ==> services.deep_view()[j] != wildcard(),
        decreases sn - i,
    {
        if str_eq(services[i].as_str(), "*") {
            proof {
                assert(services.deep_view()[i as int] == wildcard());
            }
            return true;
        }
        i = i + 1;
    }
    false
}

/// Whether the first document named `m` declares `n` as a dependency.
pub open spec fn dep_step(docs: Seq<DocView>, m: Seq<char>, n: Seq<char>) -> bool {
    find_first(docs, m) is Some && find_first(docs, m)->Some_0.deps.contains(n)
}

/// A discovery chain: a sequence of service names whose first member is
/// requested and in which each later name is declared as a dependency by
/// the first document of the name before it.
pub open spec fn is_chain(docs: Seq<DocView>, req: Seq<Seq<char>>, chain: Seq<Seq<char>>) -> bool {
    &&& chain.len() >= 1
    &&& req.contains(chain[0])
    &&& forall|t: int| 0 <= t < chain.len() - 1 ==> dep_step(docs, chain[t], #[trigger] chain[t + 1])
}

/// Whether the service name `n` can be discovered from the requested
/// names through a chain of `depends_on` declarations.
pub open spec fn reachable_any(docs: Seq<DocView>, req: Seq<Seq<char>>, n: Seq<char>) -> bool {
    exists|chain: Seq<Seq<char>>| #[trigger] is_chain(docs, req, chain) && chain.last() == n
}

/// Every document of the resolved set is the first match of its own name
/// among the parsed documents.
pub open spec fn resolved_from(docs: Seq<DocView>, vs: Seq<DocView>) -> bool {
    forall|i: int| 0 <= i < vs.len() ==> find_first(docs, (#[trigger] vs[i]).name) == Some(vs[i])
}

/// Every dependency a resolved document declares is itself resolved.
pub open spec fn resolved_closed(vs: Seq<DocView>) -> bool {
    forall|i: int, j: int|
        0 <= i < vs.len() && 0 <= j < vs[i].deps.len() ==> defined_in(
            vs,
            #[trigger] vs[i].deps[j],
        )
}

/// No two resolved documents share a name.
pub open spec fn distinct_names(vs: Seq<DocView>) -> bool {
    forall|i: int, j: int|
        0 <= i < j < vs.len() ==> (#[trigger] vs[i]).name != (#[trigger] vs[j]).name
}

/// When dependency resolution succeeds: with a wildcard request, every
/// dependency any document declares is defined; otherwise, every name
/// discoverable from the requested names is defined.
pub open spec fn expand_ok(docs: Seq<DocView>, req: Seq<Seq<char>>) -> bool {
    if has_wildcard(req) {
        forall|i: int, j: int|
            0 <= i < docs.len() && 0 <= j < docs[i].deps.len() ==> defined_in(
                docs,
                #[trigger] docs[i].deps[j],
            )
    } else {
        forall|n: Seq<char>| #[trigger] reachable_any(docs, req, n) ==> defined_in(docs, n)
    }
}

/// What `Carbon::expand` hands back on success: with a wildcard request,
/// exactly the parsed documents; otherwise a set of documents with
/// pairwise distinct names that resolves every requested name, takes each
/// member from the first parsed document of its name, is closed under
/// declared dependencies, and holds only names discoverable from the
/// request.
pub open spec fn expansion_of(docs: Seq<DocView>, req: Seq<Seq<char>>, vs: Seq<DocView>) -> bool {
    if has_wildcard(req) {
        vs == docs
    } else {
        &&& distinct_names(vs)
        &&& resolved_from(docs, vs)
        &&& resolved_closed(vs)
        &&& forall|j: int| 0 <= j < req.len() ==> defined_in(vs, #[trigger] req[j])
        &&& forall|t: int|
            0 <= t < vs.len() ==> reachable_any(docs, req, (#[trigger] vs[t]).name)
    }
}

/// The errors dependency resolution can end in: a malformed descriptor
/// file, with its path attached, or a service name that no document
/// declares although it is requested or discoverable from the request.
pub open spec fn expand_err(cs: Seq<(Seq<char>, Seq<char>)>, req: Seq<Seq<char>>, e: CarbonError) -> bool {
    ||| (e matches CarbonError::MalformedService(p) && !configs_ok(cs) && exists|i: int|
        0 <= i < cs.len() && !blob_ok((#[trigger] cs[i]).1) && p@ == cs[i].0)
    ||| (e matches CarbonError::ServiceNotDefined(n) && configs_ok(cs) && !defined_in(
        docs_of(cs),
        n@,
    ) && (if has_wildcard(req) {
        exists|i: int, j: int|
            0 <= i < docs_of(cs).len() && 0 <= j < docs_of(cs)[i].deps.len()
                && #[trigger] docs_of(cs)[i].deps[j] == n@
    } else {
        reachable_any(docs_of(cs), req, n@)
    }))
}

proof fn lemma_defined_in_push(vs: Seq<DocView>, d: DocView, n: Seq<char>)
    requires
        defined_in(vs, n),
    ensures
        defined_in(vs.push(d), n),
{
    let i = choose|i: int| 0 <= i < vs.len() && vs[i].name == n;
    assert(vs.push(d)[i] == vs[i]);
}

/// A set of documents with pairwise distinct names, every one of them
/// declared among `docs`, cannot have more members than `docs`.
pub proof fn lemma_resolved_len(docs: Seq<DocView>, vs: Seq<DocView>)
    requires
        distinct_names(vs),
        forall|i: int| 0 <= i < vs.len() ==> defined_in(docs, (#[trigger] vs[i]).name),
    ensures
        vs.len() <= docs.len(),
{
    broadcast use vstd::seq_lib::seq_to_set_is_finite;
    broadcast use vstd::set::group_set_axioms;

    let names = vs.map_values(|d: DocView| d.name);
    let docnames = docs.map_values(|d: DocView| d.name);
    assert(names.no_duplicates()) by {
        assert(forall|i: int, j: int|
            0 <= i < names.len() && 0 <= j < names.len() && i != j ==> names[i] != names[j]);
    }
    names.unique_seq_to_set();
    docnames.lemma_cardinality_of_set();
    assert(names.to_set().subset_of(docnames.to_set())) by {
        assert forall|n: Seq<char>| names.to_set().contains(n) implies docnames.to_set().contains(
            n,
        ) by {
            let i = choose|i: int| 0 <= i < names.len() && names[i] == n;
            assert(defined_in(docs, vs[i].name));
            let j = choose|j: int| 0 <= j < docs.len() && docs[j].name == n;
            assert(docnames[j] == n);
            assert(docnames.contains(n));
        }
    }
    vstd::set_lib::lemma_len_subset(names.to_set(), docnames.to_set());
}

/// The closure law of dependency resolution: any service discoverable
/// from the requested names through a chain of `depends_on` declarations
/// is in the resolved set, provided the set holds the requested names,
/// resolves each member to the first document of its name, and is closed
/// under declared dependencies — as `Carbon::expand` guarantees of its
/// result.
pub proof fn lemma_expand_closure(
    docs: Seq<DocView>,
    req: Seq<Seq<char>>,
    vs: Seq<DocView>,
    chain: Seq<Seq<char>>,
)
    requires
        resolved_from(docs, vs),
        resolved_closed(vs),
        forall|i: int| 0 <= i < req.len() ==> defined_in(vs, #[trigger] req[i]),
        is_chain(docs, req, chain),
    ensures
        defined_in(vs, chain.last()),
    decreases chain.len(),
{
    if chain.len() == 1 {
        let i = choose|i: int| 0 <= i < req.len() && req[i] == chain[0];
        assert(defined_in(vs, req[i]));
    } else {
        let sub = chain.drop_last();
        assert(is_chain(docs, req, sub)) by {
            assert(forall|t: int|
                0 <= t < sub.len() - 1 ==> dep_step(docs, sub[t], #[trigger] sub[t + 1]));
        }
        lemma_expand_closure(docs, req, vs, sub);
        let prev = sub.last();
        assert(dep_step(docs, prev, chain.last())) by {
            assert(dep_step(docs, chain[chain.len() - 2], chain[chain.len() - 2 + 1]));
        }
        let i = choose|i: int| 0 <= i < vs.len() && vs[i].name == prev;
        assert(find_first(docs, vs[i].name) == Some(vs[i]));
        assert(vs[i].deps.contains(chain.last()));
        let j = choose|j: int| 0 <= j < vs[i].deps.len() && vs[i].deps[j] == chain.last();
        assert(defined_in(vs, vs[i].deps[j]));
    }
}

pub struct Carbon {}

impl Carbon {
    /// Returns the name, path, text and dependencies of all found
    /// services for the given scanned descriptor files: every parsed
    /// document when the request holds the wildcard, otherwise the first
    /// matching document per requested name, in request order; a
    /// requested name that no document declares fails the resolution.
    pub fn as_yaml(configs: &Vec<(String, String)>, services: &Vec<String>) -> (r: Result<
        Vec<ServiceData>,
        CarbonError,
    >)
        ensures
            r is Ok <==> (configs_ok(configs.deep_view()) && (has_wildcard(services.deep_view())
                || (forall|i: int|
                    0 <= i < services.deep_view().len() ==> defined_in(
                        docs_of(configs.deep_view()),
                        #[trigger] services.deep_view()[i],
                    )))),
            r matches Ok(ds) ==> (if has_wildcard(services.deep_view()) {
                views_of(ds@) == docs_of(configs.deep_view())
            } else {
                views_of(ds@) == services.deep_view().map_values(
                    |n: Seq<char>| find_first(docs_of(configs.deep_view()), n)->Some_0,
                )
            }),
            r matches Err(e) ==> ((e matches CarbonError::MalformedService(p) && !configs_ok(
                configs.deep_view(),
            ) && exists|i: int|
                0 <= i < configs.deep_view().len() && !blob_ok(
                    (#[trigger] configs.deep_view()[i]).1,
                ) && p@ == configs.deep_view()[i].0) || (e matches
            CarbonError::ServiceNotDefined(n) && configs_ok(
                configs.deep_view(),
            ) && !has_wildcard(services.deep_view()) && !defined_in(
                docs_of(configs.deep_view()),
                n@,
            ) && exists|i: int|
                0 <= i < services.deep_view().len() && #[trigger] services.deep_view()[i] == n@)),
    {
        let parsed = match parse_configs(configs) {
            Ok(ds) => ds,
            Err(e) => {
                return Err(e);
            },
        };
        let ghost docs = docs_of(configs.deep_view());
        let ghost sv = services.deep_view();
        if contains_star(services) {
            let pn = parsed.len();
            let mut out: Vec<ServiceData> = Vec::new();
            let mut i: usize = 0;
            proof {
                assert(views_of(parsed@).len() == parsed@.len());
                assert(views_of(out@) =~= docs.take(0));
            }
            while i < pn
                invariant
                    i <= pn,
                    pn == parsed@.len(),
                    views_of(parsed@) == docs,
                    views_of(parsed@).len() == parsed@.len(),
                    views_of(out@) == docs.take(i as int),
                decreases pn - i,
            {
                let ghost out0 = out@;
                let d = copy_doc(&parsed[i]);
                out.push(d);
                i = i + 1;
                proof {
                    assert(views_of(out@) =~= views_of(out0).push(docs[(i - 1) as int]));
                    assert(views_of(out@) =~= docs.take(i as int));
                }
            }
            proof {
                assert(docs.take(pn as int) =~= docs);
            }
            Ok(out)
        } else {
            let sn = services.len();
            let mut out: Vec<ServiceData> = Vec::new();
            let mut i: usize = 0;
            proof {
                assert(sv.len() == services@.len());
                assert(views_of(out@) =~= sv.take(0).map_values(
                    |n: Seq<char>| find_first(docs, n)->Some_0,
                ));
            }
            while i < sn
                invariant
                    i <= sn,
                    sn == services@.len(),
                    sv == services.deep_view(),
                    sv.len() == services@.len(),
                    docs == docs_of(configs.deep_view()),
                    views_of(parsed@) == docs,
                    configs_ok(configs.deep_view()),
                    !has_wildcard(sv),
                    forall|j: int| 0 <= j < i ==> defined_in(docs, #[trigger] sv[j]),
                    views_of(out@) == sv.take(i as int).map_values(
                        |n: Seq<char>| find_first(docs, n)->Some_0,
                    ),
                decreases sn - i,
            {
                let ghost out0 = out@;
                proof {
                    assert(sv[i as int] == services@[i as int]@);
                }
                match find_doc(&parsed, services[i].as_str()) {
                    Some(d) => {
                        out.push(d);
                        i = i + 1;
                        proof {
                            assert(defined_in(docs, sv[(i - 1) as int]));
                            assert(views_of(out@) =~= views_of(out0).push(
                                find_first(docs, sv[(i - 1) as int])->Some_0,
                            ));
                            assert(views_of(out@) =~= sv.take(i as int).map_values(
                                |n: Seq<char>| find_first(docs, n)->Some_0,
                            ));
                        }
                    },
                    None => {
                        proof {
                            assert(!defined_in(docs, sv[i as int]));
                        }
                        let missing = services[i].clone();
                        proof {
                            assert(missing@ == sv[i as int]);
                        }
                        return Err(CarbonError::ServiceNotDefined(missing));
                    },
                }
            }
            proof {
                assert(sv.take(sn as int) =~= sv);
            }
            Ok(out)
        }
    }

    /// Returns all the given services together with every service
    /// discoverable from them through chains of `depends_on`
    /// declarations, each resolved to the first parsed document of its
    /// name: requested services first, then their dependencies in the
    /// order declared, level by level. A name already resolved is not
    /// resolved again, so cyclic declarations are treated as satisfied.
    /// With a wildcard request the working set is every parsed document
    /// and every declared dependency must be among them.
    ///
    /// Keep in mind, the amount of services passed in might not be the
    /// amount of services handed back.
    pub fn expand(services: &Vec<String>, configs: &Vec<(String, String)>) -> (r: Result<
        Vec<ServiceData>,
        CarbonError,
    >)
        ensures
            r is Ok <==> (configs_ok(configs.deep_view()) && expand_ok(
                docs_of(configs.deep_view()),
                services.deep_view(),
            )),
            r matches Ok(ds) ==> expansion_of(
                docs_of(configs.deep_view()),
                services.deep_view(),
                views_of(ds@),
            ),
            r matches Err(e) ==> expand_err(configs.deep_view(), services.deep_view(), e),
    {
        let parsed = match parse_configs(configs) {
            Ok(ds) => ds,
            Err(e) => {
                return Err(e);
            },
        };
        let ghost cs = configs.deep_view();
        let ghost docs = docs_of(cs);
        let ghost sv = services.deep_view();
        proof {
            assert(views_of(parsed@).len() == parsed@.len());
            assert(sv.len() == services@.len());
        }
        if contains_star(services) {
            let pn = parsed.len();
            let mut result: Vec<ServiceData> = Vec::new();
            let mut i: usize = 0;
            proof {
                assert(views_of(result@) =~= docs.take(0));
            }
            while i < pn
                invariant
                    i <= pn,
                    pn == parsed@.len(),
                    views_of(parsed@) == docs,
                    views_of(parsed@).len() == parsed@.len(),
                    views_of(result@) == docs.take(i as int),
                decreases pn - i,
            {
                let ghost rv0 = views_of(result@);
                let d = copy_doc(&parsed[i]);
                result.push(d);
                i = i + 1;
                proof {
                    assert(views_of(result@) =~= rv0.push(docs[(i - 1) as int]));
                    assert(views_of(result@) =~= docs.take(i as int));
                }
            }
            proof {
                assert(docs.take(pn as int) =~= docs);
            }
            let mut t: usize = 0;
            while t < pn
                invariant
                    t <= pn,
                    pn == parsed@.len(),
                    cs == configs.deep_view(),
                    docs == docs_of(cs),
                    sv == services.deep_view(),
                    views_of(parsed@) == docs,
                    views_of(parsed@).len() == parsed@.len(),
                    configs_ok(cs),
                    has_wildcard(sv),
                    views_of(result@) == docs,
                    forall|t2: int, j: int|
                        0 <= t2 < t && 0 <= j < docs[t2].deps.len() ==> defined_in(
                            docs,
                            #[trigger] docs[t2].deps[j],
                        ),
                decreases pn - t,
            {
                let deps = copy_strings(&parsed[t].depends_on);
                proof {
                    assert(deps.deep_view() =~= docs[t as int].deps);
                    assert(deps.deep_view().len() == deps@.len());
                }
                let dn = deps.len();
                let mut j: usize = 0;
                while j < dn
                    invariant
                        j <= dn,
                        dn == deps@.len(),
                        t < pn,
                        pn == parsed@.len(),
                        cs == configs.deep_view(),
                        docs == docs_of(cs),
                        sv == services.deep_view(),
                        views_of(parsed@) == docs,
                        views_of(parsed@).len() == parsed@.len(),
                        configs_ok(cs),
                        has_wildcard(sv),
                        deps.deep_view() == docs[t as int].deps,
                        deps.deep_view().len() == deps@.len(),
                        forall|j2: int|
                            0 <= j2 < j ==> defined_in(docs, #[trigger] docs[t as int].deps[j2]),
                    decreases dn - j,
                {
                    proof {
                        assert(deps.deep_view()[j as int] == deps@[j as int]@);
                    }
                    if !contains_name(&parsed, deps[j].as_str()) {
                        let missing = deps[j].clone();
                        proof {
                            assert(missing@ == docs[t as int].deps[j as int]);
                            assert(!defined_in(docs, missing@));
                            assert(!expand_ok(docs, sv));
                        }
                        return Err(CarbonError::ServiceNotDefined(missing));
                    }
                    j = j + 1;
                }
                t = t + 1;
            }
            proof {
                assert(expand_ok(docs, sv));
            }
            Ok(result)
        } else {
            let sn = services.len();
            let mut result: Vec<ServiceData> = Vec::new();
            let mut i: usize = 0;
            while i < sn
                invariant
                    i <= sn,
                    sn == services@.len(),
                    sv == services.deep_view(),
                    sv.len() == sn,
                    cs == configs.deep_view(),
                    docs == docs_of(cs),
                    views_of(parsed@) == docs,
                    views_of(parsed@).len() == parsed@.len(),
                    configs_ok(cs),
                    !has_wildcard(sv),
                    views_of(result@).len() == result@.len(),
                    result@.len() <= parsed@.len(),
                    distinct_names(views_of(result@)),
                    resolved_from(docs, views_of(result@)),
                    forall|t: int|
                        0 <= t < result@.len() ==> defined_in(
                            docs,
                            (#[trigger] views_of(result@)[t]).name,
                        ),
                    forall|t: int|
                        0 <= t < result@.len() ==> reachable_any(
                            docs,
                            sv,
                            (#[trigger] views_of(result@)[t]).name,
                        ),
                    forall|j: int| 0 <= j < i ==> defined_in(views_of(result@), #[trigger] sv[j]),
                decreases sn - i,
            {
                proof {
                    assert(sv[i as int] == services@[i as int]@);
                }
                if contains_name(&result, services[i].as_str()) {
                    i = i + 1;
                } else {
                    match find_doc(&parsed, services[i].as_str()) {
                        Some(d) => {
                            proof {
                                lemma_find_first_props(docs, sv[i as int]);
                                assert(d@.name == sv[i as int]);
                            }
                            let ghost rv0 = views_of(result@);
                            result.push(d);
                            i = i + 1;
                            proof {
                                let rv = views_of(result@);
                                assert(rv =~= rv0.push(d@));
                                assert forall|a: int, b: int| 0 <= a < b < rv.len() implies (
                                #[trigger] rv[a]).name != (#[trigger] rv[b]).name by {
                                    if b == rv.len() - 1 {
                                        if rv[a].name == d@.name {
                                            assert(defined_in(rv0, d@.name));
                                        }
                                    }
                                }
                                let chain = seq![sv[(i - 1) as int]];
                                assert(sv.contains(sv[(i - 1) as int]));
                                assert(chain.last() == d@.name);
                                assert(is_chain(docs, sv, chain));
                                assert(reachable_any(docs, sv, d@.name));
                                assert forall|j: int| 0 <= j < i implies defined_in(
                                    rv,
                                    #[trigger] sv[j],
                                ) by {
                                    if j < i - 1 {
                                        lemma_defined_in_push(rv0, d@, sv[j]);
                                    } else {
                                        assert(rv[rv.len() - 1].name == sv[j]);
                                    }
                                }
                                lemma_resolved_len(docs, rv);
                            }
                        },
                        None => {
                            proof {
                                assert(!defined_in(docs, sv[i as int]));
                                let chain = seq![sv[i as int]];
                                assert(sv.contains(sv[i as int]));
                                assert(is_chain(docs, sv, chain));
                                assert(chain.last() == sv[i as int]);
                                assert(reachable_any(docs, sv, sv[i as int]));
                                assert(!expand_ok(docs, sv));
                            }
                            let missing = services[i].clone();
                            proof {
                                assert(missing@ == sv[i as int]);
                            }
                            return Err(CarbonError::ServiceNotDefined(missing));
                        },
                    }
                }
            }
            let mut i: usize = 0;
            while i < result.len()
                invariant
                    i <= result@.len(),
                    sv == services.deep_view(),
                    sv.len() == services@.len(),
                    cs == configs.deep_view(),
                    docs == docs_of(cs),
                    views_of(parsed@) == docs,
                    views_of(parsed@).len() == parsed@.len(),
                    configs_ok(cs),
                    !has_wildcard(sv),
                    views_of(result@).len() == result@.len(),
                    result@.len() <= parsed@.len(),
                    distinct_names(views_of(result@)),
                    resolved_from(docs, views_of(result@)),
                    forall|t: int|
                        0 <= t < result@.len() ==> defined_in(
                            docs,
                            (#[trigger] views_of(result@)[t]).name,
                        ),
                    forall|t: int|
                        0 <= t < result@.len() ==> reachable_any(
                            docs,
                            sv,
                            (#[trigger] views_of(result@)[t]).name,
                        ),
                    forall|j: int|
                        0 <= j < sv.len() ==> defined_in(views_of(result@), #[trigger] sv[j]),
                    forall|t: int, j: int|
                        0 <= t < i && 0 <= j < views_of(result@)[t].deps.len() ==> defined_in(
                            views_of(result@),
                            #[trigger] views_of(result@)[t].deps[j],
                        ),
                decreases parsed@.len() - i,
            {
                let current = copy_doc(&result[i]);
                proof {
                    assert(current@ == views_of(result@)[i as int]);
                    assert(current.depends_on.deep_view() == current@.deps);
                }
                let dn = current.depends_on.len();
                let mut j: usize = 0;
                while j < dn
                    invariant
                        j <= dn,
                        dn == current.depends_on@.len(),
                        current@.deps.len() == dn,
                        i < result@.len(),
                        current@ == views_of(result@)[i as int],
                        sv == services.deep_view(),
                        sv.len() == services@.len(),
                        cs == configs.deep_view(),
                        docs == docs_of(cs),
                        views_of(parsed@) == docs,
                        views_of(parsed@).len() == parsed@.len(),
                        configs_ok(cs),
                        !has_wildcard(sv),
                        views_of(result@).len() == result@.len(),
                        result@.len() <= parsed@.len(),
                        distinct_names(views_of(result@)),
                        resolved_from(docs, views_of(result@)),
                        forall|t: int|
                            0 <= t < result@.len() ==> defined_in(
                                docs,
                                (#[trigger] views_of(result@)[t]).name,
                            ),
                        forall|t: int|
                            0 <= t < result@.len() ==> reachable_any(
                                docs,
                                sv,
                                (#[trigger] views_of(result@)[t]).name,
                            ),
                        forall|j2: int|
                            0 <= j2 < sv.len() ==> defined_in(
                                views_of(result@),
                                #[trigger] sv[j2],
                            ),
                        forall|t: int, j2: int|
                            0 <= t < i && 0 <= j2 < views_of(result@)[t].deps.len() ==> defined_in(
                                views_of(result@),
                                #[trigger] views_of(result@)[t].deps[j2],
                            ),
                        forall|j2: int|
                            0 <= j2 < j ==> defined_in(
                                views_of(result@),
                                #[trigger] current@.deps[j2],
                            ),
                    decreases dn - j,
                {
                    proof {
                        assert(current@.deps[j as int] == current.depends_on@[j as int]@);
                    }
                    if contains_name(&result, current.depends_on[j].as_str()) {
                        j = j + 1;
                    } else {
                        match find_doc(&parsed, current.depends_on[j].as_str()) {
                            Some(d) => {
                                proof {
                                    lemma_find_first_props(docs, current@.deps[j as int]);
                                    assert(d@.name == current@.deps[j as int]);
                                }
                                let ghost rv0 = views_of(result@);
                                let ghost dep = current@.deps[j as int];
                                result.push(d);
                                j = j + 1;
                                proof {
                                    let rv = views_of(result@);
                                    assert(rv =~= rv0.push(d@));
                                    assert(rv[i as int] == rv0[i as int]);
                                    assert forall|a: int, b: int| 0 <= a < b < rv.len() implies (
                                    #[trigger] rv[a]).name != (#[trigger] rv[b]).name by {
                                        if b == rv.len() - 1 {
                                            if rv[a].name == d@.name {
                                                assert(defined_in(rv0, d@.name));
                                            }
                                        }
                                    }
                                    assert(reachable_any(docs, sv, rv0[i as int].name));
                                    let c0 = choose|c: Seq<Seq<char>>|
                                        #[trigger] is_chain(docs, sv, c) && c.last()
                                            == rv0[i as int].name;
                                    let c1 = c0.push(dep);
                                    assert(find_first(docs, rv0[i as int].name) == Some(
                                        rv0[i as int],
                                    ));
                                    assert(rv0[i as int].deps.contains(dep)) by {
                                        assert(rv0[i as int].deps[j - 1] == dep);
                                    }
                                    assert(dep_step(docs, rv0[i as int].name, dep));
                                    assert(is_chain(docs, sv, c1)) by {
                                        assert(c1[0] == c0[0]);
                                        assert forall|u: int| 0 <= u < c1.len() - 1 implies
                                        dep_step(docs, c1[u], #[trigger] c1[u + 1]) by {
                                            if u < c0.len() - 1 {
                                                assert(c1[u] == c0[u] && c1[u + 1] == c0[u + 1]);
                                                assert(dep_step(docs, c0[u], c0[u + 1]));
                                            } else {
                                                assert(c1[u] == c0.last() && c1[u + 1] == dep);
                                            }
                                        }
                                    }
                                    assert(c1.last() == dep);
                                    assert(reachable_any(docs, sv, d@.name));
                                    assert forall|j2: int| 0 <= j2 < sv.len() implies defined_in(
                                        rv,
                                        #[trigger] sv[j2],
                                    ) by {
                                        lemma_defined_in_push(rv0, d@, sv[j2]);
                                    }
                                    assert forall|t: int, j2: int|
                                        0 <= t < i && 0 <= j2 < rv[t].deps.len() implies
                                        defined_in(rv, #[trigger] rv[t].deps[j2]) by {
                                        assert(rv[t] == rv0[t]);
                                        lemma_defined_in_push(rv0, d@, rv0[t].deps[j2]);
                                    }
                                    assert forall|j2: int| 0 <= j2 < j implies defined_in(
                                        rv,
                                        #[trigger] current@.deps[j2],
                                    ) by {
                                        if j2 < j - 1 {
                                            lemma_defined_in_push(rv0, d@, current@.deps[j2]);
                                        } else {
                                            assert(rv[rv.len() - 1].name == current@.deps[j2]);
                                        }
                                    }
                                    lemma_resolved_len(docs, rv);
                                }
                            },
                            None => {
                                proof {
                                    let rv = views_of(result@);
                                    let dep = current@.deps[j as int];
                                    assert(!defined_in(docs, dep));
                                    assert(reachable_any(docs, sv, rv[i as int].name));
                                    let c0 = choose|c: Seq<Seq<char>>|
                                        #[trigger] is_chain(docs, sv, c) && c.last()
                                            == rv[i as int].name;
                                    let c1 = c0.push(dep);
                                    assert(find_first(docs, rv[i as int].name) == Some(
                                        rv[i as int],
                                    ));
                                    assert(rv[i as int].deps.contains(dep)) by {
                                        assert(rv[i as int].deps[j as int] == dep);
                                    }
                                    assert(dep_step(docs, rv[i as int].name, dep));
                                    assert(is_chain(docs, sv, c1)) by {
                                        assert(c1[0] == c0[0]);
                                        assert forall|u: int| 0 <= u < c1.len() - 1 implies
                                        dep_step(docs, c1[u], #[trigger] c1[u + 1]) by {
                                            if u < c0.len() - 1 {
                                                assert(c1[u] == c0[u] && c1[u + 1] == c0[u + 1]);
                                                assert(dep_step(docs, c0[u], c0[u + 1]));
                                            } else {
                                                assert(c1[u] == c0.last() && c1[u + 1] == dep);
                                            }
                                        }
                                    }
                                    assert(c1.last() == dep);
                                    assert(reachable_any(docs, sv, dep));
                                    assert(!expand_ok(docs, sv));
                                }
                                let missing = current.depends_on[j].clone();
                                proof {
                                    assert(missing@ == current@.deps[j as int]);
                                }
                                return Err(CarbonError::ServiceNotDefined(missing));
                            },
                        }
                    }
                }
                i = i + 1;
                proof {
                    let rv = views_of(result@);
                    assert forall|t: int, j2: int|
                        0 <= t < i && 0 <= j2 < rv[t].deps.len() implies defined_in(
                        rv,
                        #[trigger] rv[t].deps[j2],
                    ) by {
                        if t == i - 1 {
                            assert(rv[t] == current@);
                            assert(defined_in(rv, current@.deps[j2]));
                        }
                    }
                }
            }
            proof {
                let rv = views_of(result@);
                assert(resolved_closed(rv));
                assert forall|n: Seq<char>| #[trigger] reachable_any(docs, sv, n) implies
                defined_in(docs, n) by {
                    let c = choose|c: Seq<Seq<char>>| #[trigger] is_chain(docs, sv, c)
                        && c.last() == n;
                    lemma_expand_closure(docs, sv, rv, c);
                    let t = choose|t: int| 0 <= t < rv.len() && rv[t].name == n;
                    assert(defined_in(docs, rv[t].name));
                }
                assert(expand_ok(docs, sv));
            }
            Ok(result)
        }
    }
}

} // verus!
