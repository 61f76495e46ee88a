use vstd::prelude::*;
use crate::strings::str_eq;
use crate::carbon::copy_strings;

verus! {

/// One ledger row: a deployment-file path and the services started
/// through it.
pub type LedgerEntry = (String, Vec<String>);

/// The ghost image of the ledger: path/names rows in insertion order.
pub type LedgerView = Seq<(Seq<char>, Seq<Seq<char>>)>;

/// No two rows share a path.
pub open spec fn distinct_keys(es: LedgerView) -> bool {
    forall|i: int, j: int| 0 <= i < j < es.len() ==> (#[trigger] es[i]).0 != (#[trigger] es[j]).0
}

/// The names stored under path `k`, if the ledger has a row for it.
pub open spec fn lookup(es: LedgerView, k: Seq<char>) -> Option<Seq<Seq<char>>>
    decreases es.len(),
{
    if es.len() == 0 {
        None
    } else if es[0].0 == k {
        Some(es[0].1)
    } else {
        lookup(es.skip(1), k)
    }
}

/// The ledger with the row for `k` replaced by `(k, v)`, or with `(k, v)`
/// appended when no row for `k` exists; all other rows keep their place.
pub open spec fn spec_upsert(es: LedgerView, k: Seq<char>, v: Seq<Seq<char>>) -> LedgerView
    decreases es.len(),
{
    if es.len() == 0 {
        seq![(k, v)]
    } else if es[0].0 == k {
        seq![(k, v)] + es.skip(1)
    } else {
        seq![es[0]] + spec_upsert(es.skip(1), k, v)
    }
}

/// Upserting stores exactly the given names under the given path, leaves
/// every other path's names untouched, and keeps paths distinct.
pub proof fn lemma_upsert_lookup(es: LedgerView, k: Seq<char>, v: Seq<Seq<char>>)
    requires
        distinct_keys(es),
    ensures
        distinct_keys(spec_upsert(es, k, v)),
        lookup(spec_upsert(es, k, v), k) == Some(v),
        forall|k2: Seq<char>| k2 != k ==> #[trigger] lookup(spec_upsert(es, k, v), k2) == lookup(
            es,
            k2,
        ),
    decreases es.len(),
{
    let up = spec_upsert(es, k, v);
    if es.len() == 0 {
        assert(forall|k2: Seq<char>|
            k2 != k ==> #[trigger] lookup(up, k2) == lookup(up.skip(1), k2));
        assert(up.skip(1) =~= LedgerView::empty());
    } else if es[0].0 == k {
        assert(forall|i: int, j: int|
            0 <= i < j < up.len() ==> (#[trigger] up[i]).0 != (#[trigger] up[j]).0) by {
            assert(forall|t: int| 0 <= t < es.skip(1).len() ==> es.skip(1)[t] == es[t + 1]);
        }
        assert(up[0] == (k, v));
        assert(up.skip(1) =~= es.skip(1));
        assert(forall|k2: Seq<char>|
            k2 != k ==> #[trigger] lookup(up, k2) == lookup(es.skip(1), k2));
        assert(forall|k2: Seq<char>|
            k2 != k ==> #[trigger] lookup(es, k2) == lookup(es.skip(1), k2));
    } else {
        assert(distinct_keys(es.skip(1))) by {
            assert(forall|t: int| 0 <= t < es.skip(1).len() ==> es.skip(1)[t] == es[t + 1]);
        }
        lemma_upsert_lookup(es.skip(1), k, v);
        let subup = spec_upsert(es.skip(1), k, v);
        assert(up == seq![es[0]] + subup);
        assert(up[0] == es[0]);
        assert(up.skip(1) =~= subup);
        assert(lookup(up, k) == lookup(subup, k));
        assert(forall|k2: Seq<char>|
            k2 != k && k2 != es[0].0 ==> #[trigger] lookup(up, k2) == lookup(subup, k2));
        assert(forall|k2: Seq<char>|
            k2 != k && k2 != es[0].0 ==> #[trigger] lookup(es, k2) == lookup(es.skip(1), k2));
        // the head key keeps its old names: the upserted tail has no row for it
        assert(lookup(up, es[0].0) == Some(es[0].1));
        assert(lookup(es, es[0].0) == Some(es[0].1));
        // head key differs from every key of the tail, so distinctness holds
        assert forall|i: int, j: int| 0 <= i < j < up.len() implies (#[trigger] up[i]).0 != (
        #[trigger] up[j]).0 by {
            if i == 0 {
                assert(up[j] == subup[j - 1]);
                if up[j].0 == es[0].0 {
                    lemma_lookup_key(subup, j - 1);
                    assert(lookup(subup, es[0].0) is Some);
                    if es[0].0 == k {
                    } else {
                        assert(lookup(es.skip(1), es[0].0) is None) by {
                            lemma_lookup_absent(es.skip(1), es[0].0);
                        }
                    }
                }
            } else {
                assert(up[i] == subup[i - 1] && up[j] == subup[j - 1]);
            }
        }
    }
}

/// A row's key is found by `lookup`.
proof fn lemma_lookup_key(es: LedgerView, i: int)
    requires
        0 <= i < es.len(),
    ensures
        lookup(es, es[i].0) is Some,
    decreases i,
{
    if es[0].0 == es[i].0 {
    } else {
        lemma_lookup_key(es.skip(1), i - 1);
        assert(es.skip(1)[i - 1] == es[i]);
    }
}

/// A key no row carries is not found by `lookup`.
proof fn lemma_lookup_absent(es: LedgerView, k: Seq<char>)
    requires
        forall|i: int| 0 <= i < es.len() ==> (#[trigger] es[i]).0 != k,
    ensures
        lookup(es, k) is None,
    decreases es.len(),
{
    if es.len() == 0 {
    } else {
        assert(forall|i: int| 0 <= i < es.skip(1).len() ==> es.skip(1)[i] == es[i + 1]);
        lemma_lookup_absent(es.skip(1), k);
    }
}

/// Adding a list of running services for a path replaces whatever list
/// the ledger had for that path before: two upserts in a row leave the
/// second list, not the union of the two.
pub proof fn lemma_ledger_replace(
    es: LedgerView,
    k: Seq<char>,
    v1: Seq<Seq<char>>,
    v2: Seq<Seq<char>>,
)
    requires
        distinct_keys(es),
    ensures
        lookup(spec_upsert(spec_upsert(es, k, v1), k, v2), k) == Some(v2),
        forall|k2: Seq<char>| k2 != k ==> #[trigger] lookup(
            spec_upsert(spec_upsert(es, k, v1), k, v2),
            k2,
        ) == lookup(es, k2),
{
    lemma_upsert_lookup(es, k, v1);
    lemma_upsert_lookup(spec_upsert(es, k, v1), k, v2);
}

/// The names of `ns` with later duplicates dropped: the first occurrence
/// of each name keeps its place.
pub open spec fn spec_dedup(ns: Seq<Seq<char>>) -> Seq<Seq<char>>
    decreases ns.len(),
{
    if ns.len() == 0 {
        Seq::empty()
    } else if ns.drop_last().contains(ns.last()) {
        spec_dedup(ns.drop_last())
    } else {
        spec_dedup(ns.drop_last()).push(ns.last())
    }
}

/// Whether one of the strings in `v` reads `n`.
pub fn names_contain(v: &Vec<String>, n: &str) -> (r: bool)
    ensures
        r == v.deep_view().contains(n@),
{
    let vn = v.len();
    let mut i: usize = 0;
    proof {
        assert(v.deep_view().len() == v@.len());
    }
    while i < vn
        invariant
            i <= vn,
            vn == v@.len(),
            v.deep_view().len() == v@.len(),
            forall|j: int| 0 <= j < i ==> v.deep_view()[j] != n@,
        decreases vn - i,
    {
        if str_eq(v[i].as_str(), n) {
            proof {
                assert(v.deep_view()[i as int] == n@);
            }
            return true;
        }
        i = i + 1;
    }
    proof {
        if v.deep_view().contains(n@) {
            let j = choose|j: int| 0 <= j < v.deep_view().len() && v.deep_view()[j] == n@;
            assert(false);
        }
    }
    false
}

/// The names of `v` with later duplicates dropped.
pub fn dedup_names(v: &Vec<String>) -> (r: Vec<String>)
    ensures
        r.deep_view() == spec_dedup(v.deep_view()),
        r.deep_view().no_duplicates(),
{
    let vn = v.len();
    let mut r: Vec<String> = Vec::new();
    let mut i: usize = 0;
    proof {
        assert(v.deep_view().len() == v@.len());
        assert(v.deep_view().take(0) =~= Seq::<Seq<char>>::empty());
    }
    while i < vn
        invariant
            i <= vn,
            vn == v@.len(),
            v.deep_view().len() == v@.len(),
            r.deep_view() == spec_dedup(v.deep_view().take(i as int)),
            r.deep_view().no_duplicates(),
            forall|x: Seq<char>| #[trigger] r.deep_view().contains(x) <==> v.deep_view().take(
                i as int,
            ).contains(x),
        decreases vn - i,
    {
        let ghost taken = v.deep_view().take(i as int);
        let ghost next = v.deep_view()[i as int];
        proof {
            assert(v.deep_view().take(i + 1).drop_last() =~= taken);
            assert(v.deep_view().take(i + 1).last() == next);
        }
        if !names_contain(&r, v[i].as_str()) {
            proof {
                assert(v@[i as int]@ == next);
                assert(!taken.contains(next));
            }
            let ghost r0 = r.deep_view();
            r.push(v[i].clone());
            proof {
                assert(r.deep_view() =~= r0.push(next));
                assert forall|x: Seq<char>| #[trigger] r.deep_view().contains(x) <==> v.deep_view(
                ).take(i + 1).contains(x) by {
                    if r.deep_view().contains(x) {
                        let j = choose|j: int|
                            0 <= j < r.deep_view().len() && r.deep_view()[j] == x;
                        if j < r0.len() {
                            assert(r0.contains(x));
                            let t = choose|t: int| 0 <= t < taken.len() && taken[t] == x;
                            assert(v.deep_view().take(i + 1)[t] == x);
                        } else {
                            assert(v.deep_view().take(i + 1)[i as int] == x);
                        }
                    }
                    if v.deep_view().take(i + 1).contains(x) {
                        let t = choose|t: int|
                            0 <= t < v.deep_view().take(i + 1).len() && (#[trigger] v.deep_view(
                            ).take(i + 1)[t]) == x;
                        if t < i {
                            assert(taken[t] == x);
                            assert(taken.contains(x));
                            assert(r0.contains(x));
                            let j = choose|j: int| 0 <= j < r0.len() && r0[j] == x;
                            assert(r.deep_view()[j] == x);
                        } else {
                            assert(r.deep_view()[r0.len() as int] == x);
                        }
                    }
                }
            }
        } else {
            proof {
                assert(v@[i as int]@ == next);
                assert(taken.contains(next));
                assert forall|x: Seq<char>| #[trigger] r.deep_view().contains(x) <==> v.deep_view(
                ).take(i + 1).contains(x) by {
                    if v.deep_view().take(i + 1).contains(x) {
                        let t = choose|t: int|
                            0 <= t < v.deep_view().take(i + 1).len() && (#[trigger] v.deep_view(
                            ).take(i + 1)[t]) == x;
                        if t < i {
                            assert(taken[t] == x);
                            assert(taken.contains(x));
                        } else {
                            assert(x == next);
                        }
                    }
                    if r.deep_view().contains(x) {
                        let t = choose|t: int| 0 <= t < taken.len() && taken[t] == x;
                        assert(v.deep_view().take(i + 1)[t] == x);
                    }
                }
            }
        }
        i = i + 1;
    }
    proof {
        assert(v.deep_view().take(vn as int) =~= v.deep_view());
    }
    r
}


/// The members of `ns` that are also in `req`, in order.
pub open spec fn spec_stop_names(ns: Seq<Seq<char>>, req: Seq<Seq<char>>) -> Seq<Seq<char>>
    decreases ns.len(),
{
    if ns.len() == 0 {
        Seq::empty()
    } else if req.contains(ns[0]) {
        seq![ns[0]] + spec_stop_names(ns.skip(1), req)
    } else {
        spec_stop_names(ns.skip(1), req)
    }
}

/// The members of `ns` that are not in `req`, in order.
pub open spec fn spec_keep_names(ns: Seq<Seq<char>>, req: Seq<Seq<char>>) -> Seq<Seq<char>>
    decreases ns.len(),
{
    if ns.len() == 0 {
        Seq::empty()
    } else if req.contains(ns[0]) {
        spec_keep_names(ns.skip(1), req)
    } else {
        seq![ns[0]] + spec_keep_names(ns.skip(1), req)
    }
}

/// One side of partitioning the ledger by the requested names: per row,
/// the requested names of that row (`stop` true) or the others (`stop`
/// false); a row whose side is empty is left out entirely.
pub open spec fn spec_partition(es: LedgerView, req: Seq<Seq<char>>, stop: bool) -> LedgerView
    decreases es.len(),
{
    if es.len() == 0 {
        LedgerView::empty()
    } else {
        let names = if stop {
            spec_stop_names(es[0].1, req)
        } else {
            spec_keep_names(es[0].1, req)
        };
        let rest = spec_partition(es.skip(1), req, stop);
        if names.len() > 0 {
            seq![(es[0].0, names)] + rest
        } else {
            rest
        }
    }
}

/// Partitioning keeps every row under its own path, so a ledger with
/// distinct paths partitions into sides with distinct paths.
pub proof fn lemma_partition_distinct(es: LedgerView, req: Seq<Seq<char>>, stop: bool)
    requires
        distinct_keys(es),
    ensures
        distinct_keys(spec_partition(es, req, stop)),
        forall|t: int|
            0 <= t < spec_partition(es, req, stop).len() ==> exists|u: int|
                0 <= u < es.len() && (#[trigger] spec_partition(es, req, stop)[t]).0 == es[u].0,
    decreases es.len(),
{
    let part = spec_partition(es, req, stop);
    if es.len() == 0 {
    } else {
        assert(distinct_keys(es.skip(1))) by {
            assert(forall|t: int| 0 <= t < es.skip(1).len() ==> es.skip(1)[t] == es[t + 1]);
        }
        lemma_partition_distinct(es.skip(1), req, stop);
        let rest = spec_partition(es.skip(1), req, stop);
        assert forall|t: int| 0 <= t < part.len() implies exists|u: int|
            0 <= u < es.len() && (#[trigger] part[t]).0 == es[u].0 by {
            if part.len() == rest.len() {
                let u = choose|u: int| 0 <= u < es.skip(1).len() && rest[t].0 == es.skip(1)[u].0;
                assert(part[t].0 == es[u + 1].0);
            } else {
                if t == 0 {
                    assert(part[0].0 == es[0].0);
                } else {
                    let u = choose|u: int|
                        0 <= u < es.skip(1).len() && rest[t - 1].0 == es.skip(1)[u].0;
                    assert(part[t].0 == es[u + 1].0);
                }
            }
        }
        assert forall|i: int, j: int| 0 <= i < j < part.len() implies (#[trigger] part[i]).0 != (
        #[trigger] part[j]).0 by {
            if part.len() != rest.len() && i == 0 {
                let u = choose|u: int|
                    0 <= u < es.skip(1).len() && rest[j - 1].0 == es.skip(1)[u].0;
                assert(part[j].0 == es[u + 1].0);
                assert(part[0].0 == es[0].0);
            } else if part.len() != rest.len() {
                assert(part[i] == rest[i - 1] && part[j] == rest[j - 1]);
            } else {
                assert(part[i] == rest[i] && part[j] == rest[j]);
            }
        }
    }
}

/// Whether the ledger lists the service `n` as running under any path.
pub open spec fn name_running(es: LedgerView, n: Seq<char>) -> bool {
    exists|i: int| 0 <= i < es.len() && (#[trigger] es[i]).1.contains(n)
}

/// The first requested name the ledger lists as running, if any.
pub open spec fn spec_first_conflict(req: Seq<Seq<char>>, es: LedgerView) -> Option<Seq<char>>
    decreases req.len(),
{
    if req.len() == 0 {
        None
    } else if name_running(es, req[0]) {
        Some(req[0])
    } else {
        spec_first_conflict(req.skip(1), es)
    }
}

/// The path of the first ledger row that lists `n` as running, if any.
pub open spec fn spec_first_path_running(es: LedgerView, n: Seq<char>) -> Option<Seq<char>>
    decreases es.len(),
{
    if es.len() == 0 {
        None
    } else if es[0].1.contains(n) {
        Some(es[0].0)
    } else {
        spec_first_path_running(es.skip(1), n)
    }
}

/// The "database" for what carbon keeps track of between invocations:
/// all the services that are currently running and the deployment file
/// each one is running in, as path/names rows with pairwise distinct
/// paths.
pub struct Emissions {
    running: Vec<LedgerEntry>,
}

impl View for Emissions {
    type V = LedgerView;

    closed spec fn view(&self) -> LedgerView {
        self.running.deep_view()
    }
}

impl Default for Emissions {
    /// An empty ledger: nothing is running.
    fn default() -> (r: Emissions)
        ensures
            r@ == LedgerView::empty(),
            r.wf(),
    {
        let r = Emissions { running: Vec::new() };
        proof {
            assert(r@ =~= LedgerView::empty());
        }
        r
    }
}

impl Emissions {
    /// The ledger's structural invariant: one row per path.
    pub open spec fn wf(self) -> bool {
        distinct_keys(self@)
    }

    /// Get the list of services that are currently running and what
    /// deployment file they are running in.
    pub fn get_running_services(&self) -> (r: &Vec<LedgerEntry>)
        ensures
            r.deep_view() == self@,
    {
        &self.running
    }

    /// Replace the whole running-services ledger with a new one.
    pub fn set_running_services(&mut self, services: Vec<LedgerEntry>)
        requires
            distinct_keys(services.deep_view()),
        ensures
            final(self)@ == services.deep_view(),
            final(self).wf(),
    {
        self.running = services;
    }

    /// Add a new service list to the running services ledger: an upsert
    /// that replaces any earlier list stored for the same deployment-file
    /// path (it does not merge with it), with duplicate names dropped.
    pub fn add_running_service(&mut self, path: &str, services: &Vec<String>)
        ensures
            final(self)@ == spec_upsert(old(self)@, path@, spec_dedup(services.deep_view())),
            old(self).wf() ==> final(self).wf(),
    {
        proof {
            if distinct_keys(self@) {
                lemma_upsert_lookup(self@, path@, spec_dedup(services.deep_view()));
            }
        }
        let deduped = dedup_names(services);
        let ghost k = path@;
        let ghost v = spec_dedup(services.deep_view());
        let ghost es = self.running.deep_view();
        let n = self.running.len();
        let mut out: Vec<LedgerEntry> = Vec::new();
        let mut i: usize = 0;
        let mut replaced = false;
        proof {
            assert(es.skip(0) =~= es);
            assert(es.len() == self.running@.len());
            assert(out.deep_view() + spec_upsert(es, k, v) =~= spec_upsert(es, k, v));
        }
        while i < n
            invariant
                i <= n,
                n == self.running@.len(),
                es == self.running.deep_view(),
                es.len() == n,
                k == path@,
                v == spec_dedup(services.deep_view()),
                deduped.deep_view() == v,
                replaced ==> spec_upsert(es, k, v) == out.deep_view() + es.skip(i as int),
                !replaced ==> spec_upsert(es, k, v) == out.deep_view() + spec_upsert(
                    es.skip(i as int),
                    k,
                    v,
                ),
            decreases n - i,
        {
            let ghost out0 = out.deep_view();
            let ghost rest = es.skip(i as int);
            proof {
                assert(rest[0] == es[i as int]);
                assert(rest.skip(1) =~= es.skip(i + 1));
                assert(es[i as int] == self.running@[i as int].deep_view());
            }
            let entry = &self.running[i];
            if !replaced && str_eq(entry.0.as_str(), path) {
                let names = copy_strings(&deduped);
                out.push((path.to_owned(), names));
                replaced = true;
                i = i + 1;
                proof {
                    assert(rest[0].0 == k);
                    assert(spec_upsert(rest, k, v) == seq![(k, v)] + rest.skip(1));
                    assert(out.deep_view() =~= out0.push((k, v)));
                    assert(out0 + (seq![(k, v)] + es.skip(i as int)) =~= out.deep_view() + es.skip(
                        i as int,
                    ));
                }
            } else {
                let key = entry.0.clone();
                let names = copy_strings(&entry.1);
                out.push((key, names));
                i = i + 1;
                proof {
                    assert(out.deep_view() =~= out0.push(es[(i - 1) as int]));
                    if replaced {
                        assert(out0 + (seq![rest[0]] + es.skip(i as int)) =~= out.deep_view()
                            + es.skip(i as int));
                        assert(seq![rest[0]] + rest.skip(1) =~= rest);
                    } else {
                        assert(rest[0].0 != k);
                        assert(spec_upsert(rest, k, v) == seq![rest[0]] + spec_upsert(
                            es.skip(i as int),
                            k,
                            v,
                        ));
                        assert(out0 + (seq![rest[0]] + spec_upsert(es.skip(i as int), k, v))
                            =~= out.deep_view() + spec_upsert(es.skip(i as int), k, v));
                    }
                }
            }
        }
        proof {
            assert(es.skip(n as int) =~= LedgerView::empty());
        }
        if !replaced {
            let ghost out0 = out.deep_view();
            out.push((path.to_owned(), deduped));
            proof {
                assert(spec_upsert(LedgerView::empty(), k, v) == seq![(k, v)]);
                assert(out.deep_view() =~= out0.push((k, v)));
                assert(out0 + seq![(k, v)] =~= out.deep_view());
            }
        } else {
            proof {
                assert(out.deep_view() + LedgerView::empty() =~= out.deep_view());
            }
        }
        self.running = out;
    }

    /// Partition the ledger by the requested names: for every row, every
    /// running name that is also requested moves to the first mapping
    /// (the services to stop, grouped by their deployment file), every
    /// other name stays in the second (the services to keep running). A
    /// row with nothing on one side is absent from that side; a requested
    /// name that is running nowhere is simply absent from the result.
    pub fn partition_for_stop(&self, services: &Vec<String>) -> (r: (
        Vec<LedgerEntry>,
        Vec<LedgerEntry>,
    ))
        ensures
            r.0.deep_view() == spec_partition(self@, services.deep_view(), true),
            r.1.deep_view() == spec_partition(self@, services.deep_view(), false),
    {
        let ghost es = self@;
        let ghost req = services.deep_view();
        let n = self.running.len();
        let mut to_stop: Vec<LedgerEntry> = Vec::new();
        let mut to_keep: Vec<LedgerEntry> = Vec::new();
        let mut i: usize = 0;
        proof {
            assert(es.skip(0) =~= es);
            assert(es.len() == self.running@.len());
            assert(to_stop.deep_view() + spec_partition(es, req, true) =~= spec_partition(
                es,
                req,
                true,
            ));
            assert(to_keep.deep_view() + spec_partition(es, req, false) =~= spec_partition(
                es,
                req,
                false,
            ));
        }
        while i < n
            invariant
                i <= n,
                n == self.running@.len(),
                es == self@,
                es.len() == n,
                req == services.deep_view(),
                spec_partition(es, req, true) == to_stop.deep_view() + spec_partition(
                    es.skip(i as int),
                    req,
                    true,
                ),
                spec_partition(es, req, false) == to_keep.deep_view() + spec_partition(
                    es.skip(i as int),
                    req,
                    false,
                ),
            decreases n - i,
        {
            let ghost rest = es.skip(i as int);
            proof {
                assert(rest[0] == es[i as int]);
                assert(rest.skip(1) =~= es.skip(i + 1));
                assert(es[i as int] == self.running@[i as int].deep_view());
            }
            let entry = &self.running[i];
            let ghost names = entry.1.deep_view();
            let en = entry.1.len();
            let mut stop_names: Vec<String> = Vec::new();
            let mut keep_names: Vec<String> = Vec::new();
            let mut j: usize = 0;
            proof {
                assert(names.skip(0) =~= names);
                assert(names.len() == entry.1@.len());
                assert(stop_names.deep_view() + spec_stop_names(names, req) =~= spec_stop_names(
                    names,
                    req,
                ));
                assert(keep_names.deep_view() + spec_keep_names(names, req) =~= spec_keep_names(
                    names,
                    req,
                ));
            }
            while j < en
                invariant
                    j <= en,
                    en == entry.1@.len(),
                    names == entry.1.deep_view(),
                    names.len() == en,
                    req == services.deep_view(),
                    spec_stop_names(names, req) == stop_names.deep_view() + spec_stop_names(
                        names.skip(j as int),
                        req,
                    ),
                    spec_keep_names(names, req) == keep_names.deep_view() + spec_keep_names(
                        names.skip(j as int),
                        req,
                    ),
                decreases en - j,
            {
                let ghost nrest = names.skip(j as int);
                proof {
                    assert(nrest[0] == names[j as int]);
                    assert(nrest.skip(1) =~= names.skip(j + 1));
                    assert(names[j as int] == entry.1@[j as int]@);
                }
                if names_contain(services, entry.1[j].as_str()) {
                    let ghost s0 = stop_names.deep_view();
                    stop_names.push(entry.1[j].clone());
                    j = j + 1;
                    proof {
                        assert(stop_names.deep_view() =~= s0.push(names[(j - 1) as int]));
                        assert(spec_stop_names(nrest, req) == seq![nrest[0]] + spec_stop_names(
                            names.skip(j as int),
                            req,
                        ));
                        assert(s0 + (seq![nrest[0]] + spec_stop_names(names.skip(j as int), req))
                            =~= stop_names.deep_view() + spec_stop_names(
                            names.skip(j as int),
                            req,
                        ));
                    }
                } else {
                    let ghost k0 = keep_names.deep_view();
                    keep_names.push(entry.1[j].clone());
                    j = j + 1;
                    proof {
                        assert(keep_names.deep_view() =~= k0.push(names[(j - 1) as int]));
                        assert(spec_keep_names(nrest, req) == seq![nrest[0]] + spec_keep_names(
                            names.skip(j as int),
                            req,
                        ));
                        assert(k0 + (seq![nrest[0]] + spec_keep_names(names.skip(j as int), req))
                            =~= keep_names.deep_view() + spec_keep_names(
                            names.skip(j as int),
                            req,
                        ));
                    }
                }
            }
            proof {
                assert(names.skip(en as int) =~= Seq::<Seq<char>>::empty());
                assert(stop_names.deep_view() + Seq::<Seq<char>>::empty() =~= stop_names.deep_view());
                assert(keep_names.deep_view() + Seq::<Seq<char>>::empty() =~= keep_names.deep_view());
                assert(stop_names.deep_view() == spec_stop_names(rest[0].1, req));
                assert(keep_names.deep_view() == spec_keep_names(rest[0].1, req));
            }
            let ghost st0 = to_stop.deep_view();
            let ghost kp0 = to_keep.deep_view();
            if stop_names.len() > 0 {
                let key = entry.0.clone();
                to_stop.push((key, stop_names));
                proof {
                    assert(to_stop.deep_view() =~= st0.push((rest[0].0, spec_stop_names(
                        rest[0].1,
                        req,
                    ))));
                }
            }
            if keep_names.len() > 0 {
                let key = entry.0.clone();
                to_keep.push((key, keep_names));
                proof {
                    assert(to_keep.deep_view() =~= kp0.push((rest[0].0, spec_keep_names(
                        rest[0].1,
                        req,
                    ))));
                }
            }
            i = i + 1;
            proof {
                let st_names = spec_stop_names(rest[0].1, req);
                let kp_names = spec_keep_names(rest[0].1, req);
                if st_names.len() > 0 {
                    assert(spec_partition(rest, req, true) == seq![(rest[0].0, st_names)]
                        + spec_partition(es.skip(i as int), req, true));
                    assert(st0 + (seq![(rest[0].0, st_names)] + spec_partition(
                        es.skip(i as int),
                        req,
                        true,
                    )) =~= to_stop.deep_view() + spec_partition(es.skip(i as int), req, true));
                } else {
                    assert(spec_partition(rest, req, true) == spec_partition(
                        es.skip(i as int),
                        req,
                        true,
                    ));
                }
                if kp_names.len() > 0 {
                    assert(spec_partition(rest, req, false) == seq![(rest[0].0, kp_names)]
                        + spec_partition(es.skip(i as int), req, false));
                    assert(kp0 + (seq![(rest[0].0, kp_names)] + spec_partition(
                        es.skip(i as int),
                        req,
                        false,
                    )) =~= to_keep.deep_view() + spec_partition(es.skip(i as int), req, false));
                } else {
                    assert(spec_partition(rest, req, false) == spec_partition(
                        es.skip(i as int),
                        req,
                        false,
                    ));
                }
            }
        }
        proof {
            assert(es.skip(n as int) =~= LedgerView::empty());
            assert(spec_partition(LedgerView::empty(), req, true) == LedgerView::empty());
            assert(spec_partition(LedgerView::empty(), req, false) == LedgerView::empty());
            assert(to_stop.deep_view() + LedgerView::empty() =~= to_stop.deep_view());
            assert(to_keep.deep_view() + LedgerView::empty() =~= to_keep.deep_view());
        }
        (to_stop, to_keep)
    }

    /// Commit a stop of the requested services: the ledger keeps, per
    /// row, only the names that were not requested, rows left empty
    /// disappear, and the rows of services to stop — the other side of
    /// the partition — are handed back, grouped by deployment file.
    pub fn apply_stop(&mut self, services: &Vec<String>) -> (r: Vec<LedgerEntry>)
        requires
            old(self).wf(),
        ensures
            final(self)@ == spec_partition(old(self)@, services.deep_view(), false),
            final(self).wf(),
            r.deep_view() == spec_partition(old(self)@, services.deep_view(), true),
    {
        let (to_stop, to_keep) = self.partition_for_stop(services);
        proof {
            lemma_partition_distinct(self@, services.deep_view(), false);
        }
        self.set_running_services(to_keep);
        to_stop
    }

    /// Whether the ledger lists the service `name` as running under any
    /// deployment-file path.
    pub fn is_running(&self, name: &str) -> (r: bool)
        ensures
            r == name_running(self@, name@),
    {
        let n = self.running.len();
        let mut i: usize = 0;
        proof {
            assert(self@.len() == self.running@.len());
        }
        while i < n
            invariant
                i <= n,
                n == self.running@.len(),
                self@.len() == n,
                forall|j: int| 0 <= j < i ==> !(#[trigger] self@[j]).1.contains(name@),
            decreases n - i,
        {
            proof {
                assert(self@[i as int] == self.running@[i as int].deep_view());
            }
            if names_contain(&self.running[i].1, name) {
                proof {
                    assert(self@[i as int].1.contains(name@));
                }
                return true;
            }
            i = i + 1;
        }
        proof {
            if name_running(self@, name@) {
                let j = choose|j: int| 0 <= j < self@.len() && (#[trigger] self@[j]).1.contains(
                    name@,
                );
                assert(false);
            }
        }
        false
    }

    /// The already-running guard: the first requested name the ledger
    /// lists as running under any path, if there is one; `None` exactly
    /// when no requested name is running.
    pub fn first_running_conflict(&self, services: &Vec<String>) -> (r: Option<String>)
        ensures
            r matches Some(n) ==> Some(n@) == spec_first_conflict(services.deep_view(), self@),
            r is None <==> (forall|j: int|
                0 <= j < services.deep_view().len() ==> !name_running(
                    self@,
                    #[trigger] services.deep_view()[j],
                )),
    {
        let ghost req = services.deep_view();
        let sn = services.len();
        let mut i: usize = 0;
        proof {
            assert(req.skip(0) =~= req);
            assert(req.len() == services@.len());
        }
        while i < sn
            invariant
                i <= sn,
                sn == services@.len(),
                req == services.deep_view(),
                req.len() == sn,
                forall|j: int| 0 <= j < i ==> !name_running(self@, #[trigger] req[j]),
                spec_first_conflict(req, self@) == spec_first_conflict(req.skip(i as int), self@),
            decreases sn - i,
        {
            let ghost rest = req.skip(i as int);
            proof {
                assert(rest[0] == req[i as int]);
                assert(rest.skip(1) =~= req.skip(i + 1));
                assert(req[i as int] == services@[i as int]@);
            }
            if self.is_running(services[i].as_str()) {
                let found = services[i].clone();
                proof {
                    assert(found@ == req[i as int]);
                    assert(spec_first_conflict(rest, self@) == Some(req[i as int]));
                }
                return Some(found);
            }
            i = i + 1;
        }
        proof {
            assert(req.skip(sn as int) =~= Seq::<Seq<char>>::empty());
        }
        None
    }

    /// The deployment-file path of the first ledger row that lists `name`
    /// as running, if any: the file a service must be stopped or rebuilt
    /// through.
    pub fn path_running_service(&self, name: &str) -> (r: Option<String>)
        ensures
            r matches Some(p) ==> Some(p@) == spec_first_path_running(self@, name@),
            r is Some <==> name_running(self@, name@),
    {
        let ghost es = self@;
        let n = self.running.len();
        let mut i: usize = 0;
        proof {
            assert(es.skip(0) =~= es);
            assert(es.len() == self.running@.len());
        }
        while i < n
            invariant
                i <= n,
                n == self.running@.len(),
                es == self@,
                es.len() == n,
                forall|j: int| 0 <= j < i ==> !(#[trigger] es[j]).1.contains(name@),
                spec_first_path_running(es, name@) == spec_first_path_running(
                    es.skip(i as int),
                    name@,
                ),
            decreases n - i,
        {
            let ghost rest = es.skip(i as int);
            proof {
                assert(rest[0] == es[i as int]);
                assert(rest.skip(1) =~= es.skip(i + 1));
                assert(es[i as int] == self.running@[i as int].deep_view());
            }
            if names_contain(&self.running[i].1, name) {
                let path = self.running[i].0.clone();
                proof {
                    assert(path@ == es[i as int].0);
                    assert(spec_first_path_running(rest, name@) == Some(es[i as int].0));
                    assert(es[i as int].1.contains(name@));
                }
                return Some(path);
            }
            i = i + 1;
        }
        proof {
            assert(es.skip(n as int) =~= LedgerView::empty());
            if name_running(es, name@) {
                let j = choose|j: int| 0 <= j < es.len() && (#[trigger] es[j]).1.contains(name@);
                assert(false);
            }
        }
        None
    }
}

} // verus!
