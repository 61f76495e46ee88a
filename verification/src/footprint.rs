use vstd::prelude::*;
use crate::strings::str_eq;

verus! {

/// One registered dotenv file: whether it is the active one, and the
/// short identifier the user gave it.
pub struct Dotenv {
    pub active: bool,
    pub id: String,
}

/// The ghost image of a registered dotenv file.
#[verifier::ext_equal]
pub ghost struct DotenvView {
    pub active: bool,
    pub id: Seq<char>,
}

impl View for Dotenv {
    type V = DotenvView;

    open spec fn view(&self) -> DotenvView {
        DotenvView { active: self.active, id: self.id@ }
    }
}

impl DeepView for Dotenv {
    type V = DotenvView;

    open spec fn deep_view(&self) -> DotenvView {
        self@
    }
}

/// The rows of the footprint: a dotenv-file path and its registration.
pub type FootprintView = Seq<(Seq<char>, DotenvView)>;

/// No two rows share a path.
pub open spec fn distinct_paths(es: FootprintView) -> bool {
    forall|i: int, j: int| 0 <= i < j < es.len() ==> (#[trigger] es[i]).0 != (#[trigger] es[j]).0
}

/// The path of the first active row, if any row is active.
pub open spec fn spec_current_env(es: FootprintView) -> Option<Seq<char>>
    decreases es.len(),
{
    if es.len() == 0 {
        None
    } else if es[0].1.active {
        Some(es[0].0)
    } else {
        spec_current_env(es.skip(1))
    }
}

/// The rows with every registration marked inactive.
pub open spec fn spec_deactivate(es: FootprintView) -> FootprintView {
    es.map_values(|e: (Seq<char>, DotenvView)| (e.0, DotenvView { active: false, id: e.1.id }))
}

/// The rows with the row for `k` replaced by `(k, v)`, or `(k, v)`
/// appended when no row for `k` exists.
pub open spec fn spec_env_upsert(es: FootprintView, k: Seq<char>, v: DotenvView) -> FootprintView
    decreases es.len(),
{
    if es.len() == 0 {
        seq![(k, v)]
    } else if es[0].0 == k {
        seq![(k, v)] + es.skip(1)
    } else {
        seq![es[0]] + spec_env_upsert(es.skip(1), k, v)
    }
}

/// The identifier under which a new dotenv file is registered: cut down
/// to its first five characters when it is longer than five.
pub open spec fn spec_short_id(id: Seq<char>) -> Seq<char> {
    if id.len() > 5 {
        id.take(5)
    } else {
        id
    }
}

/// Deactivating changes no path, and upserting afterwards keeps one row
/// per path.
pub proof fn lemma_env_upsert_distinct(es: FootprintView, k: Seq<char>, v: DotenvView)
    requires
        distinct_paths(es),
    ensures
        distinct_paths(spec_env_upsert(es, k, v)),
        spec_env_upsert(es, k, v).len() <= es.len() + 1,
        forall|t: int|
            0 <= t < spec_env_upsert(es, k, v).len() ==> ((#[trigger] spec_env_upsert(
                es,
                k,
                v,
            )[t]).0 == k || exists|u: int| 0 <= u < es.len() && spec_env_upsert(es, k, v)[t].0 == es[u].0),
    decreases es.len(),
{
    let up = spec_env_upsert(es, k, v);
    if es.len() == 0 {
    } else if es[0].0 == k {
        assert(up.skip(1) =~= es.skip(1));
        assert(forall|t: int| 0 <= t < es.skip(1).len() ==> es.skip(1)[t] == es[t + 1]);
        assert forall|t: int| 0 <= t < up.len() implies ((#[trigger] up[t]).0 == k || exists|u: int|
            0 <= u < es.len() && up[t].0 == es[u].0) by {
            if t > 0 {
                assert(up[t].0 == es[t].0);
            }
        }
    } else {
        assert(distinct_paths(es.skip(1))) by {
            assert(forall|t: int| 0 <= t < es.skip(1).len() ==> es.skip(1)[t] == es[t + 1]);
        }
        lemma_env_upsert_distinct(es.skip(1), k, v);
        let subup = spec_env_upsert(es.skip(1), k, v);
        assert(up[0] == es[0]);
        assert(up.skip(1) =~= subup);
        assert forall|t: int| 0 <= t < up.len() implies ((#[trigger] up[t]).0 == k || exists|u: int|
            0 <= u < es.len() && up[t].0 == es[u].0) by {
            if t > 0 {
                assert(up[t] == subup[t - 1]);
                if subup[t - 1].0 != k {
                    let u = choose|u: int|
                        0 <= u < es.skip(1).len() && subup[t - 1].0 == es.skip(1)[u].0;
                    assert(up[t].0 == es[u + 1].0);
                }
            }
        }
        assert forall|i: int, j: int| 0 <= i < j < up.len() implies (#[trigger] up[i]).0 != (
        #[trigger] up[j]).0 by {
            if i == 0 {
                assert(up[j] == subup[j - 1]);
                if subup[j - 1].0 == k {
                } else {
                    let u = choose|u: int|
                        0 <= u < es.skip(1).len() && subup[j - 1].0 == es.skip(1)[u].0;
                    assert(es.skip(1)[u] == es[u + 1]);
                }
            } else {
                assert(up[i] == subup[i - 1] && up[j] == subup[j - 1]);
            }
        }
    }
}

/// Removing rows keeps one row per path.
pub proof fn lemma_remove_id_distinct(es: FootprintView, id: Seq<char>)
    requires
        distinct_paths(es),
    ensures
        distinct_paths(spec_remove_id(es, id)),
        forall|t: int|
            0 <= t < spec_remove_id(es, id).len() ==> exists|u: int|
                0 <= u < es.len() && (#[trigger] spec_remove_id(es, id)[t]) == es[u],
    decreases es.len(),
{
    let part = spec_remove_id(es, id);
    if es.len() == 0 {
    } else {
        assert(distinct_paths(es.skip(1))) by {
            assert(forall|t: int| 0 <= t < es.skip(1).len() ==> es.skip(1)[t] == es[t + 1]);
        }
        lemma_remove_id_distinct(es.skip(1), id);
        let rest = spec_remove_id(es.skip(1), id);
        assert forall|t: int| 0 <= t < part.len() implies exists|u: int|
            0 <= u < es.len() && (#[trigger] part[t]) == es[u] by {
            if part.len() == rest.len() {
                let u = choose|u: int| 0 <= u < es.skip(1).len() && rest[t] == es.skip(1)[u];
                assert(part[t] == es[u + 1]);
            } else if t == 0 {
                assert(part[0] == es[0]);
            } else {
                let u = choose|u: int| 0 <= u < es.skip(1).len() && rest[t - 1] == es.skip(1)[u];
                assert(part[t] == es[u + 1]);
            }
        }
        assert forall|i: int, j: int| 0 <= i < j < part.len() implies (#[trigger] part[i]).0 != (
        #[trigger] part[j]).0 by {
            if part.len() != rest.len() && i == 0 {
                let u = choose|u: int| 0 <= u < es.skip(1).len() && rest[j - 1] == es.skip(1)[u];
                assert(part[j] == es[u + 1]);
                assert(part[0] == es[0]);
            } else if part.len() != rest.len() {
                assert(part[i] == rest[i - 1] && part[j] == rest[j - 1]);
            } else {
                assert(part[i] == rest[i] && part[j] == rest[j]);
            }
        }
    }
}

/// The actual "configuration" file for the program. Although not written
/// by the user, this is where carbon keeps track of all the dotenv files
/// a user has registered and which one is active.
pub struct Footprint {
    dotenv: Vec<(String, Dotenv)>,
}

impl View for Footprint {
    type V = FootprintView;

    closed spec fn view(&self) -> FootprintView {
        self.dotenv.deep_view()
    }
}

impl Default for Footprint {
    /// An empty footprint: no dotenv file is registered.
    fn default() -> (r: Footprint)
        ensures
            r@ == FootprintView::empty(),
            r.wf(),
    {
        let r = Footprint { dotenv: Vec::new() };
        proof {
            assert(r@ =~= FootprintView::empty());
        }
        r
    }
}

impl Footprint {
    /// The footprint's structural invariant: one row per path.
    pub open spec fn wf(self) -> bool {
        distinct_paths(self@)
    }

    /// Rebuild a footprint from rows, as the persistence layer loads
    /// them.
    pub fn from_entries(entries: Vec<(String, Dotenv)>) -> (r: Footprint)
        ensures
            r@ == entries.deep_view(),
    {
        Footprint { dotenv: entries }
    }

    /// The registered rows, for rendering and persistence.
    pub fn entries(&self) -> (r: &Vec<(String, Dotenv)>)
        ensures
            r.deep_view() == self@,
    {
        &self.dotenv
    }

    /// Get the list of dotenv files the user has registered and find the
    /// one that is active, if there is one.
    pub fn get_current_env(&self) -> (r: Option<String>)
        ensures
            r matches Some(p) ==> Some(p@) == spec_current_env(self@),
            r is Some <==> spec_current_env(self@) is Some,
    {
        let ghost es = self@;
        let n = self.dotenv.len();
        let mut i: usize = 0;
        proof {
            assert(es.skip(0) =~= es);
            assert(es.len() == self.dotenv@.len());
        }
        while i < n
            invariant
                i <= n,
                n == self.dotenv@.len(),
                es == self@,
                es.len() == n,
                spec_current_env(es) == spec_current_env(es.skip(i as int)),
            decreases n - i,
        {
            let ghost rest = es.skip(i as int);
            proof {
                assert(rest[0] == es[i as int]);
                assert(rest.skip(1) =~= es.skip(i + 1));
                assert(es[i as int] == self.dotenv@[i as int].deep_view());
            }
            if self.dotenv[i].1.active {
                let path = self.dotenv[i].0.clone();
                proof {
                    assert(spec_current_env(rest) == Some(es[i as int].0));
                }
                return Some(path);
            }
            i = i + 1;
        }
        proof {
            assert(es.skip(n as int) =~= FootprintView::empty());
        }
        None
    }

    /// Add a new dotenv file to the registered list, updating its row if
    /// the path already exists, marking every other file inactive and the
    /// added one active. A long identifier is cut to five characters.
    pub fn add_env_file(&mut self, path: &str, id: &str)
        ensures
            final(self)@ == spec_env_upsert(
                spec_deactivate(old(self)@),
                path@,
                (DotenvView { active: true, id: spec_short_id(id@) }),
            ),
            old(self).wf() ==> final(self).wf(),
    {
        proof {
            if distinct_paths(self@) {
                assert(distinct_paths(spec_deactivate(self@))) by {
                    assert(forall|t: int|
                        0 <= t < self@.len() ==> (#[trigger] spec_deactivate(self@)[t]).0
                            == self@[t].0);
                }
                lemma_env_upsert_distinct(
                    spec_deactivate(self@),
                    path@,
                    DotenvView { active: true, id: spec_short_id(id@) },
                );
            }
        }
        let idn = id.unicode_len();
        let short = if idn > 5 {
            id.substring_char(0, 5).to_owned()
        } else {
            id.to_owned()
        };
        proof {
            assert(short@ == spec_short_id(id@));
        }
        let ghost es = spec_deactivate(self@);
        let ghost k = path@;
        let ghost v = DotenvView { active: true, id: spec_short_id(id@) };
        let n = self.dotenv.len();
        let mut out: Vec<(String, Dotenv)> = Vec::new();
        let mut i: usize = 0;
        let mut replaced = false;
        proof {
            assert(es.skip(0) =~= es);
            assert(es.len() == self.dotenv@.len());
            assert(out.deep_view() + spec_env_upsert(es, k, v) =~= spec_env_upsert(es, k, v));
        }
        while i < n
            invariant
                i <= n,
                n == self.dotenv@.len(),
                es == spec_deactivate(self@),
                es.len() == n,
                k == path@,
                v == (DotenvView { active: true, id: spec_short_id(id@) }),
                short@ == spec_short_id(id@),
                replaced ==> spec_env_upsert(es, k, v) == out.deep_view() + es.skip(i as int),
                !replaced ==> spec_env_upsert(es, k, v) == out.deep_view() + spec_env_upsert(
                    es.skip(i as int),
                    k,
                    v,
                ),
            decreases n - i,
        {
            let ghost out0 = out.deep_view();
            let ghost rest = es.skip(i as int);
            proof {
                assert(rest[0] == es[i as int]);
                assert(rest.skip(1) =~= es.skip(i + 1));
                assert(es[i as int] == (
                    self.dotenv@[i as int].deep_view().0,
                    DotenvView { active: false, id: self.dotenv@[i as int].deep_view().1.id },
                ));
            }
            let entry = &self.dotenv[i];
            if !replaced && str_eq(entry.0.as_str(), path) {
                out.push((path.to_owned(), Dotenv { active: true, id: short.clone() }));
                replaced = true;
                i = i + 1;
                proof {
                    assert(rest[0].0 == k);
                    assert(spec_env_upsert(rest, k, v) == seq![(k, v)] + rest.skip(1));
                    assert(out.deep_view() =~= out0.push((k, v)));
                    assert(out0 + (seq![(k, v)] + es.skip(i as int)) =~= out.deep_view() + es.skip(
                        i as int,
                    ));
                }
            } else {
                out.push((entry.0.clone(), Dotenv { active: false, id: entry.1.id.clone() }));
                i = i + 1;
                proof {
                    assert(out.deep_view() =~= out0.push(es[(i - 1) as int]));
                    if replaced {
                        assert(seq![rest[0]] + rest.skip(1) =~= rest);
                        assert(out0 + (seq![rest[0]] + es.skip(i as int)) =~= out.deep_view()
                            + es.skip(i as int));
                    } else {
                        assert(rest[0].0 != k);
                        assert(spec_env_upsert(rest, k, v) == seq![rest[0]] + spec_env_upsert(
                            es.skip(i as int),
                            k,
                            v,
                        ));
                        assert(out0 + (seq![rest[0]] + spec_env_upsert(es.skip(i as int), k, v))
                            =~= out.deep_view() + spec_env_upsert(es.skip(i as int), k, v));
                    }
                }
            }
        }
        proof {
            assert(es.skip(n as int) =~= FootprintView::empty());
        }
        if !replaced {
            let ghost out0 = out.deep_view();
            out.push((path.to_owned(), Dotenv { active: true, id: short }));
            proof {
                assert(spec_env_upsert(FootprintView::empty(), k, v) == seq![(k, v)]);
                assert(out.deep_view() =~= out0.push((k, v)));
                assert(out0 + seq![(k, v)] =~= out.deep_view());
            }
        } else {
            proof {
                assert(out.deep_view() + FootprintView::empty() =~= out.deep_view());
            }
        }
        self.dotenv = out;
    }

    /// Activate every dotenv file registered under the given identifier
    /// and deactivate all the others.
    pub fn activate_env_file(&mut self, id: &str)
        ensures
            final(self)@.len() == old(self)@.len(),
            forall|i: int|
                0 <= i < old(self)@.len() ==> #[trigger] final(self)@[i] == (
                    old(self)@[i].0,
                    DotenvView { active: old(self)@[i].1.id == id@, id: old(self)@[i].1.id },
                ),
            old(self).wf() ==> final(self).wf(),
    {
        let ghost es = self@;
        let n = self.dotenv.len();
        let mut out: Vec<(String, Dotenv)> = Vec::new();
        let mut i: usize = 0;
        proof {
            assert(es.len() == self.dotenv@.len());
        }
        while i < n
            invariant
                i <= n,
                n == self.dotenv@.len(),
                es == self@,
                es.len() == n,
                out.deep_view().len() == i,
                forall|t: int|
                    0 <= t < i ==> #[trigger] out.deep_view()[t] == (
                        es[t].0,
                        DotenvView { active: es[t].1.id == id@, id: es[t].1.id },
                    ),
            decreases n - i,
        {
            proof {
                assert(es[i as int] == self.dotenv@[i as int].deep_view());
            }
            let ghost out0 = out.deep_view();
            let entry = &self.dotenv[i];
            let active = str_eq(entry.1.id.as_str(), id);
            out.push((entry.0.clone(), Dotenv { active, id: entry.1.id.clone() }));
            i = i + 1;
            proof {
                assert(out.deep_view() =~= out0.push(
                    (
                        es[(i - 1) as int].0,
                        DotenvView {
                            active: es[(i - 1) as int].1.id == id@,
                            id: es[(i - 1) as int].1.id,
                        },
                    ),
                ));
            }
        }
        self.dotenv = out;
    }

    /// Remove every dotenv file registered under the given identifier.
    pub fn remove_env_file(&mut self, id: &str)
        ensures
            final(self)@ == spec_remove_id(old(self)@, id@),
            old(self).wf() ==> final(self).wf(),
    {
        proof {
            if distinct_paths(self@) {
                lemma_remove_id_distinct(self@, id@);
            }
        }
        let ghost es = self@;
        let n = self.dotenv.len();
        let mut out: Vec<(String, Dotenv)> = Vec::new();
        let mut i: usize = 0;
        proof {
            assert(es.skip(0) =~= es);
            assert(es.len() == self.dotenv@.len());
            assert(out.deep_view() + spec_remove_id(es, id@) =~= spec_remove_id(es, id@));
        }
        while i < n
            invariant
                i <= n,
                n == self.dotenv@.len(),
                es == self@,
                es.len() == n,
                spec_remove_id(es, id@) == out.deep_view() + spec_remove_id(
                    es.skip(i as int),
                    id@,
                ),
            decreases n - i,
        {
            let ghost out0 = out.deep_view();
            let ghost rest = es.skip(i as int);
            proof {
                assert(rest[0] == es[i as int]);
                assert(rest.skip(1) =~= es.skip(i + 1));
                assert(es[i as int] == self.dotenv@[i as int].deep_view());
            }
            let entry = &self.dotenv[i];
            if !str_eq(entry.1.id.as_str(), id) {
                out.push((entry.0.clone(), Dotenv { active: entry.1.active, id: entry.1.id.clone() }));
                proof {
                    assert(out.deep_view() =~= out0.push(es[i as int]));
                    assert(spec_remove_id(rest, id@) == seq![rest[0]] + spec_remove_id(
                        es.skip(i + 1),
                        id@,
                    ));
                    assert(out0 + (seq![rest[0]] + spec_remove_id(es.skip(i + 1), id@))
                        =~= out.deep_view() + spec_remove_id(es.skip(i + 1), id@));
                }
            } else {
                proof {
                    assert(spec_remove_id(rest, id@) == spec_remove_id(es.skip(i + 1), id@));
                }
            }
            i = i + 1;
        }
        proof {
            assert(es.skip(n as int) =~= FootprintView::empty());
            assert(out.deep_view() + FootprintView::empty() =~= out.deep_view());
        }
        self.dotenv = out;
    }
}

/// The rows whose identifier is not `id`, in order.
pub open spec fn spec_remove_id(es: FootprintView, id: Seq<char>) -> FootprintView
    decreases es.len(),
{
    if es.len() == 0 {
        FootprintView::empty()
    } else if es[0].1.id == id {
        spec_remove_id(es.skip(1), id)
    } else {
        seq![es[0]] + spec_remove_id(es.skip(1), id)
    }
}

} // verus!
