use vstd::prelude::*;
use vstd::string::*;

verus! {

/// Turn a string slice into the vector of its characters.
pub fn str_chars_vec(s: &str) -> (r: Vec<char>)
    ensures
        r@ == s@,
{
    let n = s.unicode_len();
    let mut r: Vec<char> = Vec::new();
    let mut i: usize = 0;
    while i < n
        invariant
            i <= n,
            n == s@.len(),
            r@ == s@.take(i as int),
        decreases n - i,
    {
        r.push(s.get_char(i));
        i = i + 1;
        proof {
            assert(r@ =~= s@.take(i as int));
        }
    }
    proof {
        assert(r@ =~= s@);
    }
    r
}

/// Relies on `String: FromIterator<char>`: collecting characters yields
/// the string made of exactly those characters in order.
#[verifier::external_body]
pub(crate) fn chars_to_string(v: &Vec<char>) -> (r: String)
    ensures
        r@ == v@,
{
    v.iter().collect()
}

/// What `cut` produces: a string longer than `len` characters is shortened
/// to its first ten characters, an ellipsis, and its last twenty characters.
pub open spec fn spec_cut(s: Seq<char>, len: nat) -> Seq<char> {
    if s.len() > len {
        s.take(10) + seq!['.', '.', '.'] + s.skip(s.len() - 20)
    } else {
        s
    }
}

/// If a string is longer than the specified length
/// get the important end pieces and add an ellipsis in the middle.
pub fn cut(s: &str, len: usize) -> (r: String)
    requires
        s@.len() > len ==> s@.len() >= 20,
    ensures
        r@ == spec_cut(s@, len as nat),
{
    let n = s.unicode_len();
    if n > len {
        let chars = str_chars_vec(s);
        let mut out: Vec<char> = Vec::new();
        let mut i: usize = 0;
        while i < 10
            invariant
                i <= 10,
                chars@ == s@,
                s@.len() >= 20,
                out@ == s@.take(i as int),
            decreases 10 - i,
        {
            out.push(chars[i]);
            i = i + 1;
            proof {
                assert(out@ =~= s@.take(i as int));
            }
        }
        out.push('.');
        out.push('.');
        out.push('.');
        proof {
            assert(out@ =~= s@.take(10) + seq!['.', '.', '.']);
        }
        let mut j: usize = n - 20;
        while j < n
            invariant
                n == s@.len(),
                n >= 20,
                chars@ == s@,
                n - 20 <= j <= n,
                out@ == s@.take(10) + seq!['.', '.', '.'] + s@.subrange(n - 20, j as int),
            decreases n - j,
        {
            out.push(chars[j]);
            j = j + 1;
            proof {
                assert(out@ =~= s@.take(10) + seq!['.', '.', '.'] + s@.subrange(
                    n - 20,
                    j as int,
                ));
            }
        }
        proof {
            assert(s@.subrange(n - 20, n as int) =~= s@.skip(s@.len() - 20));
        }
        chars_to_string(&out)
    } else {
        s.to_owned()
    }
}

/// Whether two string slices hold the same characters.
pub fn str_eq(a: &str, b: &str) -> (r: bool)
    ensures
        r == (a@ == b@),
{
    let an = a.unicode_len();
    let bn = b.unicode_len();
    if an != bn {
        return false;
    }
    let mut i: usize = 0;
    while i < an
        invariant
            i <= an,
            an == a@.len(),
            an == b@.len(),
            forall|j: int| 0 <= j < i ==> a@[j] == b@[j],
        decreases an - i,
    {
        if a.get_char(i) != b.get_char(i) {
            return false;
        }
        i = i + 1;
    }
    proof {
        assert(a@ =~= b@);
    }
    true
}

/// Whether `pat` occurs in `s` starting at position `i`.
pub open spec fn spec_match_at(s: Seq<char>, pat: Seq<char>, i: int) -> bool {
    0 <= i && i + pat.len() <= s.len() && s.subrange(i, i + pat.len() as int) == pat
}

fn is_match_at(s: &Vec<char>, pat: &Vec<char>, i: usize) -> (r: bool)
    requires
        i + pat@.len() <= s@.len(),
    ensures
        r == spec_match_at(s@, pat@, i as int),
{
    let pn = pat.len();
    let sn = s.len();
    let mut k: usize = 0;
    while k < pn
        invariant
            k <= pn,
            pn == pat@.len(),
            sn == s@.len(),
            i + pn <= sn,
            forall|j: int| 0 <= j < k ==> s@[i + j] == pat@[j],
        decreases pn - k,
    {
        if s[i + k] != pat[k] {
            proof {
                assert(s@.subrange(i as int, i + pat@.len() as int)[k as int] == s@[i + k]);
            }
            return false;
        }
        k = k + 1;
    }
    proof {
        assert(s@.subrange(i as int, i + pat@.len() as int) =~= pat@);
    }
    true
}

/// Every occurrence of `pat` in `s`, scanning left to right without
/// overlap, replaced by `rep`.
pub open spec fn spec_replace(s: Seq<char>, pat: Seq<char>, rep: Seq<char>) -> Seq<char>
    decreases s.len(),
{
    if pat.len() == 0 || s.len() < pat.len() {
        s
    } else if s.take(pat.len() as int) == pat {
        rep + spec_replace(s.skip(pat.len() as int), pat, rep)
    } else {
        seq![s[0]] + spec_replace(s.skip(1), pat, rep)
    }
}

fn replace_chars(s: &Vec<char>, pat: &Vec<char>, rep: &Vec<char>) -> (r: Vec<char>)
    requires
        pat@.len() > 0,
    ensures
        r@ == spec_replace(s@, pat@, rep@),
{
    let sn = s.len();
    let mut out: Vec<char> = Vec::new();
    let mut i: usize = 0;
    proof {
        assert(s@.skip(0) =~= s@);
        assert(out@ + spec_replace(s@, pat@, rep@) =~= spec_replace(s@, pat@, rep@));
    }
    while i < sn
        invariant
            i <= sn,
            sn == s@.len(),
            pat@.len() > 0,
            spec_replace(s@, pat@, rep@) == out@ + spec_replace(s@.skip(i as int), pat@, rep@),
        decreases sn - i,
    {
        let ghost rest = s@.skip(i as int);
        let ghost out0 = out@;
        if pat.len() <= sn - i && is_match_at(s, pat, i) {
            proof {
                assert(rest.take(pat@.len() as int) =~= s@.subrange(
                    i as int,
                    i + pat@.len() as int,
                ));
                assert(rest.skip(pat@.len() as int) =~= s@.skip(i + pat@.len()));
                assert(spec_replace(rest, pat@, rep@) == rep@ + spec_replace(
                    s@.skip(i + pat@.len()),
                    pat@,
                    rep@,
                ));
            }
            let rn = rep.len();
            let mut k: usize = 0;
            while k < rn
                invariant
                    k <= rn,
                    rn == rep@.len(),
                    out@ == out0 + rep@.take(k as int),
                decreases rn - k,
            {
                out.push(rep[k]);
                k = k + 1;
                proof {
                    assert(out@ =~= out0 + rep@.take(k as int));
                }
            }
            i = i + pat.len();
            proof {
                assert(rep@.take(rep@.len() as int) =~= rep@);
                assert(out@ =~= out0 + rep@);
                assert(out0 + (rep@ + spec_replace(s@.skip(i as int), pat@, rep@)) =~= out@
                    + spec_replace(s@.skip(i as int), pat@, rep@));
            }
        } else {
            proof {
                if rest.len() >= pat@.len() {
                    assert(rest.take(pat@.len() as int) =~= s@.subrange(
                        i as int,
                        i + pat@.len() as int,
                    ));
                    assert(rest.take(pat@.len() as int) != pat@);
                } else {
                    assert(spec_replace(rest, pat@, rep@) == rest);
                    assert(spec_replace(rest.skip(1), pat@, rep@) == rest.skip(1));
                }
                assert(rest.skip(1) =~= s@.skip(i + 1));
                assert(seq![rest[0]] + rest.skip(1) =~= rest);
                assert(rest[0] == s@[i as int]);
                assert(spec_replace(rest, pat@, rep@) == seq![s@[i as int]] + spec_replace(
                    s@.skip(i + 1),
                    pat@,
                    rep@,
                ));
            }
            out.push(s[i]);
            i = i + 1;
            proof {
                assert(out@ =~= out0.push(s@[(i - 1) as int]));
                assert(out0 + (seq![s@[(i - 1) as int]] + spec_replace(
                    s@.skip(i as int),
                    pat@,
                    rep@,
                )) =~= out@ + spec_replace(s@.skip(i as int), pat@, rep@));
            }
        }
    }
    proof {
        assert(s@.skip(s@.len() as int) =~= Seq::<char>::empty());
        assert(out@ + Seq::<char>::empty() =~= out@);
    }
    out
}

/// Every occurrence of `pat` in `s` replaced by `rep`, scanning left to
/// right without overlap, as `str::replace` does.
pub fn replace_all(s: &str, pat: &str, rep: &str) -> (r: String)
    requires
        pat@.len() > 0,
    ensures
        r@ == spec_replace(s@, pat@, rep@),
{
    let sv = str_chars_vec(s);
    let pv = str_chars_vec(pat);
    let rv = str_chars_vec(rep);
    let out = replace_chars(&sv, &pv, &rv);
    chars_to_string(&out)
}

/// The pieces of `s` between occurrences of the separator `pat`, scanning
/// left to right without overlap, as `str::split` does: one more piece
/// than separator occurrences.
pub open spec fn spec_split(s: Seq<char>, pat: Seq<char>) -> Seq<Seq<char>>
    decreases s.len(),
{
    if pat.len() == 0 || s.len() < pat.len() {
        seq![s]
    } else if s.take(pat.len() as int) == pat {
        seq![Seq::<char>::empty()] + spec_split(s.skip(pat.len() as int), pat)
    } else {
        let rest = spec_split(s.skip(1), pat);
        seq![seq![s[0]] + rest[0]] + rest.skip(1)
    }
}

pub proof fn lemma_split_nonempty(s: Seq<char>, pat: Seq<char>)
    ensures
        spec_split(s, pat).len() >= 1,
    decreases s.len(),
{
    if pat.len() == 0 || s.len() < pat.len() {
    } else if s.take(pat.len() as int) == pat {
    } else {
        lemma_split_nonempty(s.skip(1), pat);
    }
}

fn split_chars(s: &Vec<char>, pat: &Vec<char>) -> (r: Vec<String>)
    requires
        pat@.len() > 0,
    ensures
        r.deep_view() == spec_split(s@, pat@),
{
    let sn = s.len();
    let mut pieces: Vec<String> = Vec::new();
    let mut cur: Vec<char> = Vec::new();
    let mut i: usize = 0;
    proof {
        assert(s@.skip(0) =~= s@);
        lemma_split_nonempty(s@, pat@);
        let f = spec_split(s@, pat@);
        assert(cur@ + f[0] =~= f[0]);
        assert(pieces.deep_view() + seq![cur@ + f[0]] + f.skip(1) =~~= seq![f[0]] + f.skip(1));
        assert(seq![f[0]] + f.skip(1) =~= f);
    }
    while i < sn
        invariant
            i <= sn,
            sn == s@.len(),
            pat@.len() > 0,
            spec_split(s@, pat@) == pieces.deep_view() + seq![
                cur@ + spec_split(s@.skip(i as int), pat@)[0],
            ] + spec_split(s@.skip(i as int), pat@).skip(1),
        decreases sn - i,
    {
        let ghost rest = s@.skip(i as int);
        let ghost pieces0 = pieces.deep_view();
        let ghost cur0 = cur@;
        if pat.len() <= sn - i && is_match_at(s, pat, i) {
            let ghost g = spec_split(s@.skip(i + pat@.len()), pat@);
            proof {
                assert(rest.take(pat@.len() as int) =~= s@.subrange(
                    i as int,
                    i + pat@.len() as int,
                ));
                assert(rest.skip(pat@.len() as int) =~= s@.skip(i + pat@.len()));
                lemma_split_nonempty(s@.skip(i + pat@.len()), pat@);
                assert(spec_split(rest, pat@) == seq![Seq::<char>::empty()] + g);
            }
            let piece = chars_to_string(&cur);
            pieces.push(piece);
            cur = Vec::new();
            i = i + pat.len();
            proof {
                let f = seq![Seq::<char>::empty()] + g;
                assert(f[0] =~= Seq::<char>::empty());
                assert(cur0 + f[0] =~= cur0);
                assert(f.skip(1) =~= g);
                assert(pieces.deep_view() =~~= pieces0.push(cur0));
                assert(cur@ + g[0] =~= g[0]);
                assert(seq![g[0]] + g.skip(1) =~= g);
                // the closed piece moves into `pieces`; the open piece restarts empty
                assert(pieces0 + seq![cur0 + f[0]] + f.skip(1) =~~= pieces0.push(cur0) + g);
                assert(pieces0.push(cur0) + g =~~= pieces.deep_view() + seq![cur@ + g[0]]
                    + g.skip(1));
            }
        } else {
            let ghost g = spec_split(s@.skip(i + 1), pat@);
            proof {
                assert(rest.skip(1) =~= s@.skip(i + 1));
                assert(seq![rest[0]] + rest.skip(1) =~= rest);
                assert(rest[0] == s@[i as int]);
                lemma_split_nonempty(s@.skip(i + 1), pat@);
                if rest.len() >= pat@.len() {
                    assert(rest.take(pat@.len() as int) =~= s@.subrange(
                        i as int,
                        i + pat@.len() as int,
                    ));
                    assert(rest.take(pat@.len() as int) != pat@);
                    assert(spec_split(rest, pat@) == seq![seq![rest[0]] + g[0]] + g.skip(1));
                } else {
                    assert(spec_split(rest, pat@) == seq![rest]);
                    assert(rest.skip(1).len() < pat@.len());
                    assert(spec_split(rest.skip(1), pat@) == seq![rest.skip(1)]);
                    assert(g[0] == rest.skip(1));
                    assert(g.skip(1) =~= Seq::<Seq<char>>::empty());
                    assert(seq![rest[0]] + g[0] =~= rest);
                    assert(spec_split(rest, pat@) =~~= seq![seq![rest[0]] + g[0]] + g.skip(1));
                }
            }
            cur.push(s[i]);
            i = i + 1;
            proof {
                let ghost c = s@[(i - 1) as int];
                assert(cur@ =~= cur0.push(c));
                assert(cur0 + (seq![c] + g[0]) =~= cur@ + g[0]);
                assert(pieces0 + seq![cur0 + (seq![c] + g[0])] + g.skip(1) =~~= pieces0 + seq![
                    cur@ + g[0],
                ] + g.skip(1));
            }
        }
    }
    proof {
        assert(s@.skip(s@.len() as int) =~= Seq::<char>::empty());
        let f = spec_split(s@.skip(i as int), pat@);
        assert(f == seq![Seq::<char>::empty()]);
        assert(cur@ + f[0] =~= cur@);
        assert(f.skip(1) =~= Seq::<Seq<char>>::empty());
    }
    let piece = chars_to_string(&cur);
    pieces.push(piece);
    proof {
        assert(pieces.deep_view() =~~= spec_split(s@, pat@));
    }
    pieces
}

/// The pieces of `s` between occurrences of the separator `pat`.
pub fn split_text(s: &str, pat: &str) -> (r: Vec<String>)
    requires
        pat@.len() > 0,
    ensures
        r.deep_view() == spec_split(s@, pat@),
{
    let sv = str_chars_vec(s);
    let pv = str_chars_vec(pat);
    split_chars(&sv, &pv)
}

/// The pieces concatenated with `sep` between consecutive pieces.
pub open spec fn spec_join(ps: Seq<Seq<char>>, sep: Seq<char>) -> Seq<char>
    decreases ps.len(),
{
    if ps.len() == 0 {
        Seq::empty()
    } else if ps.len() == 1 {
        ps[0]
    } else {
        ps[0] + sep + spec_join(ps.skip(1), sep)
    }
}

pub proof fn lemma_join_push(ps: Seq<Seq<char>>, p: Seq<char>, sep: Seq<char>)
    ensures
        spec_join(ps.push(p), sep) == if ps.len() == 0 {
            p
        } else {
            spec_join(ps, sep) + sep + p
        },
    decreases ps.len(),
{
    if ps.len() == 0 {
        assert(spec_join(ps.push(p), sep) == ps.push(p)[0]);
        assert(ps.push(p)[0] == p);
    } else if ps.len() == 1 {
        assert(ps.push(p).skip(1) =~= seq![p]);
        assert(spec_join(seq![p], sep) == p);
        assert(spec_join(ps.push(p), sep) == ps.push(p)[0] + sep + spec_join(
            ps.push(p).skip(1),
            sep,
        ));
        assert(ps.push(p)[0] == ps[0]);
        assert(spec_join(ps, sep) == ps[0]);
    } else {
        lemma_join_push(ps.skip(1), p, sep);
        assert(ps.push(p).skip(1) =~= ps.skip(1).push(p));
        assert(spec_join(ps.push(p), sep) == ps[0] + sep + spec_join(ps.skip(1).push(p), sep));
        assert(spec_join(ps.skip(1).push(p), sep) == spec_join(ps.skip(1), sep) + sep + p);
        assert(ps[0] + sep + (spec_join(ps.skip(1), sep) + sep + p) =~= (ps[0] + sep + spec_join(
            ps.skip(1),
            sep,
        )) + sep + p);
        assert(spec_join(ps, sep) == ps[0] + sep + spec_join(ps.skip(1), sep));
    }
}

/// The strings of `v` concatenated with `sep` between consecutive entries.
pub fn join_text(v: &Vec<String>, sep: &str) -> (r: String)
    ensures
        r@ == spec_join(v.deep_view(), sep@),
{
    let vn = v.len();
    let mut out: Vec<char> = Vec::new();
    let mut i: usize = 0;
    proof {
        assert(v.deep_view().len() == v@.len());
        assert(out@ =~= spec_join(v.deep_view().take(0), sep@));
    }
    while i < vn
        invariant
            i <= vn,
            vn == v@.len(),
            v.deep_view().len() == v@.len(),
            out@ == spec_join(v.deep_view().take(i as int), sep@),
        decreases vn - i,
    {
        let ghost taken = v.deep_view().take(i as int);
        let ghost out0 = out@;
        if i > 0 {
            let sv = str_chars_vec(sep);
            let svn = sv.len();
            let mut k: usize = 0;
            while k < svn
                invariant
                    k <= svn,
                    svn == sv@.len(),
                    sv@ == sep@,
                    out@ == out0 + sep@.take(k as int),
                decreases svn - k,
            {
                out.push(sv[k]);
                k = k + 1;
                proof {
                    assert(out@ =~= out0 + sep@.take(k as int));
                }
            }
            proof {
                assert(sep@.take(sep@.len() as int) =~= sep@);
            }
        } else {
            proof {
                assert(out@ =~= out0 + Seq::<char>::empty());
            }
        }
        let cv = str_chars_vec(v[i].as_str());
        let cvn = cv.len();
        let ghost out1 = out@;
        let mut k: usize = 0;
        while k < cvn
            invariant
                k <= cvn,
                cvn == cv@.len(),
                out@ == out1 + cv@.take(k as int),
            decreases cvn - k,
        {
            out.push(cv[k]);
            k = k + 1;
            proof {
                assert(out@ =~= out1 + cv@.take(k as int));
            }
        }
        i = i + 1;
        proof {
            assert(cv@.take(cv@.len() as int) =~= cv@);
            assert(cv@ == v.deep_view()[(i - 1) as int]);
            lemma_join_push(taken, v.deep_view()[(i - 1) as int], sep@);
            assert(taken.push(v.deep_view()[(i - 1) as int]) =~= v.deep_view().take(i as int));
            if i - 1 == 0 {
                assert(out@ =~= Seq::<char>::empty() + cv@);
            } else {
                assert(out@ =~= (spec_join(taken, sep@) + sep@) + cv@);
                assert((spec_join(taken, sep@) + sep@) + cv@ =~= spec_join(taken, sep@) + sep@
                    + cv@);
            }
        }
    }
    proof {
        assert(v.deep_view().take(v.deep_view().len() as int) =~= v.deep_view());
    }
    chars_to_string(&out)
}

} // verus!
