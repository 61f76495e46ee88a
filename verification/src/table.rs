use vstd::prelude::*;
use crate::strings::str_chars_vec;

verus! {

/// How many characters of `s` are visible once color tags are dropped:
/// a tag opens at `<` and runs through the first `>` after it. Characters
/// of an unterminated trailing tag count as invisible too.
pub open spec fn spec_visible_len(s: Seq<char>, in_tag: bool) -> nat
    decreases s.len(),
{
    if s.len() == 0 {
        0
    } else if in_tag {
        spec_visible_len(s.skip(1), s[0] != '>')
    } else if s[0] == '<' {
        spec_visible_len(s.skip(1), true)
    } else {
        1 + spec_visible_len(s.skip(1), false)
    }
}

/// The number of characters of `s` that lie outside color tags.
pub fn visible_len(s: &str) -> (r: usize)
    ensures
        r == spec_visible_len(s@, false),
{
    let sv = str_chars_vec(s);
    let sn = sv.len();
    let mut count: usize = 0;
    let mut in_tag = false;
    let mut i: usize = 0;
    proof {
        assert(sv@.skip(0) =~= sv@);
    }
    while i < sn
        invariant
            i <= sn,
            sn == sv@.len(),
            sv@ == s@,
            count <= i,
            count + spec_visible_len(s@.skip(i as int), in_tag) == spec_visible_len(s@, false),
        decreases sn - i,
    {
        let ghost rest = s@.skip(i as int);
        proof {
            assert(rest[0] == s@[i as int]);
            assert(rest.skip(1) =~= s@.skip(i + 1));
        }
        let c = sv[i];
        if in_tag {
            in_tag = c != '>';
        } else if c == '<' {
            in_tag = true;
        } else {
            count = count + 1;
        }
        i = i + 1;
    }
    proof {
        assert(s@.skip(s@.len() as int) =~= Seq::<char>::empty());
    }
    count
}

/// A sequence extended with copies of `fill` up to length `n`; one that
/// is already long enough stays as it is.
pub open spec fn spec_resize<T>(v: Seq<T>, n: int, fill: T) -> Seq<T> {
    if v.len() >= n {
        v
    } else {
        v + Seq::new((n - v.len()) as nat, |q: int| fill)
    }
}

/// The sum of a sequence of sizes.
pub open spec fn spec_sum(s: Seq<usize>) -> nat
    decreases s.len(),
{
    if s.len() == 0 {
        0
    } else {
        (s[0] + spec_sum(s.skip(1))) as nat
    }
}

/// Text padded on the right with spaces up to width `w`; text already
/// that wide stays as it is.
pub open spec fn spec_pad_right(s: Seq<char>, w: int) -> Seq<char> {
    if s.len() >= w {
        s
    } else {
        s + Seq::new((w - s.len()) as nat, |q: int| ' ')
    }
}

/// The column width after one more cell: the old width, or the cell's
/// visible length when that is larger.
pub open spec fn spec_new_longest(cur: usize, s: Seq<char>) -> nat {
    if spec_visible_len(s, false) > cur {
        spec_visible_len(s, false)
    } else {
        cur as nat
    }
}

/// Rows of text collected column by column, together with the bookkeeping
/// a renderer needs: per-column alignment, configured padding, and the
/// widest visible cell seen so far in each column.
pub struct Table {
    column_count: usize,
    column_padding: Vec<usize>,
    alignment: Vec<char>,
    rows: Vec<String>,
    columns: Vec<Vec<String>>,
    longest: Vec<usize>,
}

impl Table {
    /// How many columns the table has.
    pub closed spec fn spec_column_count(&self) -> usize {
        self.column_count
    }

    /// The configured width of each column.
    pub closed spec fn spec_padding(&self) -> Seq<usize> {
        self.column_padding@
    }

    /// The alignment marker of each column.
    pub closed spec fn spec_alignment(&self) -> Seq<char> {
        self.alignment@
    }

    /// The full-width texts added below the columns.
    pub closed spec fn spec_rows(&self) -> Seq<Seq<char>> {
        self.rows.deep_view()
    }

    /// The cells of each column, in the order they were added.
    pub closed spec fn spec_columns(&self) -> Seq<Seq<Seq<char>>> {
        self.columns.deep_view()
    }

    /// The widest visible cell seen so far in each column.
    pub closed spec fn spec_longest(&self) -> Seq<usize> {
        self.longest@
    }

    /// The table's structural invariant: one cell list, one width and one
    /// alignment per column, and at least as many padding values.
    pub open spec fn wf(self) -> bool {
        &&& self.spec_columns().len() == self.spec_column_count()
        &&& self.spec_longest().len() == self.spec_column_count()
        &&& self.spec_alignment().len() >= self.spec_column_count()
        &&& self.spec_padding().len() >= self.spec_column_count()
    }

    /// A fresh table: the paddings and alignments given, filled up with a
    /// default width of twenty and left alignment where too few were
    /// given, and one empty cell list per column.
    pub fn new(column_count: usize, column_padding: Vec<usize>, alignment: Vec<char>) -> (r: Table)
        ensures
            r.wf(),
            r.spec_column_count() == column_count,
            r.spec_padding() == spec_resize(column_padding@, column_count as int, 20usize),
            r.spec_alignment() == spec_resize(alignment@, column_count as int, '<'),
            r.spec_rows() == Seq::<Seq<char>>::empty(),
            r.spec_columns() == Seq::new(column_count as nat, |q: int| Seq::<Seq<char>>::empty()),
            r.spec_longest() == Seq::new(column_count as nat, |q: int| 0usize),
    {
        let mut column_padding = column_padding;
        let mut alignment = alignment;
        let ghost pad0 = column_padding@;
        let ghost al0 = alignment@;
        if column_padding.len() < column_count {
            let mut k = column_padding.len();
            while k < column_count
                invariant
                    k <= column_count,
                    k == column_padding@.len(),
                    pad0.len() <= column_padding@.len(),
                    column_padding@ == pad0 + Seq::new(
                        (k - pad0.len()) as nat,
                        |q: int| 20usize,
                    ),
                decreases column_count - k,
            {
                column_padding.push(20);
                k = k + 1;
                proof {
                    assert(column_padding@ =~= pad0 + Seq::new(
                        (k - pad0.len()) as nat,
                        |q: int| 20usize,
                    ));
                }
            }
        } else {
            proof {
                assert(column_padding@ =~= spec_resize(pad0, column_count as int, 20usize));
            }
        }
        proof {
            assert(column_padding@ =~= spec_resize(pad0, column_count as int, 20usize));
        }
        if alignment.len() < column_count {
            let mut k = alignment.len();
            while k < column_count
                invariant
                    k <= column_count,
                    k == alignment@.len(),
                    al0.len() <= alignment@.len(),
                    alignment@ == al0 + Seq::new((k - al0.len()) as nat, |q: int| '<'),
                decreases column_count - k,
            {
                alignment.push('<');
                k = k + 1;
                proof {
                    assert(alignment@ =~= al0 + Seq::new((k - al0.len()) as nat, |q: int| '<'));
                }
            }
        }
        proof {
            assert(alignment@ =~= spec_resize(al0, column_count as int, '<'));
        }
        let mut cols: Vec<Vec<String>> = Vec::new();
        let mut longest: Vec<usize> = Vec::new();
        let mut k: usize = 0;
        while k < column_count
            invariant
                k <= column_count,
                cols@.len() == k,
                forall|q: int| 0 <= q < k ==> (#[trigger] cols@[q])@ == Seq::<String>::empty(),
                longest@ == Seq::new(k as nat, |q: int| 0usize),
            decreases column_count - k,
        {
            let fresh: Vec<String> = Vec::new();
            cols.push(fresh);
            longest.push(0);
            k = k + 1;
            proof {
                assert(longest@ =~= Seq::new(k as nat, |q: int| 0usize));
            }
        }
        proof {
            assert forall|q: int| 0 <= q < column_count implies cols.deep_view()[q]
                == Seq::<Seq<char>>::empty() by {
                assert(cols.deep_view()[q] == cols@[q].deep_view());
                assert(cols@[q]@ == Seq::<String>::empty());
                assert(cols@[q].deep_view() =~= Seq::<Seq<char>>::empty());
            }
            assert(cols.deep_view() =~~= Seq::new(
                column_count as nat,
                |q: int| Seq::<Seq<char>>::empty(),
            ));
        }
        Table {
            column_count,
            column_padding,
            alignment,
            rows: Vec::new(),
            columns: cols,
            longest,
        }
    }

    /// File one cell per column: each column's list grows by its cell and
    /// its width bookkeeping takes the cell's visible length into account.
    pub fn add_row(&mut self, elements: Vec<String>)
        requires
            old(self).wf(),
            elements@.len() == old(self).spec_column_count(),
        ensures
            final(self).wf(),
            final(self).spec_column_count() == old(self).spec_column_count(),
            final(self).spec_padding() == old(self).spec_padding(),
            final(self).spec_alignment() == old(self).spec_alignment(),
            final(self).spec_rows() == old(self).spec_rows(),
            final(self).spec_columns().len() == old(self).spec_columns().len(),
            final(self).spec_longest().len() == old(self).spec_longest().len(),
            forall|t: int|
                0 <= t < old(self).spec_column_count() ==> #[trigger] final(self).spec_columns()[t]
                    == old(self).spec_columns()[t].push(elements.deep_view()[t]),
            forall|t: int|
                0 <= t < old(self).spec_column_count() ==> (#[trigger] final(self).spec_longest()[t]) as nat == spec_new_longest(
                    old(self).spec_longest()[t],
                    elements.deep_view()[t],
                ),
    {
        let n = self.column_count;
        let ghost cols0 = self.columns.deep_view();
        let ghost long0 = self.longest@;
        let mut idx: usize = 0;
        proof {
            assert(elements.deep_view().len() == elements@.len());
            assert(cols0.len() == self.columns@.len());
        }
        while idx < n
            invariant
                idx <= n,
                n == self.column_count,
                self.columns@.len() == n,
                self.longest@.len() == n,
                elements@.len() == n,
                elements.deep_view().len() == n,
                self.column_padding@ == old(self).column_padding@,
                self.alignment@ == old(self).alignment@,
                self.rows@ == old(self).rows@,
                cols0 == old(self).columns.deep_view(),
                long0 == old(self).longest@,
                cols0.len() == n,
                long0.len() == n,
                self.columns.deep_view().len() == n,
                forall|t: int|
                    0 <= t < idx ==> #[trigger] self.columns.deep_view()[t] == cols0[t].push(
                        elements.deep_view()[t],
                    ),
                forall|t: int|
                    0 <= t < idx ==> (#[trigger] self.longest@[t]) as nat == spec_new_longest(
                        long0[t],
                        elements.deep_view()[t],
                    ),
                forall|t: int|
                    idx <= t < n ==> #[trigger] self.columns.deep_view()[t] == cols0[t],
                forall|t: int| idx <= t < n ==> #[trigger] self.longest@[t] == long0[t],
            decreases n - idx,
        {
            let ghost colsb = self.columns.deep_view();
            let vis = visible_len(elements[idx].as_str());
            proof {
                assert(elements.deep_view()[idx as int] == elements@[idx as int]@);
            }
            if vis > self.longest[idx] {
                self.longest[idx] = vis;
            }
            let cell = elements[idx].clone();
            proof {
                assert(cell@ == elements.deep_view()[idx as int]);
            }
            self.columns[idx].push(cell);
            idx = idx + 1;
            proof {
                assert(self.columns.deep_view() =~~= colsb.update(
                    (idx - 1) as int,
                    colsb[(idx - 1) as int].push(elements.deep_view()[(idx - 1) as int]),
                ));
            }
        }
    }

    /// File a header line: one cell per column.
    pub fn header(&mut self, elements: Vec<&str>)
        requires
            old(self).wf(),
            elements@.len() == old(self).spec_column_count(),
        ensures
            final(self).wf(),
            final(self).spec_column_count() == old(self).spec_column_count(),
            final(self).spec_padding() == old(self).spec_padding(),
            final(self).spec_alignment() == old(self).spec_alignment(),
            final(self).spec_rows() == old(self).spec_rows(),
            forall|t: int|
                0 <= t < old(self).spec_column_count() ==> #[trigger] final(self).spec_columns()[t]
                    == old(self).spec_columns()[t].push(elements.deep_view()[t]),
            forall|t: int|
                0 <= t < old(self).spec_column_count() ==> (#[trigger] final(self).spec_longest()[t]) as nat == spec_new_longest(
                    old(self).spec_longest()[t],
                    elements.deep_view()[t],
                ),
    {
        let owned = own_cells(elements);
        self.add_row(owned);
    }

    /// File one row of cells: one per column.
    pub fn row(&mut self, elements: Vec<&str>)
        requires
            old(self).wf(),
            elements@.len() == old(self).spec_column_count(),
        ensures
            final(self).wf(),
            final(self).spec_column_count() == old(self).spec_column_count(),
            final(self).spec_padding() == old(self).spec_padding(),
            final(self).spec_alignment() == old(self).spec_alignment(),
            final(self).spec_rows() == old(self).spec_rows(),
            forall|t: int|
                0 <= t < old(self).spec_column_count() ==> #[trigger] final(self).spec_columns()[t]
                    == old(self).spec_columns()[t].push(elements.deep_view()[t]),
            forall|t: int|
                0 <= t < old(self).spec_column_count() ==> (#[trigger] final(self).spec_longest()[t]) as nat == spec_new_longest(
                    old(self).spec_longest()[t],
                    elements.deep_view()[t],
                ),
    {
        let owned = own_cells(elements);
        self.add_row(owned);
    }

    /// File a full-width line below the columns: the text padded with
    /// spaces to the combined configured width of all the columns.
    pub fn footer(&mut self, text: &str)
        requires
            old(self).wf(),
            spec_sum(old(self).spec_padding()) <= usize::MAX,
        ensures
            final(self).wf(),
            final(self).spec_column_count() == old(self).spec_column_count(),
            final(self).spec_padding() == old(self).spec_padding(),
            final(self).spec_alignment() == old(self).spec_alignment(),
            final(self).spec_columns() == old(self).spec_columns(),
            final(self).spec_longest() == old(self).spec_longest(),
            final(self).spec_rows() == old(self).spec_rows().push(
                spec_pad_right(text@, spec_sum(old(self).spec_padding()) as int),
            ),
    {
        let ghost pads = self.column_padding@;
        let pn = self.column_padding.len();
        let mut width: usize = 0;
        let mut k: usize = 0;
        proof {
            assert(pads.skip(0) =~= pads);
            lemma_sum_bounds(pads, 0);
        }
        while k < pn
            invariant
                k <= pn,
                pn == self.column_padding@.len(),
                pads == self.column_padding@,
                width + spec_sum(pads.skip(k as int)) == spec_sum(pads),
                spec_sum(pads) <= usize::MAX,
            decreases pn - k,
        {
            let ghost rest = pads.skip(k as int);
            proof {
                assert(rest[0] == pads[k as int]);
                assert(rest.skip(1) =~= pads.skip(k + 1));
            }
            width = width + self.column_padding[k];
            k = k + 1;
        }
        proof {
            assert(pads.skip(pn as int) =~= Seq::<usize>::empty());
        }
        let mut padded = str_chars_vec(text);
        proof {
            assert(padded@ =~= text@ + Seq::new(0, |q: int| ' '));
        }
        while padded.len() < width
            invariant
                text@.len() <= padded@.len(),
                text@.len() >= width ==> padded@.len() == text@.len(),
                text@.len() < width ==> padded@.len() <= width,
                padded@ == text@ + Seq::new((padded@.len() - text@.len()) as nat, |q: int| ' '),
            decreases width - padded@.len(),
        {
            padded.push(' ');
            proof {
                assert(padded@ =~= text@ + Seq::new(
                    (padded@.len() - text@.len()) as nat,
                    |q: int| ' ',
                ));
            }
        }
        proof {
            if text@.len() >= width {
                assert(padded@ =~= text@);
            }
            assert(padded@ =~= spec_pad_right(text@, spec_sum(pads) as int));
        }
        let line = crate::strings::chars_to_string(&padded);
        let ghost rows0 = self.rows.deep_view();
        self.rows.push(line);
        proof {
            assert(self.rows.deep_view() =~= rows0.push(
                spec_pad_right(text@, spec_sum(pads) as int),
            ));
        }
    }

    /// The cells filed for one column, for rendering.
    pub fn column(&self, idx: usize) -> (r: &Vec<String>)
        requires
            self.wf(),
            idx < self.spec_column_count(),
        ensures
            r.deep_view() == self.spec_columns()[idx as int],
    {
        &self.columns[idx]
    }

    /// How many columns the table has, for rendering.
    pub fn count(&self) -> (r: usize)
        ensures
            r == self.spec_column_count(),
    {
        self.column_count
    }

    /// The widest visible cell seen in a column, for rendering.
    pub fn column_longest(&self, idx: usize) -> (r: usize)
        requires
            self.wf(),
            idx < self.spec_column_count(),
        ensures
            r == self.spec_longest()[idx as int],
    {
        self.longest[idx]
    }

    /// A column's alignment marker, for rendering.
    pub fn column_alignment(&self, idx: usize) -> (r: char)
        requires
            self.wf(),
            idx < self.spec_column_count(),
        ensures
            r == self.spec_alignment()[idx as int],
    {
        self.alignment[idx]
    }

    /// The full-width lines filed below the columns, for rendering.
    pub fn footer_rows(&self) -> (r: &Vec<String>)
        ensures
            r.deep_view() == self.spec_rows(),
    {
        &self.rows
    }
}

/// Every partial sum of sizes stays within the total.
proof fn lemma_sum_bounds(s: Seq<usize>, k: int)
    requires
        0 <= k <= s.len(),
    ensures
        spec_sum(s.skip(k)) <= spec_sum(s),
    decreases k,
{
    if k == 0 {
        assert(s.skip(0) =~= s);
    } else {
        lemma_sum_bounds(s, k - 1);
        assert(s.skip(k - 1)[0] == s[k - 1]);
        assert(s.skip(k - 1).skip(1) =~= s.skip(k));
        assert(spec_sum(s.skip(k - 1)) == s[k - 1] + spec_sum(s.skip(k)));
    }
}

/// Take ownership of a row of borrowed cells.
fn own_cells(elements: Vec<&str>) -> (r: Vec<String>)
    ensures
        r.deep_view() == elements.deep_view(),
        r@.len() == elements@.len(),
{
    let en = elements.len();
    let mut r: Vec<String> = Vec::new();
    let mut i: usize = 0;
    proof {
        assert(elements.deep_view().len() == elements@.len());
        assert(r.deep_view() =~= elements.deep_view().take(0));
    }
    while i < en
        invariant
            i <= en,
            en == elements@.len(),
            elements.deep_view().len() == en,
            r.deep_view() == elements.deep_view().take(i as int),
        decreases en - i,
    {
        let ghost r0 = r.deep_view();
        r.push(elements[i].to_owned());
        i = i + 1;
        proof {
            assert(r.deep_view() =~= r0.push(elements.deep_view()[(i - 1) as int]));
            assert(r.deep_view() =~= elements.deep_view().take(i as int));
        }
    }
    proof {
        assert(elements.deep_view().take(en as int) =~= elements.deep_view());
    }
    r
}

} // verus!
