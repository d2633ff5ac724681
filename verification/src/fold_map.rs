//! Folding projection layer (wrap rows to display rows).
//!
//! The fold map hides the wrap rows that belong to folded regions and keeps
//! a two-way mapping between wrap rows and display rows. The hidden rows are
//! stored as runs, sorted, disjoint and non-adjacent, each remembering how
//! many rows the runs before it hide, so both directions are binary searches.

use std::ops::Range;
use vstd::prelude::*;

verus! {

/// A foldable region of buffer lines: `start_line` and `end_line` stay
/// visible, the lines strictly between them are hidden when folded.
#[derive(Clone, Copy, Debug, PartialEq, Eq)]
pub struct FoldRange {
    pub start_line: usize,
    pub end_line: usize,
}

impl FoldRange {
    /// A fold region from `start_line` to `end_line`.
    pub fn new(start_line: usize, end_line: usize) -> (r: Self)
        ensures
            r.start_line == start_line,
            r.end_line == end_line,
    {
        FoldRange { start_line, end_line }
    }
}

/// Where each buffer line starts among the wrap rows: the input the fold
/// projection is built from.
pub struct WrapMap {
    first_wrap_rows: Vec<usize>,
    wrap_row_count: usize,
}

impl WrapMap {
    /// The first wrap row of each buffer line, in order.
    pub closed spec fn line_starts(self) -> Seq<usize> {
        self.first_wrap_rows@
    }

    /// The number of wrap rows.
    pub closed spec fn row_count(self) -> nat {
        self.wrap_row_count as nat
    }

    /// A wrap map is well formed when line starts never decrease and lie
    /// within the wrap rows.
    pub open spec fn wf(self) -> bool {
        &&& forall|i: int, j: int|
            0 <= i <= j < self.line_starts().len() ==> #[trigger] self.line_starts()[i]
                <= #[trigger] self.line_starts()[j]
        &&& forall|i: int|
            0 <= i < self.line_starts().len() ==> #[trigger] self.line_starts()[i]
                <= self.row_count()
    }

    /// A wrap map from the first wrap row of each buffer line and the
    /// total number of wrap rows; `None` when the starts decrease or exceed
    /// the row count.
    pub fn new(first_wrap_rows: Vec<usize>, wrap_row_count: usize) -> (r: Option<Self>)
        ensures
            r is Some <==> (forall|i: int, j: int|
                0 <= i <= j < first_wrap_rows@.len() ==> #[trigger] first_wrap_rows@[i]
                    <= #[trigger] first_wrap_rows@[j]) && (forall|i: int|
                0 <= i < first_wrap_rows@.len() ==> #[trigger] first_wrap_rows@[i]
                    <= wrap_row_count),
            r matches Some(m) ==> m.line_starts() == first_wrap_rows@ && m.row_count()
                == wrap_row_count,
    {
        let n = first_wrap_rows.len();
        let mut i: usize = 0;
        while i < n
            invariant
                n == first_wrap_rows@.len(),
                i <= n,
                forall|a: int, b: int|
                    0 <= a <= b < i ==> #[trigger] first_wrap_rows@[a] <= #[trigger] first_wrap_rows@[b],
                forall|a: int| 0 <= a < i ==> #[trigger] first_wrap_rows@[a] <= wrap_row_count,
            decreases n - i,
        {
            if first_wrap_rows[i] > wrap_row_count {
                return None;
            }
            if i > 0 && first_wrap_rows[i - 1] > first_wrap_rows[i] {
                proof {
                    let a = (i - 1) as int;
                    assert(first_wrap_rows@[a] <= first_wrap_rows@[i as int] ==> false);
                }
                return None;
            }
            i = i + 1;
        }
        Some(WrapMap { first_wrap_rows, wrap_row_count })
    }

    /// The number of wrap rows.
    pub fn wrap_row_count(&self) -> (r: usize)
        ensures
            r == self.row_count(),
    {
        self.wrap_row_count
    }

    /// The number of buffer lines.
    pub fn buffer_line_count(&self) -> (r: usize)
        ensures
            r == self.line_starts().len(),
    {
        self.first_wrap_rows.len()
    }

    /// The first wrap row of buffer line `line`; past the last line, the row
    /// count.
    pub fn buffer_line_to_first_wrap_row(&self, line: usize) -> (r: usize)
        ensures
            r == (if line < self.line_starts().len() {
                self.line_starts()[line as int] as int
            } else {
                self.row_count() as int
            }),
    {
        if line < self.first_wrap_rows.len() {
            self.first_wrap_rows[line]
        } else {
            self.wrap_row_count
        }
    }
}

/// A run of wrap rows hidden by folding.
#[derive(Clone, Copy, Debug, PartialEq, Eq)]
pub struct HiddenRows {
    pub start: usize,
    pub end: usize,
    /// How many wrap rows the runs before this one hide.
    pub hidden_before: usize,
}

impl HiddenRows {
    /// The display row of the first visible wrap row after this run.
    pub fn display_start(&self) -> (r: usize)
        requires
            self.hidden_before <= self.start,
        ensures
            r == self.start - self.hidden_before,
    {
        self.start - self.hidden_before
    }
}

/// The number of rows in a run.
pub open spec fn run_len(r: HiddenRows) -> int {
    r.end - r.start
}

/// How many rows the first `n` runs hide.
pub open spec fn prefix_hidden(rs: Seq<HiddenRows>, n: int) -> int
    decreases n,
{
    if n <= 0 {
        0
    } else {
        prefix_hidden(rs, n - 1) + run_len(rs[n - 1])
    }
}

/// How many rows below `w` the first `n` runs hide.
pub open spec fn hidden_below(rs: Seq<HiddenRows>, n: int, w: int) -> int
    decreases n,
{
    if n <= 0 {
        0
    } else {
        let r = rs[n - 1];
        let part = if w <= r.start {
            0
        } else if w >= r.end {
            run_len(r)
        } else {
            w - r.start
        };
        hidden_below(rs, n - 1, w) + part
    }
}

/// Whether a run hides row `w`.
pub open spec fn in_runs(rs: Seq<HiddenRows>, w: int) -> bool {
    exists|k: int| 0 <= k < rs.len() && #[trigger] rs[k].start <= w < rs[k].end
}

/// Whether a range covers row `w`.
pub open spec fn in_ranges(rs: Seq<Range<usize>>, w: int) -> bool {
    exists|k: int| 0 <= k < rs.len() && #[trigger] rs[k].start <= w < rs[k].end
}

/// Runs are well formed for `count` wrap rows: non-empty, sorted, disjoint,
/// non-adjacent, within the rows, each knowing what the runs before it hide.
pub open spec fn runs_wf(rs: Seq<HiddenRows>, count: int) -> bool {
    &&& forall|i: int| 0 <= i < rs.len() ==> #[trigger] rs[i].start < rs[i].end
    &&& forall|i: int| 0 <= i < rs.len() ==> #[trigger] rs[i].end <= count
    &&& forall|i: int, j: int| 0 <= i < j < rs.len() ==> #[trigger] rs[i].end < #[trigger] rs[j].start
    &&& forall|i: int| 0 <= i < rs.len() ==> #[trigger] rs[i].hidden_before == prefix_hidden(rs, i)
}

proof fn lemma_prefix_hidden_mono(rs: Seq<HiddenRows>, i: int, j: int)
    requires
        0 <= i <= j <= rs.len(),
        forall|k: int| 0 <= k < rs.len() ==> #[trigger] rs[k].start < rs[k].end,
    ensures
        prefix_hidden(rs, i) <= prefix_hidden(rs, j),
    decreases j - i,
{
    if i < j {
        lemma_prefix_hidden_mono(rs, i, j - 1);
        assert(rs[j - 1].start < rs[j - 1].end);
    }
}

proof fn lemma_prefix_hidden_bound(rs: Seq<HiddenRows>, n: int, count: int)
    requires
        runs_wf(rs, count),
        0 <= n <= rs.len(),
    ensures
        0 <= prefix_hidden(rs, n),
        n > 0 ==> prefix_hidden(rs, n) <= rs[n - 1].end,
        n == 0 || prefix_hidden(rs, n) <= count,
    decreases n,
{
    if n > 0 {
        lemma_prefix_hidden_bound(rs, n - 1, count);
        assert(rs[n - 1].start < rs[n - 1].end);
        if n > 1 {
            assert(rs[n - 2].end < rs[n - 1].start);
        }
    }
}

/// Rows hidden below `w` when the first `i` runs end at or before `w` and
/// the others start after `w`.
proof fn lemma_hidden_below_split(rs: Seq<HiddenRows>, n: int, i: int, w: int)
    requires
        0 <= i <= n <= rs.len(),
        forall|k: int| 0 <= k < i ==> #[trigger] rs[k].end <= w,
        forall|k: int| i <= k < n ==> #[trigger] rs[k].start >= w,
        forall|k: int| 0 <= k < rs.len() ==> #[trigger] rs[k].start < rs[k].end,
    ensures
        hidden_below(rs, n, w) == prefix_hidden(rs, i),
    decreases n,
{
    if n > i {
        lemma_hidden_below_split(rs, n - 1, i, w);
        assert(rs[n - 1].start >= w);
    } else if n > 0 {
        lemma_hidden_below_split(rs, n - 1, i - 1, w);
        assert(rs[n - 1].end <= w);
    }
}

/// Runs are disjoint: a row inside run `k` is hidden, and below it the
/// hidden rows are the earlier runs plus part of run `k`.
proof fn lemma_hidden_below_inside(rs: Seq<HiddenRows>, n: int, k: int, w: int, count: int)
    requires
        runs_wf(rs, count),
        0 <= k < n <= rs.len(),
        rs[k].start <= w < rs[k].end,
    ensures
        hidden_below(rs, n, w) == prefix_hidden(rs, k) + (w - rs[k].start),
    decreases n,
{
    if n - 1 > k {
        lemma_hidden_below_inside(rs, n - 1, k, w, count);
        assert(rs[k].end < rs[n - 1].start);
    } else {
        assert forall|j: int| 0 <= j < k implies #[trigger] rs[j].end <= w by {
            assert(rs[j].end < rs[k].start);
        }
        lemma_hidden_below_split(rs, k, k, w);
    }
}

/// Visible rows below `w`.
pub open spec fn visible_below(rs: Seq<HiddenRows>, w: int) -> int {
    w - hidden_below(rs, rs.len() as int, w)
}


/// Whether one of the pairs `(start, end)` covers row `w`.
pub open spec fn in_pairs(s: Seq<(usize, usize)>, w: int) -> bool {
    exists|k: int| 0 <= k < s.len() && #[trigger] s[k].0 <= w < s[k].1
}

/// The pairs sorted by start.
pub open spec fn pairs_sorted(s: Seq<(usize, usize)>) -> bool {
    forall|i: int, j: int| 0 <= i < j < s.len() ==> #[trigger] s[i].0 <= #[trigger] s[j].0
}

/// Sort ranges by their start, keeping the rows they cover.
fn sort_ranges_by_start(ranges: &Vec<Range<usize>>) -> (r: Vec<(usize, usize)>)
    ensures
        pairs_sorted(r@),
        forall|w: int| #[trigger] in_pairs(r@, w) <==> in_ranges(ranges@, w),
{
    let mut r: Vec<(usize, usize)> = Vec::new();
    let n = ranges.len();
    let mut i: usize = 0;
    while i < n
        invariant
            n == ranges@.len(),
            i <= n,
            pairs_sorted(r@),
            forall|w: int| #[trigger] in_pairs(r@, w) <==> in_ranges(ranges@.take(i as int), w),
        decreases n - i,
    {
        let x = (ranges[i].start, ranges[i].end);
        let mut p: usize = 0;
        while p < r.len() && r[p].0 <= x.0
            invariant
                p <= r@.len(),
                forall|k: int| 0 <= k < p ==> #[trigger] r@[k].0 <= x.0,
            decreases r@.len() - p,
        {
            p = p + 1;
        }
        let ghost old_r = r@;
        proof {
            assert forall|k: int| p <= k < old_r.len() implies #[trigger] old_r[k].0 > x.0 by {
                assert(old_r[p as int].0 <= old_r[k].0);
            }
        }
        r.insert(p, x);
        proof {
            let taken = ranges@.take(i as int + 1);
            assert(taken.drop_last() == ranges@.take(i as int));
            assert forall|w: int| #[trigger] in_pairs(r@, w) <==> in_ranges(taken, w) by {
                if in_pairs(r@, w) {
                    let k = choose|k: int| 0 <= k < r@.len() && #[trigger] r@[k].0 <= w < r@[k].1;
                    if k == p {
                        assert(taken[i as int].start <= w < taken[i as int].end);
                    } else {
                        let k2 = if k < p { k } else { k - 1 };
                        assert(old_r[k2] == r@[k]);
                        assert(in_pairs(old_r, w));
                        let j = choose|j: int| 0 <= j < i && #[trigger] ranges@.take(i as int)[j].start <= w
                            < ranges@.take(i as int)[j].end;
                        assert(taken[j] == ranges@.take(i as int)[j]);
                    }
                }
                if in_ranges(taken, w) {
                    let j = choose|j: int| 0 <= j < taken.len() && #[trigger] taken[j].start <= w
                        < taken[j].end;
                    if j == i {
                        assert(r@[p as int].0 <= w < r@[p as int].1);
                    } else {
                        assert(ranges@.take(i as int)[j] == taken[j]);
                        assert(in_ranges(ranges@.take(i as int), w));
                        assert(in_pairs(old_r, w));
                        let k = choose|k: int| 0 <= k < old_r.len() && #[trigger] old_r[k].0 <= w < old_r[k].1;
                        let k2 = if k < p { k } else { k + 1 };
                        assert(r@[k2] == old_r[k]);
                    }
                }
            }
            assert forall|a: int, b: int| 0 <= a < b < r@.len() implies #[trigger] r@[a].0
                <= #[trigger] r@[b].0 by {
                if a < p && b < p {
                    assert(old_r[a].0 <= old_r[b].0);
                } else if a < p && b == p {
                } else if a < p {
                    assert(old_r[a].0 <= old_r[b - 1].0);
                } else if a == p {
                    assert(old_r[b - 1].0 > x.0);
                } else {
                    assert(old_r[a - 1].0 <= old_r[b - 1].0);
                }
            }
        }
        i = i + 1;
    }
    assert(ranges@.take(n as int) == ranges@);
    r
}

proof fn lemma_prefix_push(rs: Seq<HiddenRows>, x: HiddenRows, i: int)
    requires
        0 <= i <= rs.len(),
    ensures
        prefix_hidden(rs.push(x), i) == prefix_hidden(rs, i),
    decreases i,
{
    if i > 0 {
        lemma_prefix_push(rs, x, i - 1);
        assert(rs.push(x)[i - 1] == rs[i - 1]);
    }
}

proof fn lemma_prefix_update(rs: Seq<HiddenRows>, j: int, x: HiddenRows, i: int)
    requires
        0 <= i <= j < rs.len(),
    ensures
        prefix_hidden(rs.update(j, x), i) == prefix_hidden(rs, i),
    decreases i,
{
    if i > 0 {
        lemma_prefix_update(rs, j, x, i - 1);
        assert(rs.update(j, x)[i - 1] == rs[i - 1]);
    }
}

/// Whether row `w` is covered by one of the pairs, clipped to `count` rows.
pub open spec fn in_clipped(s: Seq<(usize, usize)>, count: int, w: int) -> bool {
    w < count && in_pairs(s, w)
}


/// Where `x` goes among `l` when inserted after every range that does not
/// start after it (a stable insertion).
pub open spec fn insert_pos(l: Seq<FoldRange>, x: FoldRange) -> int
    decreases l.len(),
{
    if l.len() == 0 {
        0
    } else if x.start_line < l.last().start_line {
        insert_pos(l.drop_last(), x)
    } else {
        l.len() as int
    }
}

/// `l` with `x` inserted stably by start line.
pub open spec fn insert_by_start(l: Seq<FoldRange>, x: FoldRange) -> Seq<FoldRange> {
    l.insert(insert_pos(l, x), x)
}

/// `s` stably sorted by start line.
pub open spec fn sort_by_start(s: Seq<FoldRange>) -> Seq<FoldRange>
    decreases s.len(),
{
    if s.len() == 0 {
        s
    } else {
        insert_by_start(sort_by_start(s.drop_last()), s.last())
    }
}

/// `s` with every range that starts on the same line as the one before it
/// removed: the first of each run of equal start lines stays.
pub open spec fn dedup_by_start(s: Seq<FoldRange>) -> Seq<FoldRange>
    decreases s.len(),
{
    if s.len() <= 1 {
        s
    } else if s.last().start_line == s[s.len() - 2].start_line {
        dedup_by_start(s.drop_last())
    } else {
        dedup_by_start(s.drop_last()).push(s.last())
    }
}

/// Ranges sorted and de-duplicated by start line.
pub open spec fn normalized(s: Seq<FoldRange>) -> Seq<FoldRange> {
    dedup_by_start(sort_by_start(s))
}

/// Whether some range of `s` starts on `line`.
pub open spec fn has_start(s: Seq<FoldRange>, line: usize) -> bool {
    exists|i: int| 0 <= i < s.len() && #[trigger] s[i].start_line == line
}

/// Ranges sorted by start line.
pub open spec fn sorted_by_start(s: Seq<FoldRange>) -> bool {
    forall|i: int, j: int|
        0 <= i < j < s.len() ==> #[trigger] s[i].start_line <= #[trigger] s[j].start_line
}

/// Ranges strictly increasing by start line.
pub open spec fn strictly_sorted_by_start(s: Seq<FoldRange>) -> bool {
    forall|i: int, j: int|
        0 <= i < j < s.len() ==> #[trigger] s[i].start_line < #[trigger] s[j].start_line
}

proof fn lemma_insert_pos(l: Seq<FoldRange>, x: FoldRange)
    ensures
        0 <= insert_pos(l, x) <= l.len(),
        sorted_by_start(l) ==> forall|k: int|
            0 <= k < insert_pos(l, x) ==> #[trigger] l[k].start_line <= x.start_line,
        forall|k: int| insert_pos(l, x) <= k < l.len() ==> #[trigger] l[k].start_line > x.start_line,
    decreases l.len(),
{
    if l.len() > 0 {
        lemma_insert_pos(l.drop_last(), x);
        if x.start_line < l.last().start_line {
            assert forall|k: int| insert_pos(l, x) <= k < l.len() implies #[trigger] l[k].start_line
                > x.start_line by {
                if k < l.len() - 1 {
                    assert(l.drop_last()[k] == l[k]);
                }
            }
            assert forall|k: int| 0 <= k < insert_pos(l, x) && sorted_by_start(l) implies #[trigger] l[k].start_line
                <= x.start_line by {
                assert(l.drop_last()[k] == l[k]);
                assert(sorted_by_start(l.drop_last())) by {
                    assert forall|a: int, b: int| 0 <= a < b < l.drop_last().len() implies #[trigger] l.drop_last()[a].start_line
                        <= #[trigger] l.drop_last()[b].start_line by {
                        assert(l[a].start_line <= l[b].start_line);
                    }
                }
            }
        } else {
            assert forall|k: int| 0 <= k < l.len() && sorted_by_start(l) implies #[trigger] l[k].start_line
                <= x.start_line by {
                if k < l.len() - 1 {
                    assert(l[k].start_line <= l[l.len() - 1].start_line);
                }
            }
        }
    }
}

proof fn lemma_sort_by_start(s: Seq<FoldRange>)
    ensures
        sorted_by_start(sort_by_start(s)),
        sort_by_start(s).len() == s.len(),
        forall|x: FoldRange| sort_by_start(s).contains(x) <==> s.contains(x),
    decreases s.len(),
{
    if s.len() > 0 {
        let t = sort_by_start(s.drop_last());
        let x = s.last();
        lemma_sort_by_start(s.drop_last());
        lemma_insert_pos(t, x);
        let p = insert_pos(t, x);
        let r = t.insert(p, x);
        assert forall|a: int, b: int| 0 <= a < b < r.len() implies #[trigger] r[a].start_line
            <= #[trigger] r[b].start_line by {
            if a < p && b < p {
                assert(t[a].start_line <= t[b].start_line);
            } else if a < p && b > p {
                assert(t[a].start_line <= t[b - 1].start_line);
            } else if a > p {
                assert(t[a - 1].start_line <= t[b - 1].start_line);
            } else if a == p {
                assert(t[b - 1].start_line > x.start_line);
            }
        }
        assert forall|y: FoldRange| r.contains(y) <==> s.contains(y) by {
            if r.contains(y) {
                let k = choose|k: int| 0 <= k < r.len() && r[k] == y;
                if k == p {
                    assert(s[s.len() - 1] == y);
                } else {
                    let k2 = if k < p { k } else { k - 1 };
                    assert(t[k2] == y);
                    assert(t.contains(y));
                    assert(s.drop_last().contains(y));
                    let j = choose|j: int| 0 <= j < s.drop_last().len() && s.drop_last()[j] == y;
                    assert(s[j] == y);
                }
            }
            if s.contains(y) {
                let j = choose|j: int| 0 <= j < s.len() && s[j] == y;
                if j == s.len() - 1 {
                    assert(r[p] == y);
                } else {
                    assert(s.drop_last()[j] == y);
                    assert(s.drop_last().contains(y));
                    assert(t.contains(y));
                    let k = choose|k: int| 0 <= k < t.len() && t[k] == y;
                    let k2 = if k < p { k } else { k + 1 };
                    assert(r[k2] == y);
                }
            }
        }
    }
}

proof fn lemma_dedup_by_start(s: Seq<FoldRange>)
    requires
        sorted_by_start(s),
    ensures
        strictly_sorted_by_start(dedup_by_start(s)),
        s.len() > 0 ==> dedup_by_start(s).len() > 0 && dedup_by_start(s).last().start_line
            == s.last().start_line,
        forall|line: usize| has_start(dedup_by_start(s), line) <==> has_start(s, line),
        forall|x: FoldRange| dedup_by_start(s).contains(x) ==> s.contains(x),
    decreases s.len(),
{
    if s.len() > 1 {
        let d = s.drop_last();
        assert(sorted_by_start(d)) by {
            assert forall|a: int, b: int| 0 <= a < b < d.len() implies #[trigger] d[a].start_line
                <= #[trigger] d[b].start_line by {
                assert(s[a].start_line <= s[b].start_line);
            }
        }
        lemma_dedup_by_start(d);
        let dd = dedup_by_start(d);
        assert(d.last() == s[s.len() - 2]);
        assert forall|line: usize| has_start(dedup_by_start(s), line) <==> has_start(s, line) by {
            let eq = s.last().start_line == s[s.len() - 2].start_line;
            if has_start(s, line) {
                let i = choose|i: int| 0 <= i < s.len() && #[trigger] s[i].start_line == line;
                if i < s.len() - 1 {
                    assert(d[i].start_line == line);
                    assert(has_start(d, line));
                    assert(has_start(dd, line));
                    if !eq {
                        let j = choose|j: int| 0 <= j < dd.len() && #[trigger] dd[j].start_line == line;
                        assert(dd.push(s.last())[j] == dd[j]);
                    }
                } else if eq {
                    assert(d[d.len() - 1].start_line == line);
                    assert(has_start(d, line));
                    assert(has_start(dd, line));
                } else {
                    assert(dd.push(s.last())[dd.len() as int] == s.last());
                }
            }
            if has_start(dedup_by_start(s), line) {
                if eq {
                    assert(has_start(d, line));
                    let i = choose|i: int| 0 <= i < d.len() && #[trigger] d[i].start_line == line;
                    assert(s[i].start_line == line);
                } else {
                    let i = choose|i: int| 0 <= i < dedup_by_start(s).len() && #[trigger] dedup_by_start(s)[i].start_line == line;
                    if i < dd.len() {
                        assert(dd[i] == dedup_by_start(s)[i]);
                        assert(has_start(dd, line));
                        assert(has_start(d, line));
                        let j = choose|j: int| 0 <= j < d.len() && #[trigger] d[j].start_line == line;
                        assert(s[j].start_line == line);
                    } else {
                        assert(s[s.len() - 1].start_line == line);
                    }
                }
            }
        }
        assert forall|x: FoldRange| dedup_by_start(s).contains(x) implies s.contains(x) by {
            let k = choose|k: int| 0 <= k < dedup_by_start(s).len() && dedup_by_start(s)[k] == x;
            if k < dd.len() {
                assert(dd[k] == x);
                assert(dd.contains(x));
                assert(d.contains(x));
                let j = choose|j: int| 0 <= j < d.len() && d[j] == x;
                assert(s[j] == x);
            } else {
                assert(s[s.len() - 1] == x);
            }
        }
        if s.last().start_line != s[s.len() - 2].start_line {
            let r = dd.push(s.last());
            assert(s[s.len() - 2].start_line <= s.last().start_line);
            assert forall|a: int, b: int| 0 <= a < b < r.len() implies #[trigger] r[a].start_line
                < #[trigger] r[b].start_line by {
                if b < dd.len() {
                    assert(dd[a].start_line < dd[b].start_line);
                } else if a < dd.len() - 1 {
                    assert(dd[a].start_line < dd[dd.len() - 1].start_line);
                }
            }
        }
    }
}

/// A normalized candidate list is strictly sorted by start line and starts
/// exactly on the lines the input ranges start on.
pub proof fn lemma_normalized(s: Seq<FoldRange>)
    ensures
        strictly_sorted_by_start(normalized(s)),
        forall|line: usize| has_start(normalized(s), line) <==> has_start(s, line),
        forall|x: FoldRange| normalized(s).contains(x) ==> s.contains(x),
{
    lemma_sort_by_start(s);
    lemma_dedup_by_start(sort_by_start(s));
    let t = sort_by_start(s);
    assert forall|line: usize| has_start(t, line) <==> has_start(s, line) by {
        if has_start(t, line) {
            let i = choose|i: int| 0 <= i < t.len() && #[trigger] t[i].start_line == line;
            assert(t.contains(t[i]));
            assert(s.contains(t[i]));
            let j = choose|j: int| 0 <= j < s.len() && s[j] == t[i];
            assert(s[j].start_line == line);
        }
        if has_start(s, line) {
            let i = choose|i: int| 0 <= i < s.len() && #[trigger] s[i].start_line == line;
            assert(s.contains(s[i]));
            assert(t.contains(s[i]));
            let j = choose|j: int| 0 <= j < t.len() && t[j] == s[i];
            assert(t[j].start_line == line);
        }
    }
}

/// Every range before index `i` that starts on the same line as `s[i]`
/// equals it.
pub open spec fn leads(s: Seq<FoldRange>, i: int) -> bool {
    forall|q: int| 0 <= q < i && #[trigger] s[q].start_line == s[i].start_line ==> s[q] == s[i]
}

/// The stable sort keeps a range that leads its start line in front of the
/// others on that line.
proof fn lemma_sort_leads(s: Seq<FoldRange>, i: int)
    requires
        0 <= i < s.len(),
        leads(s, i),
    ensures
        exists|p: int| 0 <= p < sort_by_start(s).len() && leads(sort_by_start(s), p) && #[trigger] sort_by_start(s)[p]
            == s[i],
    decreases s.len(),
{
    let d = s.drop_last();
    let t = sort_by_start(d);
    let y = s.last();
    lemma_sort_by_start(d);
    lemma_insert_pos(t, y);
    let pos = insert_pos(t, y);
    let r = t.insert(pos, y);
    assert(sort_by_start(s) == r);
    let x = s[i];
    if i < s.len() - 1 {
        assert(leads(d, i)) by {
            assert forall|q: int| 0 <= q < i && #[trigger] d[q].start_line == d[i].start_line implies d[q] == d[i] by {
                assert(d[q] == s[q]);
            }
        }
        lemma_sort_leads(d, i);
        let p = choose|p: int| 0 <= p < t.len() && leads(t, p) && #[trigger] t[p] == d[i];
        if p < pos {
            assert(r[p] == t[p]);
            assert(leads(r, p)) by {
                assert forall|q: int| 0 <= q < p && #[trigger] r[q].start_line == r[p].start_line implies r[q] == r[p] by {
                    assert(r[q] == t[q]);
                }
            }
            assert(r[p] == x);
        } else {
            assert(y.start_line != x.start_line) by {
                if y.start_line == x.start_line {
                    assert(t[p].start_line > y.start_line);
                }
            }
            assert(r[p + 1] == t[p]);
            assert(leads(r, p + 1)) by {
                assert forall|q: int| 0 <= q < p + 1 && #[trigger] r[q].start_line == r[p + 1].start_line implies r[q]
                    == r[p + 1] by {
                    if q < pos {
                        assert(r[q] == t[q]);
                    } else if q > pos {
                        assert(r[q] == t[q - 1]);
                    }
                }
            }
            assert(r[p + 1] == x);
        }
    } else {
        assert(x == y);
        assert(r[pos] == y);
        assert(leads(r, pos)) by {
            assert forall|q: int| 0 <= q < pos && #[trigger] r[q].start_line == r[pos].start_line implies r[q] == r[pos] by {
                assert(r[q] == t[q]);
                assert(t.contains(t[q]));
                assert(d.contains(t[q]));
                let j = choose|j: int| 0 <= j < d.len() && d[j] == t[q];
                assert(s[j] == d[j]);
            }
        }
    }
}

/// De-duplicating a sorted list keeps a range that leads its start line.
proof fn lemma_dedup_leads(t: Seq<FoldRange>, p: int)
    requires
        sorted_by_start(t),
        0 <= p < t.len(),
        leads(t, p),
    ensures
        dedup_by_start(t).contains(t[p]),
    decreases t.len(),
{
    if t.len() <= 1 {
        assert(dedup_by_start(t)[p] == t[p]);
    } else {
        let d = t.drop_last();
        let m = t.len() - 1;
        assert(sorted_by_start(d)) by {
            assert forall|a: int, b: int| 0 <= a < b < d.len() implies #[trigger] d[a].start_line
                <= #[trigger] d[b].start_line by {
                assert(d[a] == t[a] && d[b] == t[b]);
            }
        }
        if p < m {
            assert(leads(d, p)) by {
                assert forall|q: int| 0 <= q < p && #[trigger] d[q].start_line == d[p].start_line implies d[q] == d[p] by {
                    assert(d[q] == t[q]);
                }
            }
            lemma_dedup_leads(d, p);
            let k = choose|k: int| 0 <= k < dedup_by_start(d).len() && dedup_by_start(d)[k] == d[p];
            if t.last().start_line == t[m - 1].start_line {
                assert(dedup_by_start(t) == dedup_by_start(d));
            } else {
                assert(dedup_by_start(t) == dedup_by_start(d).push(t.last()));
                assert(dedup_by_start(t)[k] == d[p]);
            }
        } else if t.last().start_line == t[m - 1].start_line {
            assert(t[m - 1] == t[m]);
            assert(leads(d, m - 1)) by {
                assert forall|q: int| 0 <= q < m - 1 && #[trigger] d[q].start_line == d[m - 1].start_line implies d[q]
                    == d[m - 1] by {
                    assert(d[q] == t[q]);
                    assert(t[q] == t[m]);
                }
            }
            lemma_dedup_leads(d, m - 1);
            assert(dedup_by_start(t) == dedup_by_start(d));
        } else {
            assert(dedup_by_start(t) == dedup_by_start(d).push(t.last()));
            assert(dedup_by_start(t)[dedup_by_start(d).len() as int] == t.last());
        }
    }
}

/// Merging candidates found in an edited region: every old candidate that
/// starts outside the edited lines stays, and a new candidate comes in
/// only on a start line where none of those stays. (The folds are then
/// those whose start line still has a candidate, as
/// `merge_candidates_for_edit` states.)
pub proof fn lemma_merge_keeps_outside(
    candidates: Seq<FoldRange>,
    edit_start_line: usize,
    edit_end_line: usize,
    new_candidates: Seq<FoldRange>,
)
    requires
        strictly_sorted_by_start(candidates),
    ensures
        ({
            let kept = candidates.filter(
                |c: FoldRange| c.start_line < edit_start_line || c.start_line > edit_end_line,
            );
            let merged = normalized(kept + new_candidates);
            &&& strictly_sorted_by_start(merged)
            &&& forall|x: FoldRange| kept.contains(x) ==> #[trigger] merged.contains(x)
            &&& forall|x: FoldRange| #[trigger]
                merged.contains(x) ==> kept.contains(x) || (new_candidates.contains(x) && !has_start(
                    kept,
                    x.start_line,
                ))
        }),
{
    let pred = |c: FoldRange| c.start_line < edit_start_line || c.start_line > edit_end_line;
    let kept = candidates.filter(pred);
    let s = kept + new_candidates;
    let merged = normalized(s);
    lemma_normalized(s);
    lemma_sort_by_start(s);
    let t = sort_by_start(s);
    // Two kept ranges on one start line are one range.
    assert forall|a: FoldRange, b: FoldRange|
        kept.contains(a) && kept.contains(b) && a.start_line == b.start_line implies a == b by {
        candidates.lemma_filter_contains_rev(pred, a);
        candidates.lemma_filter_contains_rev(pred, b);
        let i = choose|i: int| 0 <= i < candidates.len() && candidates[i] == a;
        let j = choose|j: int| 0 <= j < candidates.len() && candidates[j] == b;
        if i < j {
            assert(candidates[i].start_line < candidates[j].start_line);
        } else if j < i {
            assert(candidates[j].start_line < candidates[i].start_line);
        }
    }
    assert forall|x: FoldRange| kept.contains(x) implies #[trigger] merged.contains(x) by {
        let i = choose|i: int| 0 <= i < kept.len() && kept[i] == x;
        assert(s[i] == x);
        assert(leads(s, i)) by {
            assert forall|q: int| 0 <= q < i && #[trigger] s[q].start_line == s[i].start_line implies s[q] == s[i] by {
                assert(s[q] == kept[q]);
                assert(kept.contains(kept[q]));
            }
        }
        lemma_sort_leads(s, i);
        let p = choose|p: int| 0 <= p < t.len() && leads(t, p) && #[trigger] t[p] == s[i];
        lemma_dedup_leads(t, p);
    }
    assert forall|x: FoldRange| #[trigger] merged.contains(x) implies kept.contains(x) || (new_candidates.contains(x)
        && !has_start(kept, x.start_line)) by {
        assert(s.contains(x));
        let i = choose|i: int| 0 <= i < s.len() && s[i] == x;
        if i < kept.len() {
            assert(kept[i] == x);
        } else {
            assert(new_candidates[i - kept.len()] == x);
            if has_start(kept, x.start_line) {
                let k = choose|k: int| 0 <= k < kept.len() && #[trigger] kept[k].start_line == x.start_line;
                let y = kept[k];
                assert(kept.contains(y));
                assert(merged.contains(y));
                let a = choose|a: int| 0 <= a < merged.len() && merged[a] == x;
                let b = choose|b: int| 0 <= b < merged.len() && merged[b] == y;
                if a < b {
                    assert(merged[a].start_line < merged[b].start_line);
                } else if b < a {
                    assert(merged[b].start_line < merged[a].start_line);
                }
                assert(x == y);
            }
        }
    }
}

/// Stable insertion sort by start line.
fn sort_folds_by_start(v: &Vec<FoldRange>) -> (r: Vec<FoldRange>)
    ensures
        r@ == sort_by_start(v@),
{
    let mut r: Vec<FoldRange> = Vec::new();
    let n = v.len();
    let mut i: usize = 0;
    while i < n
        invariant
            n == v@.len(),
            i <= n,
            r@ == sort_by_start(v@.take(i as int)),
        decreases n - i,
    {
        let x = v[i];
        let ghost l = r@;
        let mut p: usize = r.len();
        assert(l.take(l.len() as int) == l);
        while p > 0 && r[p - 1].start_line > x.start_line
            invariant
                r@ == l,
                p <= l.len(),
                insert_pos(l, x) == insert_pos(l.take(p as int), x),
            decreases p,
        {
            assert(l.take(p as int).drop_last() == l.take(p - 1));
            p = p - 1;
        }
        proof {
            if p > 0 {
                assert(l.take(p as int).last() == l[p - 1]);
            }
        }
        r.insert(p, x);
        proof {
            let t = v@.take(i as int + 1);
            assert(t.drop_last() == v@.take(i as int));
            assert(t.last() == x);
        }
        i = i + 1;
    }
    assert(v@.take(n as int) == v@);
    r
}

/// Remove ranges whose start line repeats the one before.
fn dedup_folds_by_start(v: &Vec<FoldRange>) -> (r: Vec<FoldRange>)
    ensures
        r@ == dedup_by_start(v@),
{
    let mut r: Vec<FoldRange> = Vec::new();
    let n = v.len();
    let mut i: usize = 0;
    while i < n
        invariant
            n == v@.len(),
            i <= n,
            r@ == dedup_by_start(v@.take(i as int)),
            i > 0 ==> r@.len() > 0 && r@.last().start_line == v@[i - 1].start_line,
        decreases n - i,
    {
        let x = v[i];
        proof {
            lemma_dedup_last(v@.take(i as int + 1));
        }
        if r.len() == 0 || r[r.len() - 1].start_line != x.start_line {
            r.push(x);
        }
        proof {
            let t = v@.take(i as int + 1);
            assert(t.drop_last() == v@.take(i as int));
            assert(t.last() == x);
            if i > 0 {
                assert(t[t.len() - 2] == v@[i - 1]);
            }
        }
        i = i + 1;
    }
    assert(v@.take(n as int) == v@);
    r
}

proof fn lemma_dedup_last(s: Seq<FoldRange>)
    ensures
        s.len() > 0 ==> dedup_by_start(s).len() > 0 && dedup_by_start(s).last().start_line
            == s.last().start_line,
    decreases s.len(),
{
    if s.len() > 1 {
        lemma_dedup_last(s.drop_last());
    }
}

/// Sort and de-duplicate ranges by start line.
fn normalize_folds(v: &Vec<FoldRange>) -> (r: Vec<FoldRange>)
    ensures
        r@ == normalized(v@),
{
    let sorted = sort_folds_by_start(v);
    dedup_folds_by_start(&sorted)
}


proof fn lemma_filter_take_step(s: Seq<FoldRange>, i: int, p: spec_fn(FoldRange) -> bool)
    requires
        0 <= i < s.len(),
    ensures
        s.take(i + 1).filter(p) == (if p(s[i]) {
            s.take(i).filter(p).push(s[i])
        } else {
            s.take(i).filter(p)
        }),
{
    reveal(Seq::filter);
    assert(s.take(i + 1).drop_last() == s.take(i));
    assert(s.take(i + 1).last() == s[i]);
}

/// Whether a fold survives an edit of lines `es..=ee`: it does not overlap them.
pub open spec fn survives_edit(f: FoldRange, es: usize, ee: usize) -> bool {
    !(f.start_line <= ee && f.end_line >= es)
}

/// A line shifted by `delta`, never below zero.
pub open spec fn shift_line(line: usize, delta: isize) -> usize {
    if line + delta < 0 {
        0
    } else {
        (line + delta) as usize
    }
}

/// A fold after an edit of lines ending at `ee` that changed the line count
/// by `delta`: folds after the edit move by `delta`.
pub open spec fn shifted(f: FoldRange, ee: usize, delta: isize) -> FoldRange {
    if delta != 0 && f.start_line > ee {
        FoldRange { start_line: shift_line(f.start_line, delta), end_line: shift_line(f.end_line, delta) }
    } else {
        f
    }
}

/// The folds kept after an edit, shifted.
pub open spec fn adjusted(s: Seq<FoldRange>, es: usize, ee: usize, delta: isize) -> Seq<FoldRange> {
    s.filter(|f: FoldRange| survives_edit(f, es, ee)).map_values(|f: FoldRange| shifted(f, ee, delta))
}

/// Shifting a surviving fold stays within the machine's signed line numbers.
pub open spec fn shift_fits(f: FoldRange, es: usize, ee: usize, delta: isize) -> bool {
    (survives_edit(f, es, ee) && delta != 0 && f.start_line > ee) ==> (f.start_line
        <= isize::MAX && f.end_line <= isize::MAX && f.start_line + delta <= isize::MAX
        && f.end_line + delta <= isize::MAX)
}

/// Adjust folds after an edit of lines `es..=ee` that changed the line count
/// by `delta`.
fn adjust_ranges(v: &Vec<FoldRange>, es: usize, ee: usize, delta: isize) -> (r: Vec<FoldRange>)
    requires
        forall|i: int| 0 <= i < v@.len() ==> shift_fits(#[trigger] v@[i], es, ee, delta),
    ensures
        r@ == adjusted(v@, es, ee, delta),
{
    let mut r: Vec<FoldRange> = Vec::new();
    let n = v.len();
    let mut i: usize = 0;
    while i < n
        invariant
            n == v@.len(),
            i <= n,
            forall|k: int| 0 <= k < v@.len() ==> shift_fits(#[trigger] v@[k], es, ee, delta),
            r@ == adjusted(v@.take(i as int), es, ee, delta),
        decreases n - i,
    {
        let f = v[i];
        let ghost t = v@.take(i as int + 1);
        proof {
            assert(t.drop_last() == v@.take(i as int));
            assert(t.last() == f);
            reveal_with_fuel(Seq::filter, 1);
            assert(shift_fits(v@[i as int], es, ee, delta));
        }
        if !(f.start_line <= ee && f.end_line >= es) {
            if delta != 0 && f.start_line > ee {
                let s = f.start_line as isize + delta;
                let e = f.end_line as isize + delta;
                let s2: usize = if s < 0 { 0 } else { s as usize };
                let e2: usize = if e < 0 { 0 } else { e as usize };
                r.push(FoldRange { start_line: s2, end_line: e2 });
            } else {
                r.push(f);
            }
        }
        proof {
            let p = |x: FoldRange| survives_edit(x, es, ee);
            let m = |x: FoldRange| shifted(x, ee, delta);
            assert(t.filter(p) == if p(f) { v@.take(i as int).filter(p).push(f) } else { v@.take(i as int).filter(p) });
            if p(f) {
                assert(v@.take(i as int).filter(p).push(f).map_values(m) == v@.take(i as int).filter(p).map_values(m).push(m(f)));
            }
        }
        i = i + 1;
    }
    assert(v@.take(n as int) == v@);
    r
}

/// The wrap rows a fold hides: those of the lines strictly between its
/// first and last line, as a start and an end row.
pub open spec fn fold_rows(f: FoldRange, wm: WrapMap) -> (int, int) {
    let hs = f.start_line + 1;
    let he = if f.end_line >= 1 { f.end_line - 1 } else { 0 };
    if hs > he {
        (0, 0)
    } else {
        let first = if hs < wm.line_starts().len() { wm.line_starts()[hs] as int } else { wm.row_count() as int };
        let end = if he + 1 < wm.line_starts().len() { wm.line_starts()[he + 1] as int } else { wm.row_count() as int };
        (first, end)
    }
}

/// Whether one of the folds hides row `w`.
pub open spec fn folds_hide(s: Seq<FoldRange>, wm: WrapMap, w: int) -> bool {
    exists|k: int| 0 <= k < s.len() && #[trigger] fold_rows(s[k], wm).0 <= w < fold_rows(s[k], wm).1
}


/// The index of the first range starting on `line`.
pub open spec fn first_start(s: Seq<FoldRange>, line: usize) -> int {
    choose|i: int| 0 <= i < s.len() && s[i].start_line == line && forall|k: int| 0 <= k < i ==> #[trigger] s[k].start_line != line
}

/// Whether a range of `v` starts on `line`.
fn has_candidate(v: &Vec<FoldRange>, line: usize) -> (r: bool)
    ensures
        r == has_start(v@, line),
{
    let n = v.len();
    let mut i: usize = 0;
    while i < n
        invariant
            n == v@.len(),
            i <= n,
            forall|k: int| 0 <= k < i ==> #[trigger] v@[k].start_line != line,
        decreases n - i,
    {
        if v[i].start_line == line {
            return true;
        }
        i = i + 1;
    }
    false
}

/// The index of the first range of `v` starting on `line`.
fn first_candidate(v: &Vec<FoldRange>, line: usize) -> (r: Option<usize>)
    ensures
        r is Some <==> has_start(v@, line),
        r matches Some(i) ==> i == first_start(v@, line) && i < v@.len(),
{
    let n = v.len();
    let mut i: usize = 0;
    while i < n
        invariant
            n == v@.len(),
            i <= n,
            forall|k: int| 0 <= k < i ==> #[trigger] v@[k].start_line != line,
        decreases n - i,
    {
        if v[i].start_line == line {
            proof {
                let f = first_start(v@, line);
                assert(v@[i as int].start_line == line && forall|k: int| 0 <= k < i ==> #[trigger] v@[k].start_line != line);
                if f != i {
                    if f < i {
                        assert(v@[f].start_line != line);
                    } else {
                        assert(v@[i as int].start_line != line);
                    }
                }
            }
            return Some(i);
        }
        i = i + 1;
    }
    None
}

/// FoldMap projects wrap rows to display rows by hiding folded regions.
pub struct FoldMap {
    hidden: Vec<HiddenRows>,
    total_hidden: usize,
    projected_wrap_row_count: usize,
    candidates: Vec<FoldRange>,
    folded: Vec<FoldRange>,
    needs_rebuild: bool,
    cached_wrap_row_count: usize,
}

impl FoldMap {
    /// The hidden runs.
    pub closed spec fn runs(self) -> Seq<HiddenRows> {
        self.hidden@
    }

    /// The wrap row count the projection was last built for.
    pub closed spec fn projected_count(self) -> int {
        self.projected_wrap_row_count as int
    }

    /// The wrap row count recorded by the last rebuild or dirty mark.
    pub closed spec fn cached_count(self) -> int {
        self.cached_wrap_row_count as int
    }

    /// The candidate fold ranges.
    pub closed spec fn candidates_view(self) -> Seq<FoldRange> {
        self.candidates@
    }

    /// The folded ranges.
    pub closed spec fn folded_view(self) -> Seq<FoldRange> {
        self.folded@
    }

    /// Whether the projection has to be rebuilt.
    pub closed spec fn dirty(self) -> bool {
        self.needs_rebuild
    }

    /// The projection's internal invariant.
    pub closed spec fn wf(self) -> bool {
        &&& runs_wf(self.hidden@, self.projected_wrap_row_count as int)
        &&& self.total_hidden == prefix_hidden(self.hidden@, self.hidden@.len() as int)
    }

    /// Whether wrap row `w` is hidden by the projection.
    pub open spec fn is_hidden(self, w: int) -> bool {
        in_runs(self.runs(), w)
    }

    /// Whether wrap row `w` is shown: folds are active, the row is within
    /// the projection and no run hides it.
    pub open spec fn is_shown(self, w: int) -> bool {
        0 <= w < self.projected_count() && !self.is_hidden(w)
    }

    /// The display row of wrap row `w` when folds are active: the visible
    /// rows below it.
    pub open spec fn display_of(self, w: int) -> int {
        visible_below(self.runs(), w)
    }

    /// The number of shown wrap rows below `w`: the position of a shown row
    /// among the shown rows in ascending order.
    pub open spec fn shown_below(self, w: int) -> int
        decreases w,
    {
        if w <= 0 {
            0
        } else {
            self.shown_below(w - 1) + if self.is_shown(w - 1) { 1int } else { 0int }
        }
    }

    /// The number of display rows of the projection.
    pub open spec fn projected_display_count(self) -> int {
        self.display_of(self.projected_count())
    }

    /// A fold map with no folds and no rows.
    pub fn new() -> (r: Self)
        ensures
            r.wf(),
            r.runs().len() == 0,
            r.projected_count() == 0,
            r.cached_count() == 0,
            r.candidates_view().len() == 0,
            r.folded_view().len() == 0,
            r.dirty(),
    {
        FoldMap {
            hidden: Vec::new(),
            total_hidden: 0,
            projected_wrap_row_count: 0,
            candidates: Vec::new(),
            folded: Vec::new(),
            needs_rebuild: true,
            cached_wrap_row_count: 0,
        }
    }

    /// Record a new wrap row count and ask for a rebuild, without rebuilding.
    pub fn mark_dirty_with_wrap_count(&mut self, wrap_row_count: usize)
        ensures
            final(self).dirty(),
            final(self).cached_count() == wrap_row_count,
            final(self).runs() == old(self).runs(),
            final(self).projected_count() == old(self).projected_count(),
            final(self).candidates_view() == old(self).candidates_view(),
            final(self).folded_view() == old(self).folded_view(),
            old(self).wf() ==> final(self).wf(),
    {
        self.needs_rebuild = true;
        self.cached_wrap_row_count = wrap_row_count;
    }

    /// The number of visible display rows.
    pub fn display_row_count(&self) -> (r: usize)
        requires
            self.wf(),
        ensures
            r == (if self.folded_view().len() == 0 {
                self.cached_count()
            } else {
                self.projected_display_count()
            }),
    {
        if self.folded.len() == 0 {
            return self.cached_wrap_row_count;
        }
        proof {
            self.lemma_total();
        }
        self.projected_wrap_row_count - self.total_hidden
    }

    proof fn lemma_total(self)
        requires
            self.wf(),
        ensures
            self.total_hidden <= self.projected_wrap_row_count,
            self.projected_display_count() == self.projected_wrap_row_count - self.total_hidden,
    {
        let rs = self.hidden@;
        let n = rs.len() as int;
        lemma_prefix_hidden_bound(rs, n, self.projected_wrap_row_count as int);
        assert forall|k: int| 0 <= k < n implies #[trigger] rs[k].end
            <= self.projected_wrap_row_count by {}
        lemma_hidden_below_split(rs, n, n, self.projected_wrap_row_count as int);
    }

    /// How many wrap rows the runs before `index` hide.
    fn hidden_before(&self, index: usize) -> (r: usize)
        requires
            self.wf(),
            index <= self.runs().len(),
        ensures
            r == prefix_hidden(self.runs(), index as int),
    {
        if index < self.hidden.len() {
            self.hidden[index].hidden_before
        } else {
            self.total_hidden
        }
    }

    /// The number of runs that end at or before `w`.
    fn runs_ending_by(&self, w: usize) -> (i: usize)
        requires
            self.wf(),
        ensures
            i <= self.runs().len(),
            forall|k: int| 0 <= k < i ==> #[trigger] self.runs()[k].end <= w,
            forall|k: int| i <= k < self.runs().len() ==> #[trigger] self.runs()[k].end > w,
    {
        let ghost rs = self.hidden@;
        let mut lo: usize = 0;
        let mut hi: usize = self.hidden.len();
        while lo < hi
            invariant
                rs == self.hidden@,
                self.wf(),
                lo <= hi <= rs.len(),
                forall|k: int| 0 <= k < lo ==> #[trigger] rs[k].end <= w,
                forall|k: int| hi <= k < rs.len() ==> #[trigger] rs[k].end > w,
            decreases hi - lo,
        {
            let mid = lo + (hi - lo) / 2;
            if self.hidden[mid].end <= w {
                assert forall|k: int| 0 <= k < mid + 1 implies #[trigger] rs[k].end <= w by {
                    if k < mid {
                        assert(rs[k].end < rs[mid as int].start);
                    }
                }
                lo = mid + 1;
            } else {
                assert forall|k: int| mid <= k < rs.len() implies #[trigger] rs[k].end > w by {
                    if k > mid {
                        assert(rs[mid as int].end < rs[k].start);
                    }
                }
                hi = mid;
            }
        }
        lo
    }

    /// Convert a wrap row to its display row; `None` when folding hides it
    /// or it lies past the rows.
    pub fn wrap_row_to_display_row(&self, wrap_row: usize) -> (r: Option<usize>)
        requires
            self.wf(),
        ensures
            self.folded_view().len() == 0 ==> r == (if wrap_row < self.cached_count() {
                Some(wrap_row)
            } else {
                None
            }),
            self.folded_view().len() != 0 ==> r == (if self.is_shown(wrap_row as int) {
                Some(self.display_of(wrap_row as int) as usize)
            } else {
                None
            }),
            self.folded_view().len() != 0 ==> (r matches Some(d) ==> d == self.display_of(
                wrap_row as int,
            )),
    {
        if self.folded.len() == 0 {
            return if wrap_row < self.cached_wrap_row_count {
                Some(wrap_row)
            } else {
                None
            };
        }
        if wrap_row >= self.projected_wrap_row_count {
            return None;
        }
        let index = self.runs_ending_by(wrap_row);
        let ghost rs = self.hidden@;
        if index < self.hidden.len() && self.hidden[index].start <= wrap_row {
            assert(rs[index as int].start <= wrap_row < rs[index as int].end);
            return None;
        }
        proof {
            assert forall|k: int| index <= k < rs.len() implies #[trigger] rs[k].start
                >= wrap_row by {
                if k > index {
                    assert(rs[index as int].end < rs[k].start);
                }
            }
            assert forall|k: int| 0 <= k < rs.len() implies !(#[trigger] rs[k].start <= wrap_row
                < rs[k].end) by {
                if k >= index {
                    if k > index {
                        assert(rs[index as int].end < rs[k].start);
                    }
                }
            }
            lemma_hidden_below_split(rs, rs.len() as int, index as int, wrap_row as int);
            lemma_prefix_hidden_bound(rs, index as int, self.projected_wrap_row_count as int);
        }
        let before = self.hidden_before(index);
        Some(wrap_row - before)
    }

    /// Convert a display row to its wrap row; `None` past the display rows.
    pub fn display_row_to_wrap_row(&self, display_row: usize) -> (r: Option<usize>)
        requires
            self.wf(),
        ensures
            self.folded_view().len() == 0 ==> r == (if display_row < self.cached_count() {
                Some(display_row)
            } else {
                None
            }),
            self.folded_view().len() != 0 ==> (r is Some <==> display_row
                < self.projected_display_count()),
            self.folded_view().len() != 0 ==> (r matches Some(w) ==> self.is_shown(w as int)
                && self.display_of(w as int) == display_row),
    {
        if self.folded.len() == 0 {
            return if display_row < self.cached_wrap_row_count {
                Some(display_row)
            } else {
                None
            };
        }
        let count = self.display_row_count();
        if display_row >= count {
            return None;
        }
        let ghost rs = self.hidden@;
        let ghost c = self.projected_wrap_row_count as int;
        proof {
            self.lemma_total();
        }
        // Binary search for the first run whose display start exceeds the row.
        let mut lo: usize = 0;
        let mut hi: usize = self.hidden.len();
        while lo < hi
            invariant
                rs == self.hidden@,
                c == self.projected_wrap_row_count,
                self.wf(),
                lo <= hi <= rs.len(),
                forall|k: int| 0 <= k < lo ==> #[trigger] rs[k].start - rs[k].hidden_before
                    <= display_row,
                forall|k: int| hi <= k < rs.len() ==> #[trigger] rs[k].start - rs[k].hidden_before
                    > display_row,
            decreases hi - lo,
        {
            let mid = lo + (hi - lo) / 2;
            proof {
                lemma_prefix_hidden_bound(rs, mid as int + 1, c);
                lemma_prefix_hidden_mono(rs, mid as int, mid as int + 1);
            }
            if self.hidden[mid].display_start() <= display_row {
                assert forall|k: int| 0 <= k < mid + 1 implies #[trigger] rs[k].start
                    - rs[k].hidden_before <= display_row by {
                    if k < mid {
                        lemma_display_start_mono(rs, k, mid as int, c);
                    }
                }
                lo = mid + 1;
            } else {
                assert forall|k: int| mid <= k < rs.len() implies #[trigger] rs[k].start
                    - rs[k].hidden_before > display_row by {
                    if k > mid {
                        lemma_display_start_mono(rs, mid as int, k, c);
                    }
                }
                hi = mid;
            }
        }
        let before = self.hidden_before(lo);
        proof {
            let i = lo as int;
            let w = display_row + prefix_hidden(rs, i);
            lemma_prefix_hidden_bound(rs, rs.len() as int, c);
            lemma_prefix_hidden_mono(rs, i, rs.len() as int);
            if i > 0 {
                lemma_prefix_hidden_bound(rs, i, c);
                assert(prefix_hidden(rs, i) == prefix_hidden(rs, i - 1) + run_len(rs[i - 1]));
            }
            assert forall|k: int| 0 <= k < i implies #[trigger] rs[k].end <= w by {
                lemma_prefix_hidden_mono(rs, k + 1, i);
                assert(prefix_hidden(rs, k + 1) == prefix_hidden(rs, k) + run_len(rs[k]));
            }
            assert forall|k: int| i <= k < rs.len() implies #[trigger] rs[k].start > w by {
                lemma_prefix_hidden_mono(rs, i, k);
            }
            assert forall|k: int| i <= k < rs.len() implies #[trigger] rs[k].start >= w by {
                assert(rs[k].start > w);
            }
            lemma_hidden_below_split(rs, rs.len() as int, i, w);
            assert forall|k: int| 0 <= k < rs.len() implies !(#[trigger] rs[k].start <= w
                < rs[k].end) by {
                if k >= i {
                    assert(rs[k].start > w);
                }
            }
            if i < rs.len() {
                assert(rs[i].start > w);
            }
        }
        Some(display_row + before)
    }


    /// Install the projection for `wrap_row_count` wrap rows with
    /// `hidden_ranges` hidden, merging overlapping and adjacent ranges.
    pub fn set_hidden_rows(&mut self, wrap_row_count: usize, hidden_ranges: Vec<Range<usize>>)
        ensures
            final(self).wf(),
            final(self).projected_count() == wrap_row_count,
            forall|w: int| #[trigger] final(self).is_hidden(w) <==> (w < wrap_row_count
                && in_ranges(hidden_ranges@, w)),
            final(self).candidates_view() == old(self).candidates_view(),
            final(self).folded_view() == old(self).folded_view(),
            final(self).dirty() == old(self).dirty(),
            final(self).cached_count() == old(self).cached_count(),
    {
        let sorted = sort_ranges_by_start(&hidden_ranges);
        let mut runs: Vec<HiddenRows> = Vec::new();
        let mut total: usize = 0;
        let count = wrap_row_count;
        let n = sorted.len();
        let mut i: usize = 0;
        while i < n
            invariant
                n == sorted@.len(),
                i <= n,
                pairs_sorted(sorted@),
                runs_wf(runs@, count as int),
                total == prefix_hidden(runs@, runs@.len() as int),
                runs@.len() > 0 ==> forall|j: int| i <= j < n ==> runs@.last().start
                    <= #[trigger] sorted@[j].0,
                forall|w: int| #[trigger] in_runs(runs@, w) <==> in_clipped(sorted@.take(i as int), count as int, w),
            decreases n - i,
        {
            let a = sorted[i].0;
            let b = sorted[i].1;
            let e = if b < count { b } else { count };
            let ghost old_runs = runs@;
            let ghost taken = sorted@.take(i as int + 1);
            proof {
                assert(taken.drop_last() == sorted@.take(i as int));
                assert(taken[i as int] == sorted@[i as int]);
                assert forall|w: int| #[trigger] in_clipped(taken, count as int, w) <==> (in_clipped(sorted@.take(i as int), count as int, w) || (a <= w < e)) by {
                    if in_clipped(taken, count as int, w) {
                        let k = choose|k: int| 0 <= k < taken.len() && #[trigger] taken[k].0 <= w < taken[k].1;
                        if k < i {
                            assert(sorted@.take(i as int)[k] == taken[k]);
                        }
                    }
                    if in_clipped(sorted@.take(i as int), count as int, w) {
                        let k = choose|k: int| 0 <= k < i && #[trigger] sorted@.take(i as int)[k].0 <= w < sorted@.take(i as int)[k].1;
                        assert(taken[k] == sorted@.take(i as int)[k]);
                    }
                    if a <= w < e {
                        assert(taken[i as int].0 <= w < taken[i as int].1);
                    }
                }
                lemma_prefix_hidden_bound(runs@, runs@.len() as int, count as int);
            }
            if a < e {
                let len = runs.len();
                if len > 0 && a <= runs[len - 1].end {
                    let last = runs[len - 1];
                    if e > last.end {
                        proof {
                            lemma_prefix_hidden_bound(runs@, len as int, count as int);
                            assert(prefix_hidden(runs@, len as int) == prefix_hidden(runs@, len - 1) + run_len(runs@[len - 1]));
                            lemma_prefix_hidden_bound(runs@, len - 1, count as int);
                        }
                        total = total + (e - last.end);
                        let new_last = HiddenRows { start: last.start, end: e, hidden_before: last.hidden_before };
                        runs.set(len - 1, new_last);
                        proof {
                            assert forall|k: int| 0 <= k < len - 1 implies prefix_hidden(runs@, k) == prefix_hidden(old_runs, k) by {
                                lemma_prefix_update(old_runs, len - 1, new_last, k);
                            }
                            lemma_prefix_update(old_runs, len - 1, new_last, len - 1);
                            assert(runs@[len - 1] == new_last);
                            assert(prefix_hidden(runs@, len as int) == prefix_hidden(runs@, len - 1) + run_len(runs@[len - 1]));
                            assert forall|k: int| 0 <= k < runs@.len() implies #[trigger] runs@[k].hidden_before == prefix_hidden(runs@, k) by {
                                if k < len - 1 {
                                    assert(runs@[k] == old_runs[k]);
                                }
                            }
                            assert forall|x: int, y: int| 0 <= x < y < runs@.len() implies #[trigger] runs@[x].end < #[trigger] runs@[y].start by {
                                assert(old_runs[x].end < old_runs[y].start);
                            }
                            assert forall|w: int| #[trigger] in_runs(runs@, w) <==> (in_runs(old_runs, w) || (a <= w < e)) by {
                                if in_runs(runs@, w) {
                                    let k = choose|k: int| 0 <= k < runs@.len() && #[trigger] runs@[k].start <= w < runs@[k].end;
                                    if k < len - 1 {
                                        assert(old_runs[k] == runs@[k]);
                                    } else if w < last.end {
                                        assert(old_runs[len - 1].start <= w < old_runs[len - 1].end);
                                    }
                                }
                                if in_runs(old_runs, w) {
                                    let k = choose|k: int| 0 <= k < old_runs.len() && #[trigger] old_runs[k].start <= w < old_runs[k].end;
                                    if k < len - 1 {
                                        assert(old_runs[k] == runs@[k]);
                                    } else {
                                        assert(runs@[len - 1].start <= w < runs@[len - 1].end);
                                    }
                                }
                                if a <= w < e {
                                    assert(last.start <= a);
                                    assert(runs@[len - 1].start <= w < runs@[len - 1].end);
                                }
                            }
                        }
                    } else {
                        proof {
                            assert forall|w: int| a <= w < e implies #[trigger] in_runs(runs@, w) by {
                                assert(last.start <= a);
                                assert(runs@[len - 1].start <= w < runs@[len - 1].end);
                            }
                        }
                    }
                } else {
                    proof {
                        lemma_prefix_hidden_bound(runs@, len as int, count as int);
                    }
                    let run = HiddenRows { start: a, end: e, hidden_before: total };
                    total = total + (e - a);
                    runs.push(run);
                    proof {
                        lemma_prefix_push(old_runs, run, len as int);
                        assert(prefix_hidden(runs@, len as int + 1) == prefix_hidden(runs@, len as int) + run_len(runs@[len as int]));
                        assert forall|k: int| 0 <= k < runs@.len() implies #[trigger] runs@[k].hidden_before == prefix_hidden(runs@, k) by {
                            if k < len {
                                lemma_prefix_push(old_runs, run, k);
                                assert(runs@[k] == old_runs[k]);
                            }
                        }
                        assert forall|x: int, y: int| 0 <= x < y < runs@.len() implies #[trigger] runs@[x].end < #[trigger] runs@[y].start by {
                            if y < len {
                                assert(old_runs[x].end < old_runs[y].start);
                            } else if x < len - 1 {
                                assert(old_runs[x].end < old_runs[len - 1].start);
                                assert(old_runs[len - 1].start < old_runs[len - 1].end);
                            }
                        }
                        assert forall|w: int| #[trigger] in_runs(runs@, w) <==> (in_runs(old_runs, w) || (a <= w < e)) by {
                            if in_runs(runs@, w) {
                                let k = choose|k: int| 0 <= k < runs@.len() && #[trigger] runs@[k].start <= w < runs@[k].end;
                                if k < len {
                                    assert(old_runs[k] == runs@[k]);
                                }
                            }
                            if in_runs(old_runs, w) {
                                let k = choose|k: int| 0 <= k < old_runs.len() && #[trigger] old_runs[k].start <= w < old_runs[k].end;
                                assert(old_runs[k] == runs@[k]);
                            }
                            if a <= w < e {
                                assert(runs@[len as int].start <= w < runs@[len as int].end);
                            }
                        }
                    }
                }
            }
            proof {
                if runs@.len() > 0 {
                    assert forall|j: int| i + 1 <= j < n implies runs@.last().start <= #[trigger] sorted@[j].0 by {
                        assert(sorted@[i as int].0 <= sorted@[j].0);
                        if old_runs.len() > 0 {
                            assert(old_runs.last().start <= sorted@[j].0);
                        }
                    }
                }
            }
            i = i + 1;
        }
        assert(sorted@.take(n as int) == sorted@);
        self.hidden = runs;
        self.total_hidden = total;
        self.projected_wrap_row_count = count;
    }


    /// Replace the fold candidates: they are sorted by start line, one per
    /// line, and folds that no candidate starts on any more are dropped.
    pub fn set_candidates(&mut self, candidates: Vec<FoldRange>)
        ensures
            final(self).candidates_view() == normalized(candidates@),
            final(self).folded_view() == old(self).folded_view().filter(
                |f: FoldRange| has_start(normalized(candidates@), f.start_line),
            ),
            strictly_sorted_by_start(final(self).candidates_view()),
            final(self).runs() == old(self).runs(),
            final(self).projected_count() == old(self).projected_count(),
            final(self).cached_count() == old(self).cached_count(),
            final(self).dirty() == old(self).dirty(),
            old(self).wf() ==> final(self).wf(),
    {
        let normal = normalize_folds(&candidates);
        proof {
            lemma_normalized(candidates@);
        }
        let ghost pred = |f: FoldRange| has_start(normalized(candidates@), f.start_line);
        let mut kept: Vec<FoldRange> = Vec::new();
        let n = self.folded.len();
        let mut i: usize = 0;
        while i < n
            invariant
                n == self.folded@.len(),
                i <= n,
                normal@ == normalized(candidates@),
                pred == (|f: FoldRange| has_start(normalized(candidates@), f.start_line)),
                kept@ == self.folded@.take(i as int).filter(pred),
            decreases n - i,
        {
            let f = self.folded[i];
            let found = has_candidate(&normal, f.start_line);
            if found {
                kept.push(f);
            }
            proof {
                lemma_filter_take_step(self.folded@, i as int, pred);
            }
            i = i + 1;
        }
        assert(self.folded@.take(n as int) == self.folded@);
        self.candidates = normal;
        self.folded = kept;
    }

    /// Replace the candidates starting on lines `edit_start_line..=edit_end_line`
    /// with `new_candidates`, keeping those outside the edit. Folds stay a
    /// subset of the candidates: a fold whose start line no longer has a
    /// candidate is dropped.
    pub fn merge_candidates_for_edit(
        &mut self,
        edit_start_line: usize,
        edit_end_line: usize,
        new_candidates: Vec<FoldRange>,
    )
        ensures
            final(self).candidates_view() == normalized(
                old(self).candidates_view().filter(
                    |c: FoldRange| c.start_line < edit_start_line || c.start_line > edit_end_line,
                ) + new_candidates@,
            ),
            strictly_sorted_by_start(final(self).candidates_view()),
            final(self).folded_view() == old(self).folded_view().filter(
                |f: FoldRange| has_start(final(self).candidates_view(), f.start_line),
            ),
            final(self).runs() == old(self).runs(),
            final(self).projected_count() == old(self).projected_count(),
            final(self).cached_count() == old(self).cached_count(),
            final(self).dirty() == old(self).dirty(),
            old(self).wf() ==> final(self).wf(),
    {
        let ghost pred = |c: FoldRange| c.start_line < edit_start_line || c.start_line > edit_end_line;
        let mut kept: Vec<FoldRange> = Vec::new();
        let n = self.candidates.len();
        let mut i: usize = 0;
        while i < n
            invariant
                n == self.candidates@.len(),
                i <= n,
                pred == (|c: FoldRange| c.start_line < edit_start_line || c.start_line > edit_end_line),
                kept@ == self.candidates@.take(i as int).filter(pred),
            decreases n - i,
        {
            let c = self.candidates[i];
            if c.start_line < edit_start_line || c.start_line > edit_end_line {
                kept.push(c);
            }
            proof {
                lemma_filter_take_step(self.candidates@, i as int, pred);
            }
            i = i + 1;
        }
        assert(self.candidates@.take(n as int) == self.candidates@);
        let ghost before = kept@;
        let mut extra = new_candidates;
        kept.append(&mut extra);
        assert(kept@ == before + new_candidates@);
        let normal = normalize_folds(&kept);
        proof {
            lemma_normalized(kept@);
        }
        let ghost keep = |f: FoldRange| has_start(normal@, f.start_line);
        let mut folds: Vec<FoldRange> = Vec::new();
        let m = self.folded.len();
        let mut j: usize = 0;
        while j < m
            invariant
                m == self.folded@.len(),
                j <= m,
                keep == (|f: FoldRange| has_start(normal@, f.start_line)),
                folds@ == self.folded@.take(j as int).filter(keep),
            decreases m - j,
        {
            let f = self.folded[j];
            if has_candidate(&normal, f.start_line) {
                folds.push(f);
            }
            proof {
                lemma_filter_take_step(self.folded@, j as int, keep);
            }
            j = j + 1;
        }
        assert(self.folded@.take(m as int) == self.folded@);
        self.candidates = normal;
        self.folded = folds;
    }

    /// Fold (or unfold) the region starting on `start_line`. Folding needs a
    /// candidate starting there and adds the first such candidate once,
    /// keeping the folds stably sorted; unfolding removes every fold starting
    /// there. Both ask for a rebuild when they change the folds, unfolding
    /// always.
    pub fn set_folded(&mut self, start_line: usize, folded: bool)
        ensures
            folded ==> (if has_start(old(self).candidates_view(), start_line) && !has_start(
                old(self).folded_view(),
                start_line,
            ) {
                &&& final(self).folded_view() == sort_by_start(
                    old(self).folded_view().push(
                        old(self).candidates_view()[first_start(old(self).candidates_view(), start_line)],
                    ),
                )
                &&& final(self).dirty()
            } else {
                &&& final(self).folded_view() == old(self).folded_view()
                &&& final(self).dirty() == old(self).dirty()
            }),
            !folded ==> final(self).folded_view() == old(self).folded_view().filter(
                |f: FoldRange| f.start_line != start_line,
            ) && final(self).dirty(),
            final(self).candidates_view() == old(self).candidates_view(),
            final(self).runs() == old(self).runs(),
            final(self).projected_count() == old(self).projected_count(),
            final(self).cached_count() == old(self).cached_count(),
            old(self).wf() ==> final(self).wf(),
    {
        if folded {
            let found = first_candidate(&self.candidates, start_line);
            if let Some(ix) = found {
                if !has_candidate(&self.folded, start_line) {
                    let candidate = self.candidates[ix];
                    let mut with = self.folded.clone();
                    assert(with@ == self.folded@);
                    with.push(candidate);
                    self.folded = sort_folds_by_start(&with);
                    self.needs_rebuild = true;
                }
            }
        } else {
            let ghost pred = |f: FoldRange| f.start_line != start_line;
            let mut kept: Vec<FoldRange> = Vec::new();
            let n = self.folded.len();
            let mut i: usize = 0;
            while i < n
                invariant
                    n == self.folded@.len(),
                    i <= n,
                    pred == (|f: FoldRange| f.start_line != start_line),
                    kept@ == self.folded@.take(i as int).filter(pred),
                decreases n - i,
            {
                let f = self.folded[i];
                if f.start_line != start_line {
                    kept.push(f);
                }
                proof {
                    lemma_filter_take_step(self.folded@, i as int, pred);
                }
                i = i + 1;
            }
            assert(self.folded@.take(n as int) == self.folded@);
            self.folded = kept;
            self.needs_rebuild = true;
        }
    }

    /// Toggle the fold starting on `start_line`.
    pub fn toggle_fold(&mut self, start_line: usize)
        ensures
            has_start(old(self).folded_view(), start_line) ==> final(self).folded_view() == old(
                self,
            ).folded_view().filter(|f: FoldRange| f.start_line != start_line) && final(self).dirty(),
            !has_start(old(self).folded_view(), start_line) ==> (if has_start(
                old(self).candidates_view(),
                start_line,
            ) {
                &&& final(self).folded_view() == sort_by_start(
                    old(self).folded_view().push(
                        old(self).candidates_view()[first_start(old(self).candidates_view(), start_line)],
                    ),
                )
                &&& final(self).dirty()
            } else {
                &&& final(self).folded_view() == old(self).folded_view()
                &&& final(self).dirty() == old(self).dirty()
            }),
            final(self).candidates_view() == old(self).candidates_view(),
            final(self).runs() == old(self).runs(),
            final(self).projected_count() == old(self).projected_count(),
            final(self).cached_count() == old(self).cached_count(),
            old(self).wf() ==> final(self).wf(),
    {
        let is_folded = self.is_folded_at(start_line);
        self.set_folded(start_line, !is_folded);
    }

    /// Whether a fold starts on `start_line`.
    pub fn is_folded_at(&self, start_line: usize) -> (r: bool)
        ensures
            r == has_start(self.folded_view(), start_line),
    {
        has_candidate(&self.folded, start_line)
    }

    /// Whether a fold candidate starts on `start_line`.
    pub fn is_fold_candidate(&self, start_line: usize) -> (r: bool)
        ensures
            r == has_start(self.candidates_view(), start_line),
    {
        has_candidate(&self.candidates, start_line)
    }

    /// All fold candidates.
    pub fn fold_candidates(&self) -> (r: &[FoldRange])
        ensures
            r@ == self.candidates_view(),
    {
        self.candidates.as_slice()
    }

    /// All folded ranges.
    pub fn folded_ranges(&self) -> (r: &[FoldRange])
        ensures
            r@ == self.folded_view(),
    {
        self.folded.as_slice()
    }

    /// Unfold everything (the projection is rebuilt on the next rebuild).
    pub fn clear_folds(&mut self)
        ensures
            final(self).folded_view().len() == 0,
            final(self).candidates_view() == old(self).candidates_view(),
            final(self).runs() == old(self).runs(),
            final(self).projected_count() == old(self).projected_count(),
            final(self).cached_count() == old(self).cached_count(),
            final(self).dirty() == old(self).dirty(),
            old(self).wf() ==> final(self).wf(),
    {
        self.folded.clear();
    }

    /// Adjust folds and candidates after an edit of lines
    /// `edit_start_line..=edit_end_line` that changed the line count by
    /// `line_delta`: those overlapping the edit are dropped, those after it
    /// move by the delta (never below line zero).
    pub fn adjust_folds_for_edit(
        &mut self,
        edit_start_line: usize,
        edit_end_line: usize,
        line_delta: isize,
    )
        requires
            forall|i: int| 0 <= i < old(self).folded_view().len() ==> shift_fits(
                #[trigger] old(self).folded_view()[i],
                edit_start_line,
                edit_end_line,
                line_delta,
            ),
            forall|i: int| 0 <= i < old(self).candidates_view().len() ==> shift_fits(
                #[trigger] old(self).candidates_view()[i],
                edit_start_line,
                edit_end_line,
                line_delta,
            ),
        ensures
            final(self).folded_view() == adjusted(old(self).folded_view(), edit_start_line, edit_end_line, line_delta),
            final(self).candidates_view() == adjusted(old(self).candidates_view(), edit_start_line, edit_end_line, line_delta),
            final(self).dirty(),
            final(self).runs() == old(self).runs(),
            final(self).projected_count() == old(self).projected_count(),
            final(self).cached_count() == old(self).cached_count(),
            old(self).wf() ==> final(self).wf(),
    {
        assert forall|i: int| 0 <= i < self.folded@.len() implies shift_fits(#[trigger] self.folded@[i], edit_start_line, edit_end_line, line_delta) by {
            assert(shift_fits(old(self).folded_view()[i], edit_start_line, edit_end_line, line_delta));
        }
        assert forall|i: int| 0 <= i < self.candidates@.len() implies shift_fits(#[trigger] self.candidates@[i], edit_start_line, edit_end_line, line_delta) by {
            assert(shift_fits(old(self).candidates_view()[i], edit_start_line, edit_end_line, line_delta));
        }
        self.folded = adjust_ranges(&self.folded, edit_start_line, edit_end_line, line_delta);
        self.candidates = adjust_ranges(&self.candidates, edit_start_line, edit_end_line, line_delta);
        self.needs_rebuild = true;
    }

    /// Rebuild the projection after the wrap map or the folds changed; a
    /// clean map whose wrap row count did not change is left alone.
    pub fn rebuild(&mut self, wrap_map: &WrapMap)
        requires
            old(self).wf(),
            wrap_map.wf(),
            forall|i: int| 0 <= i < old(self).folded_view().len() ==> (#[trigger] old(self).folded_view()[i]).start_line < usize::MAX,
        ensures
            final(self).wf(),
            final(self).candidates_view() == old(self).candidates_view(),
            final(self).folded_view() == old(self).folded_view(),
            (!old(self).dirty() && wrap_map.row_count() == old(self).cached_count()) ==> *final(self) == *old(self),
            (old(self).dirty() || wrap_map.row_count() != old(self).cached_count()) ==> {
                &&& !final(self).dirty()
                &&& final(self).cached_count() == wrap_map.row_count()
                &&& final(self).projected_count() == wrap_map.row_count()
                &&& forall|w: int| #[trigger] final(self).is_hidden(w) <==> (w < wrap_map.row_count()
                    && folds_hide(old(self).folded_view(), *wrap_map, w))
            },
    {
        let wrap_row_count = wrap_map.wrap_row_count();
        if !self.needs_rebuild && wrap_row_count == self.cached_wrap_row_count {
            return;
        }
        self.cached_wrap_row_count = wrap_row_count;
        let mut ranges: Vec<Range<usize>> = Vec::new();
        let n = self.folded.len();
        let mut i: usize = 0;
        let ghost folds = self.folded@;
        assert forall|k: int| 0 <= k < folds.len() implies (#[trigger] folds[k]).start_line < usize::MAX by {
            assert(old(self).folded_view()[k].start_line < usize::MAX);
        }
        while i < n
            invariant
                n == folds.len(),
                folds == self.folded@,
                i <= n,
                wrap_map.wf(),
                wrap_row_count == wrap_map.row_count(),
                forall|k: int| 0 <= k < folds.len() ==> (#[trigger] folds[k]).start_line < usize::MAX,
                forall|w: int| #[trigger] in_ranges(ranges@, w) <==> folds_hide(folds.take(i as int), *wrap_map, w),
            decreases n - i,
        {
            let fold = self.folded[i];
            let ghost t = folds.take(i as int + 1);
            proof {
                assert(t.drop_last() == folds.take(i as int));
                assert(t[i as int] == fold);
                assert(fold.start_line < usize::MAX);
            }
            let hide_start_line = fold.start_line + 1;
            let hide_end_line = if fold.end_line >= 1 { fold.end_line - 1 } else { 0 };
            let ghost old_ranges = ranges@;
            if hide_start_line <= hide_end_line {
                let start_wrap_row = wrap_map.buffer_line_to_first_wrap_row(hide_start_line);
                let end_wrap_row = if hide_end_line + 1 < wrap_map.buffer_line_count() {
                    wrap_map.buffer_line_to_first_wrap_row(hide_end_line + 1)
                } else {
                    wrap_row_count
                };
                if start_wrap_row < end_wrap_row {
                    ranges.push(start_wrap_row..end_wrap_row);
                }
            }
            proof {
                assert forall|w: int| #[trigger] in_ranges(ranges@, w) <==> folds_hide(t, *wrap_map, w) by {
                    if in_ranges(ranges@, w) {
                        let k = choose|k: int| 0 <= k < ranges@.len() && #[trigger] ranges@[k].start <= w < ranges@[k].end;
                        if k < old_ranges.len() {
                            assert(old_ranges[k] == ranges@[k]);
                            assert(in_ranges(old_ranges, w));
                            let j = choose|j: int| 0 <= j < i && #[trigger] fold_rows(folds.take(i as int)[j], *wrap_map).0 <= w < fold_rows(folds.take(i as int)[j], *wrap_map).1;
                            assert(t[j] == folds.take(i as int)[j]);
                        } else {
                            assert(fold_rows(t[i as int], *wrap_map).0 <= w < fold_rows(t[i as int], *wrap_map).1);
                        }
                    }
                    if folds_hide(t, *wrap_map, w) {
                        let j = choose|j: int| 0 <= j < t.len() && #[trigger] fold_rows(t[j], *wrap_map).0 <= w < fold_rows(t[j], *wrap_map).1;
                        if j < i {
                            assert(t[j] == folds.take(i as int)[j]);
                            assert(folds_hide(folds.take(i as int), *wrap_map, w));
                            assert(in_ranges(old_ranges, w));
                            let k = choose|k: int| 0 <= k < old_ranges.len() && #[trigger] old_ranges[k].start <= w < old_ranges[k].end;
                            assert(ranges@[k] == old_ranges[k]);
                        } else {
                            assert(ranges@[ranges@.len() - 1].start <= w < ranges@[ranges@.len() - 1].end);
                        }
                    }
                }
            }
            i = i + 1;
        }
        assert(folds.take(n as int) == folds);
        let ghost rs = ranges@;
        self.set_hidden_rows(wrap_row_count, ranges);
        assert forall|w: int| #[trigger] in_runs(self.hidden@, w) <==> (w < wrap_map.row_count()
            && folds_hide(folds, *wrap_map, w)) by {
            assert(in_ranges(rs, w) <==> folds_hide(folds.take(n as int), *wrap_map, w));
            assert(self.is_hidden(w) <==> (w < wrap_row_count && in_ranges(rs, w)));
        }
        self.needs_rebuild = false;
    }

    /// The display row nearest to a wrap row: its own when shown, else the
    /// last shown row before it.
    pub fn nearest_visible_display_row(&self, wrap_row: usize) -> (r: usize)
        requires
            self.wf(),
        ensures
            self.folded_view().len() == 0 ==> r == (if wrap_row < self.cached_count() {
                wrap_row as int
            } else if self.cached_count() > 0 {
                self.cached_count() - 1
            } else {
                0
            }),
            self.folded_view().len() != 0 ==> r == (if self.is_shown(wrap_row as int) {
                self.display_of(wrap_row as int)
            } else {
                let below = if wrap_row < self.projected_count() {
                    self.display_of(wrap_row as int)
                } else {
                    self.projected_display_count()
                };
                if below > 0 {
                    below - 1
                } else {
                    0
                }
            }),
    {
        if self.folded.len() == 0 {
            let last = if self.cached_wrap_row_count > 0 {
                self.cached_wrap_row_count - 1
            } else {
                0
            };
            return if wrap_row < last {
                wrap_row
            } else {
                last
            };
        }
        if let Some(dr) = self.wrap_row_to_display_row(wrap_row) {
            return dr;
        }
        proof {
            self.lemma_total();
        }
        let visible_before = if wrap_row >= self.projected_wrap_row_count {
            self.display_row_count()
        } else {
            let index = self.runs_ending_by(wrap_row);
            let ghost rs = self.hidden@;
            if index < self.hidden.len() {
                proof {
                    let c = self.projected_wrap_row_count as int;
                    // the row is hidden, so it lies in the run at `index`
                    let k = choose|k: int| 0 <= k < rs.len() && #[trigger] rs[k].start <= wrap_row
                        < rs[k].end;
                    if k < index {
                        assert(rs[k].end <= wrap_row);
                    }
                    if k > index {
                        assert(rs[index as int].end < rs[k].start);
                    }
                    assert(k == index);
                    lemma_hidden_below_inside(rs, rs.len() as int, k, wrap_row as int, c);
                    lemma_prefix_hidden_bound(rs, k + 1, c);
                    lemma_prefix_hidden_mono(rs, k, k + 1);
                }
                self.hidden[index].display_start()
            } else {
                proof {
                    let k = choose|k: int| 0 <= k < rs.len() && #[trigger] rs[k].start <= wrap_row
                        < rs[k].end;
                    assert(rs[k].end <= wrap_row);
                }
                self.display_row_count()
            }
        };
        if visible_before > 0 {
            visible_before - 1
        } else {
            0
        }
    }
}

proof fn lemma_display_start_mono(rs: Seq<HiddenRows>, j: int, k: int, count: int)
    requires
        runs_wf(rs, count),
        0 <= j < k < rs.len(),
    ensures
        rs[j].start - rs[j].hidden_before < rs[k].start - rs[k].hidden_before,
    decreases k - j,
{
    if k - 1 > j {
        lemma_display_start_mono(rs, j, k - 1, count);
    }
    assert(rs[k - 1].end < rs[k].start);
    assert(prefix_hidden(rs, k) == prefix_hidden(rs, k - 1) + run_len(rs[k - 1]));
}


proof fn lemma_hidden_below_step(rs: Seq<HiddenRows>, n: int, w: int, count: int)
    requires
        runs_wf(rs, count),
        0 <= n <= rs.len(),
    ensures
        hidden_below(rs, n, w + 1) == hidden_below(rs, n, w) + (if exists|k: int|
            0 <= k < n && #[trigger] rs[k].start <= w < rs[k].end {
            1int
        } else {
            0int
        }),
    decreases n,
{
    if n > 0 {
        lemma_hidden_below_step(rs, n - 1, w, count);
        let r = rs[n - 1];
        if r.start <= w < r.end {
            assert forall|k: int| 0 <= k < n - 1 implies !(#[trigger] rs[k].start <= w < rs[k].end) by {
                assert(rs[k].end < rs[n - 1].start);
            }
        }
        if exists|k: int| 0 <= k < n - 1 && #[trigger] rs[k].start <= w < rs[k].end {
            let k = choose|k: int| 0 <= k < n - 1 && #[trigger] rs[k].start <= w < rs[k].end;
            assert(rs[k].end < rs[n - 1].start);
        }
    }
}

proof fn lemma_visible_below_mono(rs: Seq<HiddenRows>, a: int, b: int, count: int)
    requires
        runs_wf(rs, count),
        a <= b,
    ensures
        visible_below(rs, a) <= visible_below(rs, b),
        a < b && !in_runs(rs, a) ==> visible_below(rs, a) < visible_below(rs, b),
    decreases b - a,
{
    if a < b {
        lemma_visible_below_mono(rs, a + 1, b, count);
        lemma_hidden_below_step(rs, rs.len() as int, a, count);
    }
}

impl FoldMap {
    /// The projection is a bijection between the shown wrap rows and the
    /// display rows: shown rows keep their order, map below the display row
    /// count, and every display row below it comes from a shown row.
    pub proof fn lemma_projection_bijection(self, a: int, b: int)
        requires
            self.wf(),
        ensures
            self.is_shown(a) && self.is_shown(b) && a < b ==> self.display_of(a) < self.display_of(b),
            self.is_shown(a) ==> 0 <= self.display_of(a) < self.projected_display_count(),
    {
        let rs = self.hidden@;
        let c = self.projected_wrap_row_count as int;
        if self.is_shown(a) && self.is_shown(b) && a < b {
            lemma_visible_below_mono(rs, a, b, c);
        }
        if self.is_shown(a) {
            lemma_visible_below_mono(rs, a, c, c);
            lemma_visible_below_mono(rs, 0, a, c);
            assert(hidden_below(rs, rs.len() as int, 0) == 0) by {
                lemma_hidden_below_split(rs, rs.len() as int, 0, 0);
            }
        }
    }

    /// The hidden runs are well formed for the rows they were built for:
    /// non-empty, within the rows, sorted with gaps between them, and each
    /// knows how many rows the runs before it hide.
    pub proof fn lemma_runs_wf(self)
        requires
            self.wf(),
        ensures
            runs_wf(self.runs(), self.projected_count()),
    {
    }

    /// The display row of a wrap row within the projection is the number of
    /// shown wrap rows below it, so the display rows number the shown rows
    /// in order; and there are as many display rows as shown rows.
    pub proof fn lemma_display_counts_shown(self, w: int)
        requires
            self.wf(),
            0 <= w <= self.projected_count(),
        ensures
            self.display_of(w) == self.shown_below(w),
            self.projected_display_count() == self.shown_below(self.projected_count()),
    {
        self.lemma_display_below(w);
        self.lemma_display_below(self.projected_count());
    }

    proof fn lemma_display_below(self, w: int)
        requires
            self.wf(),
            0 <= w <= self.projected_count(),
        ensures
            self.display_of(w) == self.shown_below(w),
        decreases w,
    {
        let rs = self.hidden@;
        let c = self.projected_wrap_row_count as int;
        if w > 0 {
            self.lemma_display_below(w - 1);
            lemma_hidden_below_step(rs, rs.len() as int, w - 1, c);
            assert(self.is_hidden(w - 1) == exists|k: int| 0 <= k < rs.len() && #[trigger] rs[k].start <= w - 1 < rs[k].end);
        } else {
            assert(hidden_below(rs, rs.len() as int, 0) == 0) by {
                lemma_hidden_below_split(rs, rs.len() as int, 0, 0);
            }
        }
    }
}


/// Whether an edit of lines ending at `ee` that changed the line count by
/// `delta` took range `f` to `g`: a range starting in or before the edit,
/// or any range when the count did not change, stays as it is; a range
/// after the edit moves by `delta`, its start and its end alike, neither
/// going below line zero (lines past the machine's range are left out).
pub open spec fn moved_range(f: FoldRange, g: FoldRange, ee: usize, delta: isize) -> bool {
    &&& (f.start_line <= ee || delta == 0) ==> g == f
    &&& (f.start_line > ee && delta != 0) ==> {
        &&& (0 <= f.start_line + delta <= usize::MAX ==> g.start_line == f.start_line + delta)
        &&& (f.start_line + delta < 0 ==> g.start_line == 0)
        &&& (0 <= f.end_line + delta <= usize::MAX ==> g.end_line == f.end_line + delta)
        &&& (f.end_line + delta < 0 ==> g.end_line == 0)
    }
}

/// Adjusting ranges for an edit of lines `es..=ee` that changed the line
/// count by `delta` keeps, in order, exactly the ranges that do not
/// overlap the edited lines, each moved as `moved_range` says: a range
/// after the edit keeps its length (unless pushed against line zero), and
/// no range comes out ending before it starts.
pub proof fn lemma_adjust_moves(s: Seq<FoldRange>, es: usize, ee: usize, delta: isize)
    ensures
        ({
            let kept = s.filter(|f: FoldRange| !(f.start_line <= ee && f.end_line >= es));
            let r = adjusted(s, es, ee, delta);
            &&& r.len() == kept.len()
            &&& forall|i: int| 0 <= i < r.len() ==> moved_range(kept[i], #[trigger] r[i], ee, delta)
            &&& forall|i: int|
                0 <= i < r.len() && kept[i].start_line <= kept[i].end_line && kept[i].end_line + delta <= usize::MAX
                    ==> #[trigger] r[i].start_line <= r[i].end_line
            &&& forall|i: int|
                0 <= i < r.len() && kept[i].start_line <= kept[i].end_line && kept[i].start_line + delta >= 0
                    && kept[i].end_line + delta <= usize::MAX
                    ==> #[trigger] r[i].end_line - r[i].start_line == kept[i].end_line - kept[i].start_line
        }),
{
    let p1 = |f: FoldRange| survives_edit(f, es, ee);
    let p2 = |f: FoldRange| !(f.start_line <= ee && f.end_line >= es);
    assert(p1 =~= p2);
    let kept = s.filter(p2);
    let r = adjusted(s, es, ee, delta);
    assert(r == kept.map_values(|f: FoldRange| shifted(f, ee, delta)));
    assert forall|i: int| 0 <= i < r.len() implies moved_range(kept[i], #[trigger] r[i], ee, delta) by {
        assert(r[i] == shifted(kept[i], ee, delta));
    }
    assert forall|i: int|
        0 <= i < r.len() && kept[i].start_line <= kept[i].end_line && kept[i].end_line + delta <= usize::MAX
            implies #[trigger] r[i].start_line <= r[i].end_line by {
        assert(moved_range(kept[i], r[i], ee, delta));
    }
    assert forall|i: int|
        0 <= i < r.len() && kept[i].start_line <= kept[i].end_line && kept[i].start_line + delta >= 0
            && kept[i].end_line + delta <= usize::MAX implies #[trigger] r[i].end_line - r[i].start_line == kept[i].end_line - kept[i].start_line by {
        assert(moved_range(kept[i], r[i], ee, delta));
    }
    assert(kept == s.filter(|f: FoldRange| !(f.start_line <= ee && f.end_line >= es)));
}

} // verus!
