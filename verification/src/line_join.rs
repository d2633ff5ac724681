//! Texts written as lines: joining them with line breaks, where each line
//! then stands, and indenting all lines but the first.

use vstd::prelude::*;
use vstd::utf8::*;
use crate::markdown::{next_break, indent_from, lemma_ascii_valid};

verus! {

/// Lines joined with a line break between two.
pub open spec fn join(ts: Seq<Seq<u8>>) -> Seq<u8>
    decreases ts.len(),
{
    if ts.len() == 0 {
        seq![]
    } else if ts.len() == 1 {
        ts[0]
    } else {
        join(ts.drop_last()) + seq![10u8] + ts.last()
    }
}

/// Whether `t` holds no line break.
pub open spec fn one_line(t: Seq<u8>) -> bool {
    forall|i: int| 0 <= i < t.len() ==> #[trigger] t[i] != 10u8
}

/// Every text is one line of valid UTF-8.
pub open spec fn lines_ok(ts: Seq<Seq<u8>>) -> bool {
    forall|y: int| 0 <= y < ts.len() ==> one_line(#[trigger] ts[y]) && valid_utf8(ts[y])
}

/// Where line `y` starts in the joined text.
pub open spec fn line_start(ts: Seq<Seq<u8>>, y: int) -> int {
    if y == 0 {
        0
    } else {
        join(ts.take(y)).len() + 1int
    }
}

/// Where line `y` ends in the joined text.
pub open spec fn line_end(ts: Seq<Seq<u8>>, y: int) -> int {
    join(ts.take(y + 1)).len() as int
}

/// Each line but the first with `pre` before it.
pub open spec fn indent_tail(ts: Seq<Seq<u8>>, pre: Seq<u8>) -> Seq<Seq<u8>> {
    Seq::new(ts.len(), |y: int| if y == 0 { ts[0] } else { pre + ts[y] })
}

/// Each line with `pre` before it.
pub open spec fn indent_all(ts: Seq<Seq<u8>>, pre: Seq<u8>) -> Seq<Seq<u8>> {
    Seq::new(ts.len(), |y: int| pre + ts[y])
}

pub proof fn lemma_join_step(ts: Seq<Seq<u8>>, j: int)
    requires
        0 <= j < ts.len(),
    ensures
        join(ts.take(j + 1)) == (if j == 0 {
            Seq::<u8>::empty()
        } else {
            join(ts.take(j)) + seq![10u8]
        }) + ts[j],
        line_end(ts, j) == line_start(ts, j) + ts[j].len(),
{
    let t = ts.take(j + 1);
    if j == 0 {
        assert(t.len() == 1);
        assert(Seq::<u8>::empty() + ts[0] == ts[0]);
    } else {
        assert(t.drop_last() == ts.take(j));
        assert(t.last() == ts[j]);
    }
}

proof fn lemma_join_prefix(ts: Seq<Seq<u8>>, j: int, m: int)
    requires
        1 <= j <= m <= ts.len(),
    ensures
        join(ts.take(j)).len() <= join(ts.take(m)).len(),
        forall|i: int| 0 <= i < join(ts.take(j)).len() ==> #[trigger] join(ts.take(m))[i] == join(ts.take(j))[i],
        j < m ==> join(ts.take(j)).len() + 1 <= join(ts.take(m)).len(),
        j < m ==> join(ts.take(m))[join(ts.take(j)).len() as int] == 10u8,
    decreases m - j,
{
    if j < m {
        lemma_join_prefix(ts, j, m - 1);
        lemma_join_step(ts, m - 1);
        let a = join(ts.take(m - 1));
        let b = join(ts.take(m));
        assert(b == a + seq![10u8] + ts[m - 1]);
        if j < m - 1 {
            assert(b[join(ts.take(j)).len() as int] == a[join(ts.take(j)).len() as int]);
        }
        assert forall|i: int| 0 <= i < join(ts.take(j)).len() implies #[trigger] b[i] == join(ts.take(j))[i] by {
            assert(b[i] == a[i]);
        }
    }
}

/// Line `j` stands at `line_start..line_end` of the joined text, with a
/// line break after it unless it is the last.
pub proof fn lemma_join_layout(ts: Seq<Seq<u8>>, j: int)
    requires
        0 <= j < ts.len(),
    ensures
        0 <= line_start(ts, j) <= line_end(ts, j) <= join(ts).len(),
        join(ts).subrange(line_start(ts, j), line_end(ts, j)) == ts[j],
        j + 1 < ts.len() ==> line_end(ts, j) + 1 <= join(ts).len() && join(ts)[line_end(ts, j)] == 10u8
            && line_start(ts, j + 1) == line_end(ts, j) + 1,
        j + 1 == ts.len() ==> line_end(ts, j) == join(ts).len(),
{
    let k = ts.len() as int;
    assert(ts.take(k) == ts);
    lemma_join_step(ts, j);
    lemma_join_prefix(ts, j + 1, k);
    let w = join(ts.take(j + 1));
    let src = join(ts);
    assert forall|i: int| 0 <= i < ts[j].len() implies src.subrange(line_start(ts, j), line_end(ts, j))[i]
        == ts[j][i] by {
        assert(src[line_start(ts, j) + i] == w[line_start(ts, j) + i]);
    }
    assert(src.subrange(line_start(ts, j), line_end(ts, j)) =~= ts[j]);
}

/// Joined lines of valid UTF-8 are valid UTF-8.
pub proof fn lemma_join_valid(ts: Seq<Seq<u8>>, m: int)
    requires
        lines_ok(ts),
        1 <= m <= ts.len(),
    ensures
        valid_utf8(join(ts.take(m))),
    decreases m,
{
    lemma_join_step(ts, m - 1);
    let t = ts[m - 1];
    assert(valid_utf8(t));
    if m > 1 {
        lemma_join_valid(ts, m - 1);
        lemma_ascii_valid(seq![10u8]);
        valid_utf8_concat(join(ts.take(m - 1)), seq![10u8]);
        valid_utf8_concat(join(ts.take(m - 1)) + seq![10u8], t);
    } else {
        assert(Seq::<u8>::empty() + t == t);
    }
}

/// Adding a line after others adds a line break and the line.
pub proof fn lemma_join_push(ts: Seq<Seq<u8>>, t: Seq<u8>)
    requires
        ts.len() >= 1,
    ensures
        join(ts.push(t)) == join(ts) + seq![10u8] + t,
{
    assert(ts.push(t).drop_last() == ts);
}

/// Joining two runs of lines puts a line break between their texts.
pub proof fn lemma_join_concat(a: Seq<Seq<u8>>, b: Seq<Seq<u8>>)
    requires
        a.len() >= 1,
        b.len() >= 1,
    ensures
        join(a + b) == join(a) + seq![10u8] + join(b),
    decreases b.len(),
{
    if b.len() == 1 {
        assert(a + b == a.push(b[0]));
        lemma_join_push(a, b[0]);
    } else {
        let f = b.drop_last();
        lemma_join_concat(a, f);
        assert(a + b == (a + f).push(b.last()));
        lemma_join_push(a + f, b.last());
        assert(join(b) == join(f) + seq![10u8] + b.last());
        assert(join(a + b) =~= join(a) + seq![10u8] + join(b));
    }
}

/// `next_break` stays in `i..=b.len()`.
pub proof fn lemma_next_break_bounds(b: Seq<u8>, i: int)
    requires
        0 <= i <= b.len(),
    ensures
        i <= next_break(b, i) <= b.len(),
        next_break(b, i) < b.len() ==> b[next_break(b, i)] == 10u8,
        forall|q: int| i <= q < next_break(b, i) ==> #[trigger] b[q] != 10u8,
    decreases b.len() - i,
{
    if i < b.len() && b[i] != 10u8 {
        lemma_next_break_bounds(b, i + 1);
    }
}

/// A line break after `x` ends its last line.
proof fn lemma_next_break_join(x: Seq<u8>, u: Seq<u8>, i: int)
    requires
        0 <= i <= x.len(),
    ensures
        next_break(x + seq![10u8] + u, i) == next_break(x, i),
    decreases x.len() - i,
{
    let b = x + seq![10u8] + u;
    if i < x.len() {
        assert(b[i] == x[i]);
        if x[i] != 10u8 {
            lemma_next_break_join(x, u, i + 1);
        }
    } else {
        assert(b[i] == 10u8);
    }
}

/// Text without line breaks from `k` on is indented as it is.
pub proof fn lemma_indent_rest(b: Seq<u8>, pre: Seq<u8>, k: int)
    requires
        0 <= k <= b.len(),
        forall|q: int| k <= q < b.len() ==> #[trigger] b[q] != 10u8,
    ensures
        next_break(b, k) == b.len(),
        indent_from(b, pre, k) == b.subrange(k, b.len() as int),
    decreases b.len() - k,
{
    if k < b.len() {
        lemma_indent_rest(b, pre, k + 1);
    }
}

/// Indenting `x`, a line break and one more line `u` indents `x`, then
/// puts `pre` before `u`.
proof fn lemma_indent_join(x: Seq<u8>, u: Seq<u8>, pre: Seq<u8>, i: int)
    requires
        0 <= i <= x.len(),
        one_line(u),
    ensures
        indent_from(x + seq![10u8] + u, pre, i) == indent_from(x, pre, i) + seq![10u8] + pre + u,
    decreases x.len() - i,
{
    let b = x + seq![10u8] + u;
    lemma_next_break_join(x, u, i);
    lemma_next_break_bounds(x, i);
    let j = next_break(x, i);
    let k: int = x.len() + 1int;
    assert forall|q: int| k <= q < b.len() implies #[trigger] b[q] != 10u8 by {
        assert(b[q] == u[q - k]);
    }
    lemma_indent_rest(b, pre, k);
    assert(b.subrange(k, b.len() as int) =~= u);
    if j < x.len() {
        lemma_indent_join(x, u, pre, j + 1);
        assert(b.subrange(i, j) =~= x.subrange(i, j));
        assert(indent_from(b, pre, i) == b.subrange(i, j) + seq![10u8] + pre + indent_from(b, pre, j + 1));
        assert(indent_from(x, pre, i) == x.subrange(i, j) + seq![10u8] + pre + indent_from(x, pre, j + 1));
        assert(indent_from(b, pre, i) =~= indent_from(x, pre, i) + seq![10u8] + pre + u);
    } else if i < x.len() {
        assert(b.subrange(i, j) =~= x.subrange(i, j));
        assert(indent_from(x, pre, i) == x.subrange(i, x.len() as int));
        assert(indent_from(b, pre, i) =~= indent_from(x, pre, i) + seq![10u8] + pre + u);
    } else {
        assert(indent_from(x, pre, i) == Seq::<u8>::empty());
        assert(indent_from(b, pre, i) =~= indent_from(x, pre, i) + seq![10u8] + pre + u);
    }
}

/// Indenting joined lines puts `pre` before each line but the first.
pub proof fn lemma_indent_lines(ts: Seq<Seq<u8>>, pre: Seq<u8>)
    requires
        ts.len() >= 1,
        forall|y: int| 0 <= y < ts.len() ==> one_line(#[trigger] ts[y]),
    ensures
        indent_from(join(ts), pre, 0) == join(indent_tail(ts, pre)),
    decreases ts.len(),
{
    if ts.len() == 1 {
        assert(one_line(ts[0]));
        lemma_indent_rest(ts[0], pre, 0);
        assert(ts[0].subrange(0, ts[0].len() as int) =~= ts[0]);
        assert(indent_tail(ts, pre).len() == 1);
    } else {
        let f = ts.drop_last();
        assert forall|y: int| 0 <= y < f.len() implies one_line(#[trigger] f[y]) by {
            assert(f[y] == ts[y]);
        }
        lemma_indent_lines(f, pre);
        assert(one_line(ts.last()));
        lemma_indent_join(join(f), ts.last(), pre, 0);
        assert(indent_tail(ts, pre) =~= indent_tail(f, pre).push(pre + ts.last()));
        lemma_join_push(indent_tail(f, pre), pre + ts.last());
        assert(join(indent_tail(ts, pre)) =~= join(indent_tail(f, pre)) + seq![10u8] + pre + ts.last());
    }
}

} // verus!
