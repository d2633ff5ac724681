//! Highlights over rendered text: which text leaves a range of the rendered
//! text paints, and why setting highlights was rejected.
//!
//! A range addresses the rendered text in UTF-8 byte offsets. It is split
//! into the text leaves it covers, each piece in the leaf's own offsets;
//! the text outside every leaf and the inline objects inside a leaf are
//! left unpainted.

use std::ops::Range;
use vstd::prelude::*;
use vstd::utf8::*;
use vstd::string::*;

verus! {

/// Why setting range highlights was rejected. Existing highlights stay
/// unchanged.
#[derive(Clone, Copy, Debug, Eq, PartialEq, Structural)]
#[non_exhaustive]
pub enum RangeHighlightError {
    /// The view renders HTML, which records no source positions to address
    /// its text by.
    Unsupported,
    /// The highlight at this index is reversed, out of bounds, or not on a
    /// character boundary.
    InvalidRange(usize),
}

/// Where a text leaf sits in the rendered text.
pub struct LeafSpan<K> {
    /// Where the leaf's text sits in the rendered text.
    pub range: Range<usize>,
    /// The key the leaf paints its highlights under.
    pub key: K,
    /// Inline objects in the leaf's text, in leaf offsets and in order.
    /// They paint as objects rather than as text, so no highlight paints
    /// them.
    pub objects: Vec<Range<usize>>,
}

/// The rendered text and where each text leaf sits in it.
pub struct RenderedIndex<K> {
    pub text: String,
    /// In document order, so by their position in `text`.
    pub leaves: Vec<LeafSpan<K>>,
}

/// The leaves lie in order in the text: each one's range is forward and
/// ends where or before the next one starts.
pub open spec fn leaves_ordered<K>(leaves: Seq<LeafSpan<K>>) -> bool {
    &&& forall|i: int| 0 <= i < leaves.len() ==> (#[trigger] leaves[i]).range.start <= leaves[i].range.end
    &&& forall|i: int, j: int| 0 <= i < j < leaves.len() ==> (#[trigger] leaves[i]).range.end <= (
    #[trigger] leaves[j]).range.start
}

/// Whether `start..end` is a range of the text `bytes`: forward, inside it,
/// and on character boundaries.
pub open spec fn text_range(bytes: Seq<u8>, start: int, end: int) -> bool {
    &&& 0 <= start <= end <= bytes.len()
    &&& is_char_boundary(bytes, start)
    &&& is_char_boundary(bytes, end)
}

/// A piece from `cursor` to `end`, when that is not empty.
pub open spec fn rest_piece(cursor: int, end: int) -> Seq<Range<usize>> {
    if cursor < end {
        seq![Range { start: cursor as usize, end: end as usize }]
    } else {
        seq![]
    }
}

/// The pieces of `cursor..end` left between the objects from the `k`-th
/// on: an object that starts at or past the end stops the walk; one that
/// ends at or before the cursor is passed over; any other ends the piece
/// before it and moves the cursor past it.
pub open spec fn pieces_between(objects: Seq<Range<usize>>, k: int, cursor: int, end: int) -> Seq<Range<usize>>
    decreases objects.len() - k,
{
    if 0 <= k < objects.len() {
        let o = objects[k];
        if o.start >= end {
            rest_piece(cursor, end)
        } else if o.end <= cursor {
            pieces_between(objects, k + 1, cursor, end)
        } else {
            let before = if o.start > cursor {
                seq![Range { start: cursor as usize, end: o.start }]
            } else {
                seq![]
            };
            before + pieces_between(objects, k + 1, o.end as int, end)
        }
    } else {
        rest_piece(cursor, end)
    }
}

/// The pieces of `leaf` that the rendered range `start..end` paints, under
/// the leaf's key and in leaf offsets: none when the two do not overlap.
pub open spec fn leaf_pieces<K>(leaf: LeafSpan<K>, start: int, end: int) -> Seq<(K, Range<usize>)> {
    if leaf.range.start < end && start < leaf.range.end {
        let lo = if start > leaf.range.start { start } else { leaf.range.start as int };
        let hi = if end < leaf.range.end { end } else { leaf.range.end as int };
        pieces_between(leaf.objects@, 0, lo - leaf.range.start, hi - leaf.range.start).map_values(
            |r: Range<usize>| (leaf.key, r),
        )
    } else {
        seq![]
    }
}

/// The pieces that `start..end` paints of the leaves from the `i`-th on,
/// leaf after leaf.
pub open spec fn pieces_from<K>(leaves: Seq<LeafSpan<K>>, i: int, start: int, end: int) -> Seq<(K, Range<usize>)>
    decreases leaves.len() - i,
{
    if 0 <= i < leaves.len() {
        leaf_pieces(leaves[i], start, end) + pieces_from(leaves, i + 1, start, end)
    } else {
        seq![]
    }
}

impl<K: Copy> RenderedIndex<K> {
    /// The leaves lie in order in the text.
    pub open spec fn wf(&self) -> bool {
        leaves_ordered(self.leaves@)
    }

    /// The leaf pieces that `range` paints, which are none when it covers
    /// no leaf text, or `None` when it is not a range of the text.
    pub fn resolve(&self, range: &Range<usize>) -> (r: Option<Vec<(K, Range<usize>)>>)
        requires
            self.wf(),
        ensures
            r is Some <==> text_range(encode_utf8(self.text@), range.start as int, range.end as int),
            r matches Some(v) ==> v@ == pieces_from(self.leaves@, 0, range.start as int, range.end as int),
    {
        let text = self.text.as_str();
        let len = text.as_bytes().len();
        if range.start > range.end || range.end > len || !text.is_char_boundary(range.start)
            || !text.is_char_boundary(range.end) {
            return None;
        }
        let first = self.first_reaching(range.start);
        let ghost start = range.start as int;
        let ghost end = range.end as int;
        let ghost leaves = self.leaves@;
        proof {
            lemma_pieces_skip(leaves, 0, first as int, start, end);
        }
        let mut pieces: Vec<(K, Range<usize>)> = Vec::new();
        let n = self.leaves.len();
        let mut i = first;
        while i < n
            invariant
                first <= i <= n,
                n == leaves.len(),
                leaves == self.leaves@,
                leaves_ordered(leaves),
                start == range.start,
                end == range.end,
                forall|x: int| first <= x < leaves.len() ==> start < (#[trigger] leaves[x]).range.end,
                pieces_from(leaves, 0, start, end) == pieces@ + pieces_from(leaves, i as int, start, end),
            ensures
                pieces_from(leaves, 0, start, end) == pieces@,
            decreases n - i,
        {
            let leaf = &self.leaves[i];
            if leaf.range.start >= range.end {
                proof {
                    lemma_pieces_past(leaves, i as int, start, end);
                    assert(pieces@ + Seq::<(K, Range<usize>)>::empty() == pieces@);
                }
                break;
            }
            let end_in = if range.end < leaf.range.end { range.end } else { leaf.range.end } - leaf.range.start;
            let mut cursor = if range.start > leaf.range.start { range.start } else { leaf.range.start }
                - leaf.range.start;
            let ghost before = pieces@;
            let ghost c0 = cursor as int;
            let objects = &leaf.objects;
            let m = objects.len();
            let mut k: usize = 0;
            let mut own: Vec<Range<usize>> = Vec::new();
            while k < m
                invariant
                    k <= m,
                    m == objects@.len(),
                    pieces_between(objects@, 0, c0, end_in as int) == own@ + pieces_between(
                        objects@,
                        k as int,
                        cursor as int,
                        end_in as int,
                    ),
                ensures
                    pieces_between(objects@, 0, c0, end_in as int) == own@ + rest_piece(cursor as int, end_in as int),
                decreases m - k,
            {
                let object = &objects[k];
                if object.start >= end_in {
                    break;
                }
                if object.end <= cursor {
                    k = k + 1;
                    continue;
                }
                let ghost own0 = own@;
                if object.start > cursor {
                    own.push(cursor..object.start);
                }
                proof {
                    let piece = if object.start > cursor as int {
                        seq![Range { start: cursor, end: object.start }]
                    } else {
                        Seq::<Range<usize>>::empty()
                    };
                    assert(own@ == own0 + piece);
                    assert(own0 + (piece + pieces_between(objects@, k + 1, object.end as int, end_in as int)) == own@
                        + pieces_between(objects@, k + 1, object.end as int, end_in as int));
                }
                cursor = object.end;
                k = k + 1;
            }
            let ghost own_all = own@;
            if cursor < end_in {
                own.push(cursor..end_in);
            }
            proof {
                assert(own@ == own_all + rest_piece(cursor as int, end_in as int));
            }
            let key = leaf.key;
            let mut q: usize = 0;
            while q < own.len()
                invariant
                    q <= own@.len(),
                    pieces@ == before + own@.take(q as int).map_values(|r: Range<usize>| (key, r)),
                decreases own@.len() - q,
            {
                let r = own[q].start..own[q].end;
                pieces.push((key, r));
                proof {
                    assert(own@.take(q + 1) == own@.take(q as int).push(own@[q as int]));
                    assert(own@.take(q + 1).map_values(|r: Range<usize>| (key, r)) == own@.take(q as int).map_values(
                        |r: Range<usize>| (key, r),
                    ).push((key, own@[q as int])));
                }
                q = q + 1;
            }
            proof {
                assert(own@.take(own@.len() as int) == own@);
                assert(leaf_pieces(leaves[i as int], start, end) == own@.map_values(|r: Range<usize>| (key, r)));
                assert(pieces_from(leaves, i as int, start, end) == leaf_pieces(leaves[i as int], start, end)
                    + pieces_from(leaves, i + 1, start, end));
                assert(before + (own@.map_values(|r: Range<usize>| (key, r)) + pieces_from(leaves, i + 1, start, end))
                    == pieces@ + pieces_from(leaves, i + 1, start, end));
            }
            i = i + 1;
        }
        Some(pieces)
    }

    /// The first leaf that reaches past `offset`: every leaf before it ends
    /// at or before it, and the leaves from it on all end past it.
    fn first_reaching(&self, offset: usize) -> (r: usize)
        requires
            self.wf(),
        ensures
            r <= self.leaves@.len(),
            forall|x: int| 0 <= x < r ==> (#[trigger] self.leaves@[x]).range.end <= offset,
            forall|x: int| r <= x < self.leaves@.len() ==> offset < (#[trigger] self.leaves@[x]).range.end,
    {
        let mut lo: usize = 0;
        let mut hi: usize = self.leaves.len();
        while lo < hi
            invariant
                lo <= hi <= self.leaves@.len(),
                leaves_ordered(self.leaves@),
                forall|x: int| 0 <= x < lo ==> (#[trigger] self.leaves@[x]).range.end <= offset,
                forall|x: int| hi <= x < self.leaves@.len() ==> offset < (#[trigger] self.leaves@[x]).range.end,
            decreases hi - lo,
        {
            let mid = lo + (hi - lo) / 2;
            if self.leaves[mid].range.end <= offset {
                proof {
                    assert forall|x: int| 0 <= x < mid + 1 implies (#[trigger] self.leaves@[x]).range.end <= offset by {
                        if x < mid {
                            assert(self.leaves@[x].range.end <= self.leaves@[mid as int].range.start);
                        }
                    }
                }
                lo = mid + 1;
            } else {
                proof {
                    assert forall|x: int| mid <= x < self.leaves@.len() implies offset < (
                    #[trigger] self.leaves@[x]).range.end by {
                        if x > mid {
                            assert(self.leaves@[mid as int].range.end <= self.leaves@[x].range.start);
                        }
                    }
                }
                hi = mid;
            }
        }
        lo
    }
}

/// How many bytes from the `k`-th on `a` and `b` share, counting from the
/// start.
pub open spec fn prefix_run(a: Seq<u8>, b: Seq<u8>, k: int) -> int
    decreases a.len() - k,
{
    if 0 <= k < a.len() && k < b.len() && a[k] == b[k] {
        prefix_run(a, b, k + 1)
    } else {
        k
    }
}

/// How many bytes from the `k`-th last on `a` and `b` share, counting from
/// the end.
pub open spec fn suffix_run(a: Seq<u8>, b: Seq<u8>, k: int) -> int
    decreases a.len() - k,
{
    if 0 <= k < a.len() && k < b.len() && a[a.len() - 1 - k] == b[b.len() - 1 - k] {
        suffix_run(a, b, k + 1)
    } else {
        k
    }
}

/// The smaller of two integers.
pub open spec fn min_of(a: int, b: int) -> int {
    if a < b { a } else { b }
}

/// The lengths of the unchanged start and end of a source edited from
/// `old` to `new`. After an append (`tail_only`) all of `old` is the
/// start. Otherwise the start is the bytes both share from the front; when
/// one source extends the other the end is empty, else it is the bytes
/// both share from the back, and where the two overlap the end wins.
pub open spec fn unchanged_span(old: Seq<u8>, new: Seq<u8>, tail_only: bool) -> (int, int) {
    if tail_only {
        (old.len() as int, 0)
    } else {
        let p = prefix_run(old, new, 0);
        let shorter = min_of(old.len() as int, new.len() as int);
        if p == shorter {
            (p, 0)
        } else {
            let sfx = min_of(suffix_run(old, new, 0), shorter);
            (min_of(p, shorter - sfx), sfx)
        }
    }
}

proof fn lemma_prefix_run(a: Seq<u8>, b: Seq<u8>, k: int)
    requires
        0 <= k <= a.len(),
        k <= b.len(),
        forall|i: int| 0 <= i < k ==> a[i] == b[i],
    ensures
        k <= prefix_run(a, b, k) <= min_of(a.len() as int, b.len() as int),
        forall|i: int| 0 <= i < prefix_run(a, b, k) ==> a[i] == b[i],
        prefix_run(a, b, k) < min_of(a.len() as int, b.len() as int) ==> a[prefix_run(a, b, k)] != b[prefix_run(
            a,
            b,
            k,
        )],
    decreases a.len() - k,
{
    if k < a.len() && k < b.len() && a[k] == b[k] {
        lemma_prefix_run(a, b, k + 1);
    }
}

/// Whether `a` and `b` hold the same byte `i` places before their ends.
pub open spec fn same_back(a: Seq<u8>, b: Seq<u8>, i: int) -> bool {
    a[a.len() - 1 - i] == b[b.len() - 1 - i]
}

proof fn lemma_suffix_run(a: Seq<u8>, b: Seq<u8>, k: int)
    requires
        0 <= k <= a.len(),
        k <= b.len(),
        forall|i: int| 0 <= i < k ==> #[trigger] same_back(a, b, i),
    ensures
        k <= suffix_run(a, b, k) <= min_of(a.len() as int, b.len() as int),
        forall|i: int| 0 <= i < suffix_run(a, b, k) ==> #[trigger] same_back(a, b, i),
    decreases a.len() - k,
{
    if k < a.len() && k < b.len() && a[a.len() - 1 - k] == b[b.len() - 1 - k] {
        assert(same_back(a, b, k));
        lemma_suffix_run(a, b, k + 1);
    }
}

/// The lengths of the start and the end that an edit of the source from
/// `old` to `new` left unchanged: blocks that start in the first keep
/// their offset, and blocks that start in the second move by the change
/// in length.
pub fn unchanged_ends(old: &Vec<u8>, new: &Vec<u8>, tail_only: bool) -> (r: (usize, usize))
    ensures
        (r.0 as int, r.1 as int) == unchanged_span(old@, new@, tail_only),
        !tail_only ==> {
            &&& r.0 + r.1 <= min_of(old@.len() as int, new@.len() as int)
            &&& old@.take(r.0 as int) == new@.take(r.0 as int)
            &&& old@.skip(old@.len() - r.1) == new@.skip(new@.len() - r.1)
        },
{
    let old_len = old.len();
    let new_len = new.len();
    if tail_only {
        return (old_len, 0);
    }
    let shorter = if old_len < new_len { old_len } else { new_len };
    let mut prefix: usize = 0;
    while prefix < shorter && old[prefix] == new[prefix]
        invariant
            prefix <= shorter,
            shorter == min_of(old@.len() as int, new@.len() as int),
            old_len == old@.len(),
            new_len == new@.len(),
            prefix_run(old@, new@, 0) == prefix_run(old@, new@, prefix as int),
        decreases shorter - prefix,
    {
        prefix = prefix + 1;
    }
    proof {
        lemma_prefix_run(old@, new@, 0);
    }
    if prefix == shorter {
        proof {
            assert(old@.take(prefix as int) =~= new@.take(prefix as int));
            assert(old@.skip(old@.len() as int) =~= new@.skip(new@.len() as int));
        }
        return (prefix, 0);
    }
    let mut suffix: usize = 0;
    while suffix < shorter && old[old_len - 1 - suffix] == new[new_len - 1 - suffix]
        invariant
            suffix <= shorter,
            shorter == min_of(old@.len() as int, new@.len() as int),
            old_len == old@.len(),
            new_len == new@.len(),
            suffix_run(old@, new@, 0) == suffix_run(old@, new@, suffix as int),
        decreases shorter - suffix,
    {
        suffix = suffix + 1;
    }
    proof {
        lemma_suffix_run(old@, new@, 0);
    }
    let start = if prefix < shorter - suffix { prefix } else { shorter - suffix };
    proof {
        assert(old@.take(start as int) =~= new@.take(start as int));
        assert(old@.skip(old@.len() - suffix) =~= new@.skip(new@.len() - suffix)) by {
            assert forall|i: int| 0 <= i < suffix implies #[trigger] old@.skip(old@.len() - suffix)[i] == new@.skip(
                new@.len() - suffix,
            )[i] by {
                let j = suffix - 1 - i;
                assert(same_back(old@, new@, j));
            }
        }
    }
    (start, suffix)
}

/// Where a block that starts at `start` in the old source starts in the new
/// one, given the lengths of the unchanged start and end: at the same
/// offset inside the start, moved by the change in length inside the end,
/// and nowhere (the block is gone) in between.
pub fn moved_start(start: usize, prefix: usize, suffix: usize, old_len: usize, new_len: usize) -> (r: Option<usize>)
    requires
        suffix <= old_len,
        suffix <= new_len,
        start + new_len <= usize::MAX,
    ensures
        start < prefix ==> r == Some(start),
        !(start < prefix) && start >= old_len - suffix ==> r == Some((start + new_len - old_len) as usize),
        !(start < prefix) && start < old_len - suffix ==> r is None,
{
    if start < prefix {
        Some(start)
    } else if start >= old_len - suffix {
        Some(start + new_len - old_len)
    } else {
        None
    }
}

/// The backgrounds that the first `keep` bytes of a leaf still hold, each
/// cut off at `keep`: those that start past it go.
pub open spec fn clipped<B>(s: Seq<(Range<usize>, B)>, keep: int) -> Seq<(Range<usize>, B)>
    decreases s.len(),
{
    if s.len() == 0 {
        seq![]
    } else {
        let rest = clipped(s.drop_last(), keep);
        let x = s.last();
        if x.0.start < keep {
            rest.push((Range { start: x.0.start, end: min_of(x.0.end as int, keep) as usize }, x.1))
        } else {
            rest
        }
    }
}

/// The backgrounds of a leaf whose first `keep` bytes are unchanged, kept
/// in order and cut off at `keep`; those that start past it go.
pub fn clip_backgrounds<B: Copy>(backgrounds: &Vec<(Range<usize>, B)>, keep: usize) -> (r: Vec<(Range<usize>, B)>)
    ensures
        r@ == clipped(backgrounds@, keep as int),
{
    let mut out: Vec<(Range<usize>, B)> = Vec::new();
    let n = backgrounds.len();
    let mut i: usize = 0;
    while i < n
        invariant
            i <= n,
            n == backgrounds@.len(),
            out@ == clipped(backgrounds@.take(i as int), keep as int),
        decreases n - i,
    {
        let start = backgrounds[i].0.start;
        let end = backgrounds[i].0.end;
        let b = backgrounds[i].1;
        proof {
            assert(backgrounds@.take(i + 1).drop_last() == backgrounds@.take(i as int));
            assert(backgrounds@.take(i + 1).last() == backgrounds@[i as int]);
        }
        if start < keep {
            out.push((start..(if end < keep { end } else { keep }), b));
        }
        i = i + 1;
    }
    assert(backgrounds@.take(n as int) == backgrounds@);
    out
}

/// The leaves that end at or before the range's start paint nothing of it.
proof fn lemma_pieces_skip<K>(leaves: Seq<LeafSpan<K>>, i: int, first: int, start: int, end: int)
    requires
        0 <= i <= first <= leaves.len(),
        forall|x: int| 0 <= x < first ==> (#[trigger] leaves[x]).range.end <= start,
    ensures
        pieces_from(leaves, i, start, end) == pieces_from(leaves, first, start, end),
    decreases first - i,
{
    if i < first {
        lemma_pieces_skip(leaves, i + 1, first, start, end);
        assert(leaf_pieces(leaves[i], start, end) == Seq::<(K, Range<usize>)>::empty());
        assert(Seq::<(K, Range<usize>)>::empty() + pieces_from(leaves, i + 1, start, end) == pieces_from(
            leaves,
            i + 1,
            start,
            end,
        ));
    }
}

/// The leaves from one that starts at or past the range's end paint
/// nothing of it.
proof fn lemma_pieces_past<K>(leaves: Seq<LeafSpan<K>>, i: int, start: int, end: int)
    requires
        leaves_ordered(leaves),
        0 <= i < leaves.len(),
        leaves[i].range.start >= end,
    ensures
        pieces_from(leaves, i, start, end) == Seq::<(K, Range<usize>)>::empty(),
    decreases leaves.len() - i,
{
    if i + 1 < leaves.len() {
        assert(leaves[i].range.end <= leaves[i + 1].range.start);
        lemma_pieces_past(leaves, i + 1, start, end);
    }
    assert(leaf_pieces(leaves[i], start, end) == Seq::<(K, Range<usize>)>::empty());
    assert(Seq::<(K, Range<usize>)>::empty() + pieces_from(leaves, i + 1, start, end) == pieces_from(
        leaves,
        i + 1,
        start,
        end,
    ));
}

} // verus!
