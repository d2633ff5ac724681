//! Grapheme cluster boundaries, through `unicode-segmentation`.

use unicode_segmentation::UnicodeSegmentation;
use vstd::prelude::*;
use vstd::utf8::*;
use vstd::string::*;

verus! {

/// The byte offsets at which the extended grapheme clusters of a text start,
/// as `unicode-segmentation` segments it.
pub uninterp spec fn grapheme_starts(text: Seq<char>) -> Seq<usize>;

/// Offsets that can be the grapheme starts of a text of `len` bytes: they
/// rise strictly, begin at zero when the text is not empty, lie inside the
/// text and fall on character boundaries.
pub open spec fn starts_shape(starts: Seq<usize>, bytes: Seq<u8>) -> bool {
    &&& (starts.len() == 0 <==> bytes.len() == 0)
    &&& starts.len() > 0 ==> starts[0] == 0
    &&& forall|i: int, j: int| 0 <= i < j < starts.len() ==> #[trigger] starts[i] < #[trigger] starts[j]
    &&& forall|i: int| 0 <= i < starts.len() ==> #[trigger] starts[i] < bytes.len()
    &&& forall|i: int| 0 <= i < starts.len() ==> is_char_boundary(bytes, #[trigger] starts[i] as int)
}

/// The start offsets of the grapheme clusters of `text`, from
/// `UnicodeSegmentation::grapheme_indices` with extended clusters. The
/// clusters partition the text in order, so the offsets rise strictly from
/// zero and each starts a character; their exact placement (the Unicode
/// segmentation rules) is left to the named result.
#[verifier::external_body]
fn grapheme_indices_of(text: &str) -> (r: Vec<usize>)
    ensures
        r@ == grapheme_starts(text@),
        starts_shape(r@, encode_utf8(text@)),
{
    text.grapheme_indices(true).map(|(ix, _)| ix).collect()
}

/// The last grapheme start before `offset`, or zero.
pub open spec fn spec_previous_boundary(starts: Seq<usize>, offset: int) -> int
    decreases starts.len(),
{
    if starts.len() == 0 {
        0
    } else if starts.last() < offset {
        starts.last() as int
    } else {
        spec_previous_boundary(starts.drop_last(), offset)
    }
}

/// The first grapheme start after `offset`, or the text length.
pub open spec fn spec_next_boundary(starts: Seq<usize>, offset: int, len: int) -> int
    decreases starts.len(),
{
    if starts.len() == 0 {
        len
    } else if starts[0] > offset {
        starts[0] as int
    } else {
        spec_next_boundary(starts.drop_first(), offset, len)
    }
}

/// The boundary before `offset` is zero or one of the starts, before `offset`.
pub proof fn lemma_previous_boundary(starts: Seq<usize>, offset: int)
    ensures
        spec_previous_boundary(starts, offset) == 0 || exists|i: int|
            0 <= i < starts.len() && starts[i] == spec_previous_boundary(starts, offset) && starts[i] < offset,
    decreases starts.len(),
{
    if starts.len() > 0 && !(starts.last() < offset) {
        let d = starts.drop_last();
        lemma_previous_boundary(d, offset);
        if spec_previous_boundary(starts, offset) != 0 {
            let i = choose|i: int| 0 <= i < d.len() && d[i] == spec_previous_boundary(d, offset) && d[i] < offset;
            assert(starts[i] == d[i]);
        }
    }
}

/// The boundary after `offset` is the end or one of the starts, after `offset`.
pub proof fn lemma_next_boundary(starts: Seq<usize>, offset: int, len: int)
    ensures
        spec_next_boundary(starts, offset, len) == len || exists|i: int|
            0 <= i < starts.len() && starts[i] == spec_next_boundary(starts, offset, len) && starts[i] > offset,
    decreases starts.len(),
{
    if starts.len() > 0 && !(starts[0] > offset) {
        let d = starts.drop_first();
        lemma_next_boundary(d, offset, len);
        if spec_next_boundary(starts, offset, len) != len {
            let i = choose|i: int| 0 <= i < d.len() && d[i] == spec_next_boundary(d, offset, len) && d[i] > offset;
            assert(starts[i + 1] == d[i]);
        }
    }
}

/// The last of the given grapheme starts that lies before `offset`, or zero.
pub fn previous_boundary_in(starts: &Vec<usize>, offset: usize) -> (r: usize)
    ensures
        r == spec_previous_boundary(starts@, offset as int),
{
    let mut i = starts.len();
    assert(starts@.take(i as int) == starts@);
    while i > 0
        invariant
            i <= starts@.len(),
            spec_previous_boundary(starts@, offset as int) == spec_previous_boundary(
                starts@.take(i as int),
                offset as int,
            ),
        decreases i,
    {
        assert(starts@.take(i as int).drop_last() == starts@.take(i - 1));
        if starts[i - 1] < offset {
            return starts[i - 1];
        }
        i = i - 1;
    }
    0
}

/// The first of the given grapheme starts that lies after `offset`, or `len`.
pub fn next_boundary_in(starts: &Vec<usize>, offset: usize, len: usize) -> (r: usize)
    ensures
        r == spec_next_boundary(starts@, offset as int, len as int),
{
    let n = starts.len();
    let mut i: usize = 0;
    assert(starts@.skip(0) == starts@);
    while i < n
        invariant
            n == starts@.len(),
            i <= n,
            spec_next_boundary(starts@, offset as int, len as int) == spec_next_boundary(
                starts@.skip(i as int),
                offset as int,
                len as int,
            ),
        decreases n - i,
    {
        assert(starts@.skip(i as int).drop_first() == starts@.skip(i + 1));
        if starts[i] > offset {
            return starts[i];
        }
        i = i + 1;
    }
    len
}

/// The start of the grapheme cluster before `offset` in `text`.
pub fn previous_boundary(text: &str, offset: usize) -> (r: usize)
    ensures
        r == spec_previous_boundary(grapheme_starts(text@), offset as int),
{
    let starts = grapheme_indices_of(text);
    previous_boundary_in(&starts, offset)
}

/// The start of the grapheme cluster after `offset` in `text`, or the end.
pub fn next_boundary(text: &str, offset: usize) -> (r: usize)
    ensures
        r == spec_next_boundary(grapheme_starts(text@), offset as int, encode_utf8(text@).len() as int),
{
    let starts = grapheme_indices_of(text);
    let len = text.as_bytes().len();
    next_boundary_in(&starts, offset, len)
}

/// The grapheme starts of a text and the facts the segmentation promises.
pub fn grapheme_starts_of(text: &str) -> (r: Vec<usize>)
    ensures
        r@ == grapheme_starts(text@),
        starts_shape(r@, encode_utf8(text@)),
{
    grapheme_indices_of(text)
}


/// The boundary after `offset` is the first start past it, or the end.
proof fn lemma_next_is_first_after(starts: Seq<usize>, offset: int, len: int, j: int)
    requires
        0 <= j <= starts.len(),
        forall|i: int| 0 <= i < j ==> starts[i] <= offset,
        j < starts.len() ==> starts[j] > offset,
    ensures
        spec_next_boundary(starts, offset, len) == (if j < starts.len() { starts[j] as int } else { len }),
    decreases starts.len(),
{
    if starts.len() > 0 && j > 0 {
        let d = starts.drop_first();
        assert forall|i: int| 0 <= i < j - 1 implies d[i] <= offset by {
            assert(d[i] == starts[i + 1]);
        }
        if j - 1 < d.len() {
            assert(d[j - 1] == starts[j]);
        }
        assert(starts[0] <= offset);
        lemma_next_is_first_after(d, offset, len, j - 1);
    }
}

/// The boundary before `offset` is the last start before it, or zero.
proof fn lemma_previous_is_last_before(starts: Seq<usize>, offset: int, j: int)
    requires
        -1 <= j < starts.len(),
        forall|i: int| j < i < starts.len() ==> starts[i] >= offset,
        j >= 0 ==> starts[j] < offset,
    ensures
        spec_previous_boundary(starts, offset) == (if j >= 0 { starts[j] as int } else { 0 }),
    decreases starts.len(),
{
    if starts.len() > 0 && j < starts.len() - 1 {
        let d = starts.drop_last();
        assert forall|i: int| j < i < d.len() implies d[i] >= offset by {
            assert(d[i] == starts[i]);
        }
        if j >= 0 {
            assert(d[j] == starts[j]);
        }
        assert(starts.last() >= offset);
        lemma_previous_is_last_before(d, offset, j);
    }
}

/// Stepping over one grapheme forward from the start of a grapheme, then
/// one back, comes back to where it started; and stepping back from the
/// start of a later grapheme (or the end), then forward, does too.
pub proof fn lemma_step_round_trip(starts: Seq<usize>, bytes: Seq<u8>, k: int)
    requires
        starts_shape(starts, bytes),
        0 <= k < starts.len(),
    ensures
        spec_previous_boundary(starts, spec_next_boundary(starts, starts[k] as int, bytes.len() as int))
            == starts[k],
        k > 0 ==> spec_next_boundary(starts, spec_previous_boundary(starts, starts[k] as int), bytes.len() as int)
            == starts[k],
        spec_next_boundary(starts, spec_previous_boundary(starts, bytes.len() as int), bytes.len() as int)
            == bytes.len(),
{
    let n = starts.len() as int;
    let len = bytes.len() as int;
    assert forall|i: int| 0 <= i < k + 1 implies starts[i] <= starts[k] by {
        if i < k {
            assert(starts[i] < starts[k]);
        }
    }
    if k + 1 < n {
        assert(starts[k + 1] > starts[k]);
    }
    lemma_next_is_first_after(starts, starts[k] as int, len, k + 1);
    let nx = spec_next_boundary(starts, starts[k] as int, len);
    assert forall|i: int| k < i < n implies starts[i] >= nx by {
        if k + 1 < n {
            if i > k + 1 {
                assert(starts[k + 1] < starts[i]);
            }
        }
    }
    if k + 1 >= n {
        assert(starts[k] < len);
    } else {
        assert(starts[k] < starts[k + 1]);
    }
    lemma_previous_is_last_before(starts, nx, k);
    if k > 0 {
        assert forall|i: int| k - 1 < i < n implies starts[i] >= starts[k] by {
            if i > k {
                assert(starts[k] < starts[i]);
            }
        }
        assert(starts[k - 1] < starts[k]);
        lemma_previous_is_last_before(starts, starts[k] as int, k - 1);
        let pv = starts[k - 1] as int;
        assert forall|i: int| 0 <= i < k implies starts[i] <= pv by {
            if i < k - 1 {
                assert(starts[i] < starts[k - 1]);
            }
        }
        lemma_next_is_first_after(starts, pv, len, k);
    }
    assert forall|i: int| n - 1 < i < n implies starts[i] >= len by {}
    assert(starts[n - 1] < len);
    lemma_previous_is_last_before(starts, len, n - 1);
    let last = starts[n - 1] as int;
    assert forall|i: int| 0 <= i < n implies starts[i] <= last by {
        if i < n - 1 {
            assert(starts[i] < starts[n - 1]);
        }
    }
    lemma_next_is_first_after(starts, last, len, n);
}

} // verus!
