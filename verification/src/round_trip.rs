//! Reading back what a document writes: a document of plain paragraphs,
//! headings, one-line tables or images, and bullet, ordered or task lists
//! of plain items, nested lists included, reads back as itself.

use vstd::prelude::*;
use vstd::utf8::*;
use crate::document::{
    BlockForm, BlockNode, Document, ParaView, TextMark, plain_mark, plain_paragraph, read_form, seq_form,
    node_form, lemma_seq_form_count, lemma_seq_form_push, seq_paras,
};
use crate::markdown::{
    md_blocks, md_node, plain_line, lines_from, lines_of, blocks_from, parse_form, lead, line_is_blank, marker_of,
    digit_run, para_end, paragraph_of, para_read, inline_read, plain_state, mark_of, lemma_inline_plain,
    lemma_lines_one, lemma_run_stop_uniform, lemma_ascii_valid, inline_from, open_delims, close_delims, run_stop,
    level_of, hashes, hash_run, md_items, md_item, md_tight, marker, task_box, indent_from, next_break, task_at,
    items_from, item_run, nonblank_from, same_list, after, opens_block, text_start, spaces, decimal,
};
use crate::line_join::{
    join, one_line, lines_ok, line_start, line_end, indent_all, indent_tail, lemma_join_layout, lemma_join_valid,
    lemma_join_concat, lemma_indent_lines, lemma_indent_rest,
};

verus! {

/// The text of a paragraph or heading block.
pub open spec fn ptext(n: BlockNode) -> Seq<u8> {
    match n {
        BlockNode::Paragraph(p) => p@.text,
        BlockNode::Heading { children, .. } => children@.text,
        _ => seq![],
    }
}

/// Whether `text` holds no line break and no format delimiter.
pub open spec fn plain_inline(text: Seq<u8>) -> bool {
    forall|i: int| 0 <= i < text.len() ==> #[trigger] text[i] != 10u8 && text[i] != 42u8 && text[i] != 96u8
        && text[i] != 126u8
}

/// Whether block `n` is a heading of level one to six whose well-formed
/// text is one line with no format delimiters and no formats.
pub open spec fn plain_heading(n: BlockNode) -> bool {
    match n {
        BlockNode::Heading { level, children } => {
            &&& 1 <= level <= 6
            &&& children@.wf()
            &&& plain_inline(children@.text)
            &&& forall|i: int| 0 <= i < children@.marks.len() ==> #[trigger] children@.marks[i] == plain_mark()
        },
        _ => false,
    }
}

/// Whether block `n` is kept as one line of source that opens a table
/// (`|`) or an image (`![`).
pub open spec fn plain_unsupported(n: BlockNode) -> bool {
    match n {
        BlockNode::Unsupported { source } => {
            let b = encode_utf8(source@);
            &&& b.len() > 0
            &&& forall|i: int| 0 <= i < b.len() ==> #[trigger] b[i] != 10u8
            &&& (b[0] == 124u8 || (b[0] == 33u8 && b.len() >= 2 && b[1] == 91u8))
        },
        _ => false,
    }
}

/// Whether block `n` is a plain paragraph, a plain heading, or a one-line
/// table or image.
pub open spec fn plain_block(n: BlockNode) -> bool {
    plain_paragraph(n) || plain_heading(n) || plain_unsupported(n)
}

/// Whether a list block is ordered.
pub open spec fn list_ordered(n: BlockNode) -> bool {
    match n {
        BlockNode::List { ordered, .. } => ordered,
        _ => false,
    }
}

/// A bound on how deep the lists in list `n` nest: one less than the
/// bytes it writes. Every list of plain items nests less deep than that,
/// since each level takes at least two bytes more.
pub open spec fn list_bound(n: BlockNode) -> nat {
    (md_node(n).len() - 1) as nat
}

/// Whether `n` is a list of plain items (see `plain_item`), lists nested
/// in them included; an ordered one has fewer than a billion items, whose
/// numbers take at most nine digits.
pub open spec fn plain_list(n: BlockNode) -> bool {
    match n {
        BlockNode::List { children, ordered } => {
            &&& children@.len() > 0
            &&& (!ordered || children@.len() < 1000000000)
            &&& all_plain_items(children@, list_bound(n))
        },
        _ => false,
    }
}

/// The items of a list block.
pub open spec fn list_items(n: BlockNode) -> Seq<BlockNode> {
    match n {
        BlockNode::List { children, .. } => children@,
        _ => seq![],
    }
}

/// Whether block `n` is a plain block or a list of plain items.
pub open spec fn doc_block(n: BlockNode) -> bool {
    plain_block(n) || plain_list(n)
}

/// Every block is a plain block or a list of plain items, and no two
/// lists of one kind stand side by side (they would read back as one).
pub open spec fn all_plain(s: Seq<BlockNode>) -> bool {
    &&& forall|i: int| 0 <= i < s.len() ==> #[trigger] doc_block(s[i])
    &&& forall|i: int|
        0 <= i < s.len() - 1 ==> !(#[trigger] plain_list(s[i]) && plain_list(s[i + 1]) && list_ordered(s[i])
            == list_ordered(s[i + 1]))
}

/// The Markdown a plain block writes: a heading's `#`s and a space, then
/// its text.
pub open spec fn written(n: BlockNode) -> Seq<u8> {
    match n {
        BlockNode::Heading { level, children } => hashes(level) + seq![32u8] + children@.text,
        BlockNode::Unsupported { source } => encode_utf8(source@),
        BlockNode::List { children, ordered } => md_items(children@, ordered),
        _ => ptext(n),
    }
}

/// Where the Markdown of block `j` starts in that of the blocks.
pub open spec fn md_start(s: Seq<BlockNode>, j: int) -> int {
    if j == 0 {
        0
    } else {
        md_blocks(s.take(j)).len() + 2int
    }
}

/// Where the Markdown of block `j` ends in that of the blocks.
pub open spec fn md_end(s: Seq<BlockNode>, j: int) -> int {
    md_blocks(s.take(j + 1)).len() as int
}

/// A plain block writes its text as it is, after a heading's marker.
proof fn lemma_md_plain(n: BlockNode)
    requires
        plain_block(n),
    ensures
        md_node(n) == written(n),
        forall|i: int| 0 <= i < written(n).len() ==> #[trigger] written(n)[i] != 10u8,
        valid_utf8(written(n)),
{
    match n {
        BlockNode::Paragraph(p) => {
            let text = p@.text;
            let marks = p@.marks;
            lemma_run_stop_uniform(text, marks, plain_mark(), 1);
            assert(marks[0] == plain_mark());
            assert(inline_from(text, marks, text.len() as int) == Seq::<u8>::empty());
            assert(open_delims(plain_mark()) == Seq::<u8>::empty());
            assert(close_delims(plain_mark()) == Seq::<u8>::empty());
            assert(run_stop(text, marks, marks[0], 1) == text.len());
            assert(inline_from(text, marks, 0) == text.subrange(0, text.len() as int));
            assert(text.subrange(0, text.len() as int) == text);
        },
        BlockNode::Heading { level, children } => {
            let text = children@.text;
            let marks = children@.marks;
            if text.len() > 0 {
                lemma_run_stop_uniform(text, marks, plain_mark(), 1);
                assert(marks[0] == plain_mark());
                assert(inline_from(text, marks, text.len() as int) == Seq::<u8>::empty());
                assert(open_delims(plain_mark()) == Seq::<u8>::empty());
                assert(close_delims(plain_mark()) == Seq::<u8>::empty());
                assert(run_stop(text, marks, marks[0], 1) == text.len());
                assert(inline_from(text, marks, 0) == text.subrange(0, text.len() as int));
                assert(text.subrange(0, text.len() as int) == text);
            } else {
                assert(inline_from(text, marks, 0) == text);
            }
            let head = hashes(level) + seq![32u8];
            assert forall|i: int| 0 <= i < head.len() implies head[i] < 0x80 by {}
            lemma_ascii_valid(head);
            valid_utf8_concat(head, text);
            assert forall|i: int| 0 <= i < written(n).len() implies #[trigger] written(n)[i] != 10u8 by {
                if i >= head.len() {
                    assert(written(n)[i] == text[i - head.len()]);
                }
            }
        },
        BlockNode::Unsupported { source } => {
            encode_utf8_valid_utf8(source@);
        },
        _ => {},
    }
}

/// The Markdown of the first `j + 1` blocks: that of the first `j`, a
/// blank line, and what block `j` writes.
proof fn lemma_md_step(s: Seq<BlockNode>, j: int)
    requires
        all_plain(s),
        0 <= j < s.len(),
    ensures
        md_blocks(s.take(j + 1)) == (if j == 0 {
            Seq::<u8>::empty()
        } else {
            md_blocks(s.take(j)) + seq![10u8, 10u8]
        }) + written(s[j]),
        md_end(s, j) == md_start(s, j) + written(s[j]).len(),
{
    assert(doc_block(s[j]));
    lemma_md_written(s[j]);
    let t = s.take(j + 1);
    if j == 0 {
        assert(t.len() == 1);
        assert(t[0] == s[0]);
        assert(Seq::<u8>::empty() + written(s[0]) == written(s[0]));
    } else {
        assert(t.drop_last() == s.take(j));
        assert(t.last() == s[j]);
    }
}

/// The Markdown of the first `j` blocks starts that of the first `m`,
/// with a blank line after it when more follow.
proof fn lemma_md_prefix(s: Seq<BlockNode>, j: int, m: int)
    requires
        all_plain(s),
        1 <= j <= m <= s.len(),
    ensures
        md_blocks(s.take(j)).len() <= md_blocks(s.take(m)).len(),
        forall|i: int| 0 <= i < md_blocks(s.take(j)).len() ==> #[trigger] md_blocks(s.take(m))[i] == md_blocks(
            s.take(j),
        )[i],
        j < m ==> md_blocks(s.take(j)).len() + 2 <= md_blocks(s.take(m)).len(),
        j < m ==> md_blocks(s.take(m))[md_blocks(s.take(j)).len() as int] == 10u8,
        j < m ==> md_blocks(s.take(m))[md_blocks(s.take(j)).len() + 1int] == 10u8,
    decreases m - j,
{
    if j < m {
        lemma_md_prefix(s, j, m - 1);
        lemma_md_step(s, m - 1);
        let a = md_blocks(s.take(m - 1));
        let b = md_blocks(s.take(m));
        assert(b == a + seq![10u8, 10u8] + written(s[m - 1]));
        if j < m - 1 {
            assert(b[md_blocks(s.take(j)).len() as int] == a[md_blocks(s.take(j)).len() as int]);
            assert(b[md_blocks(s.take(j)).len() + 1int] == a[md_blocks(s.take(j)).len() + 1int]);
        }
        assert forall|i: int| 0 <= i < md_blocks(s.take(j)).len() implies #[trigger] b[i] == md_blocks(
            s.take(j),
        )[i] by {
            assert(b[i] == a[i]);
        }
    }
}

/// Where block `j` lies in the Markdown of all the blocks: what it writes
/// there, and a blank line after it when another follows.
proof fn lemma_layout(s: Seq<BlockNode>, j: int)
    requires
        all_plain(s),
        0 <= j < s.len(),
    ensures
        0 <= md_start(s, j) <= md_end(s, j) <= md_blocks(s).len(),
        md_blocks(s).subrange(md_start(s, j), md_end(s, j)) == written(s[j]),
        j + 1 < s.len() ==> md_end(s, j) + 2 <= md_blocks(s).len() && md_blocks(s)[md_end(s, j)] == 10u8
            && md_blocks(s)[md_end(s, j) + 1] == 10u8 && md_start(s, j + 1) == md_end(s, j) + 2,
        j + 1 == s.len() ==> md_end(s, j) == md_blocks(s).len(),
{
    let k = s.len() as int;
    assert(s.take(k) == s);
    lemma_md_step(s, j);
    lemma_md_prefix(s, j + 1, k);
    let w = md_blocks(s.take(j + 1));
    let src = md_blocks(s);
    assert forall|i: int| 0 <= i < written(s[j]).len() implies src.subrange(md_start(s, j), md_end(s, j))[i] == written(
        s[j],
    )[i] by {
        assert(src[md_start(s, j) + i] == w[md_start(s, j) + i]);
    }
    assert(src.subrange(md_start(s, j), md_end(s, j)) =~= written(s[j]));
}

/// Reading lines from `a` on, with no line break before `q` and one at
/// `q`, ends the current line at `q` and begins the next after it.
proof fn lemma_lines_advance(src: Seq<u8>, a: int, q: int, start: int, acc: Seq<(usize, usize)>)
    requires
        0 <= a <= q < src.len(),
        src[q] == 10u8,
        forall|i: int| a <= i < q ==> #[trigger] src[i] != 10u8,
    ensures
        lines_from(src, a, start, acc) == lines_from(src, q + 1, q + 1, acc.push((start as usize, q as usize))),
    decreases q - a,
{
    if a < q {
        lemma_lines_advance(src, a + 1, q, start, acc);
    }
}

/// Digits read the same in a text and where it is copied.
proof fn lemma_digit_run_shift(src: Seq<u8>, t: Seq<u8>, o: int, x: int)
    requires
        0 <= o,
        o + t.len() <= src.len(),
        src.subrange(o, o + t.len()) == t,
        0 <= x <= t.len(),
    ensures
        digit_run(src, o + x, o + t.len()) == digit_run(t, x, t.len() as int),
    decreases t.len() - x,
{
    if x < t.len() {
        assert(src[o + x] == t[x]);
        lemma_digit_run_shift(src, t, o, x + 1);
    }
}

/// A list marker reads the same in a text and where it is copied.
proof fn lemma_marker_shift(src: Seq<u8>, t: Seq<u8>, o: int)
    requires
        0 <= o,
        o + t.len() <= src.len(),
        src.subrange(o, o + t.len()) == t,
    ensures
        marker_of(src, o, o + t.len()) == marker_of(t, 0, t.len() as int),
{
    lemma_digit_run_shift(src, t, o, 0);
    let d = digit_run(t, 0, t.len() as int) as int;
    if t.len() > 0 {
        assert(src[o] == t[0]);
    }
    if t.len() > 1 {
        assert(src[o + 1] == t[1]);
    }
    if 0 <= d && d + 1 < t.len() {
        assert(src[o + d] == t[d]);
        assert(src[o + d + 1] == t[d + 1]);
    }
}

/// The text of a plain block with no formats, as a paragraph reads it.
pub open spec fn plain_view(n: BlockNode) -> ParaView {
    ParaView { id: 0, text: ptext(n), marks: Seq::new(ptext(n).len(), |_i: int| plain_mark()) }
}

/// The form a plain block reads back as.
proof fn lemma_plain_form(n: BlockNode)
    requires
        plain_block(n),
    ensures
        plain_paragraph(n) ==> node_form(n) == BlockForm::Paragraph(plain_view(n)),
        plain_heading(n) ==> node_form(n) == (match n {
            BlockNode::Heading { level, .. } => BlockForm::Heading { level, children: plain_view(n) },
            _ => BlockForm::Paragraph(plain_view(n)),
        }),
{
    match n {
        BlockNode::Paragraph(p) => {
            assert(p@.marks =~= Seq::new(ptext(n).len(), |_i: int| plain_mark()));
        },
        BlockNode::Heading { children, .. } => {
            assert(children@.marks =~= Seq::new(ptext(n).len(), |_i: int| plain_mark()));
        },
        _ => {},
    }
}

/// `#`s counted from `st + x` on, where the text holds `level - x` more
/// of them and then a space.
proof fn lemma_hash_run(src: Seq<u8>, st: int, en: int, level: int, x: int)
    requires
        0 <= x <= level <= 6,
        0 <= st,
        st + level < en <= src.len(),
        forall|i: int| st <= i < st + level ==> #[trigger] src[i] == 35u8,
        src[st + level] == 32u8,
    ensures
        hash_run(src, st + x, en, (7 - x) as nat) == level - x,
    decreases level - x,
{
    if x < level {
        lemma_hash_run(src, st, en, level, x + 1);
    }
}

/// The Markdown of the first `m` plain blocks is valid UTF-8.
proof fn lemma_md_valid(s: Seq<BlockNode>, m: int)
    requires
        all_plain(s),
        1 <= m <= s.len(),
    ensures
        valid_utf8(md_blocks(s.take(m))),
    decreases m,
{
    lemma_md_step(s, m - 1);
    assert(doc_block(s[m - 1]));
    lemma_md_written(s[m - 1]);
    let t = written(s[m - 1]);
    if m > 1 {
        lemma_md_valid(s, m - 1);
        lemma_ascii_valid(seq![10u8, 10u8]);
        valid_utf8_concat(md_blocks(s.take(m - 1)), seq![10u8, 10u8]);
        valid_utf8_concat(md_blocks(s.take(m - 1)) + seq![10u8, 10u8], t);
    } else {
        assert(Seq::<u8>::empty() + t == t);
    }
}

/// Whether `n` is a plain list item with lists nested in it at most `d`
/// levels deep: not spread, one plain paragraph (see `plain_paragraph`)
/// whose text, when the item is no task, does not itself open with a task
/// box, and possibly after it a list of such items (an ordered one of
/// fewer than a billion, whose numbers take at most nine digits).
pub open spec fn plain_item(n: BlockNode, d: nat) -> bool
    decreases d, 0int, 0int,
{
    match n {
        BlockNode::ListItem { children, checked, spread } => {
            &&& !spread
            &&& (children@.len() == 1 || children@.len() == 2)
            &&& plain_paragraph(children@[0])
            &&& (checked is None ==> !task_at(ptext(children@[0]), 0, ptext(children@[0]).len() as int))
            &&& (children@.len() == 2 ==> (if d > 0 {
                match children@[1] {
                    BlockNode::List { children: ks, ordered } => ks@.len() > 0 && (!ordered || ks@.len()
                        < 1000000000) && items_ok(
                        ks@,
                        (d - 1) as nat,
                        ks@.len() as int,
                    ),
                    _ => false,
                }
            } else {
                false
            }))
        },
        _ => false,
    }
}

/// Whether the first `m` items are plain items with lists nested at most
/// `d` deep.
pub open spec fn items_ok(ks: Seq<BlockNode>, d: nat, m: int) -> bool
    decreases d, 1int, m,
{
    if m <= 0 {
        true
    } else {
        items_ok(ks, d, m - 1) && plain_item(ks[m - 1], d)
    }
}

/// `items_ok` says of each of the first `m` items that it is plain.
proof fn lemma_items_ok(ks: Seq<BlockNode>, d: nat, m: int)
    requires
        0 <= m <= ks.len(),
    ensures
        items_ok(ks, d, m) <==> forall|i: int| 0 <= i < m ==> #[trigger] plain_item(ks[i], d),
    decreases m,
{
    if m > 0 {
        lemma_items_ok(ks, d, m - 1);
        assert(items_ok(ks, d, m) == (items_ok(ks, d, m - 1) && plain_item(ks[m - 1], d)));
        if forall|i: int| 0 <= i < m ==> #[trigger] plain_item(ks[i], d) {
            assert(plain_item(ks[m - 1], d));
        }
    }
}

/// Every item is a plain list item with lists nested at most `d` deep.
pub open spec fn all_plain_items(its: Seq<BlockNode>, d: nat) -> bool {
    forall|i: int| 0 <= i < its.len() ==> #[trigger] plain_item(its[i], d)
}

/// The items of the list nested in item `n`, if any.
pub open spec fn item_sub(n: BlockNode) -> Seq<BlockNode> {
    match n {
        BlockNode::ListItem { children, .. } => if children@.len() == 2 {
            list_items(children@[1])
        } else {
            seq![]
        },
        _ => seq![],
    }
}

/// Whether the list nested in item `n` is ordered.
pub open spec fn item_sub_ordered(n: BlockNode) -> bool {
    match n {
        BlockNode::ListItem { children, .. } => if children@.len() == 2 {
            match children@[1] {
                BlockNode::List { ordered, .. } => ordered,
                _ => false,
            }
        } else {
            false
        },
        _ => false,
    }
}

/// The text of an item's paragraph.
pub open spec fn item_text(n: BlockNode) -> Seq<u8> {
    match n {
        BlockNode::ListItem { children, .. } => ptext(children@[0]),
        _ => seq![],
    }
}

/// The task state of an item.
pub open spec fn item_checked(n: BlockNode) -> Option<bool> {
    match n {
        BlockNode::ListItem { checked, .. } => checked,
        _ => None,
    }
}

/// The first line an item writes after `mark`: marker, task box and text.
pub open spec fn item_line(n: BlockNode, mark: Seq<u8>) -> Seq<u8> {
    mark + task_box(item_checked(n)) + item_text(n)
}

/// The lines the items of a list write, a nested list indented under its
/// item.
pub open spec fn items_lines(its: Seq<BlockNode>, d: nat, ordered: bool) -> Seq<Seq<u8>>
    decreases d, its.len(), 1int,
{
    if its.len() == 0 {
        seq![]
    } else {
        items_lines(its.drop_last(), d, ordered) + item_lines(its.last(), d, marker(ordered, its.len()))
    }
}

/// The lines item `n` writes after `mark`: its first line, then those of
/// its nested list, indented by the marker's width.
pub open spec fn item_lines(n: BlockNode, d: nat, mark: Seq<u8>) -> Seq<Seq<u8>>
    decreases d, 0nat, 0int,
{
    if d > 0 && item_sub(n).len() > 0 {
        seq![item_line(n, mark)] + indent_all(
            items_lines(item_sub(n), (d - 1) as nat, item_sub_ordered(n)),
            spaces(mark.len()),
        )
    } else {
        seq![item_line(n, mark)]
    }
}

/// Whether `mark` can open an item's line: ASCII without line breaks, at
/// least two bytes, not opening with a space.
pub open spec fn mark_ok(mark: Seq<u8>) -> bool {
    &&& mark.len() >= 2
    &&& mark[0] != 32u8
    &&& forall|i: int| 0 <= i < mark.len() ==> #[trigger] mark[i] < 0x80 && mark[i] != 10u8
}

/// Ten to the power `j`.
pub open spec fn ten_pow(j: nat) -> nat
    decreases j,
{
    if j == 0 {
        1
    } else {
        10 * ten_pow((j - 1) as nat)
    }
}

/// The digits of `n`: ASCII digits, at least one, and at most `j` when
/// `n` is below ten to the `j`.
proof fn lemma_decimal(n: nat)
    ensures
        decimal(n).len() >= 1,
        forall|i: int| 0 <= i < decimal(n).len() ==> 48u8 <= #[trigger] decimal(n)[i] <= 57u8,
        forall|j: nat| 1 <= j && n < #[trigger] ten_pow(j) ==> decimal(n).len() <= j,
    decreases n,
{
    if n >= 10 {
        lemma_decimal(n / 10);
        let a = decimal(n / 10);
        assert(decimal(n) == a + seq![(48 + n % 10) as u8]);
        assert forall|i: int| 0 <= i < decimal(n).len() implies 48u8 <= #[trigger] decimal(n)[i] <= 57u8 by {
            if i < a.len() {
                assert(decimal(n)[i] == a[i]);
            }
        }
        assert forall|j: nat| 1 <= j && n < #[trigger] ten_pow(j) implies decimal(n).len() <= j by {
            if j == 1 {
                assert(ten_pow(1) == 10) by {
                    assert(ten_pow(0) == 1);
                }
            } else {
                let p = ten_pow((j - 1) as nat);
                assert(ten_pow(j) == 10 * p);
                assert(n / 10 < p) by (nonlinear_arith)
                    requires
                        n < 10 * p,
                ;
                assert(n / 10 < ten_pow((j - 1) as nat));
            }
        }
    } else {
        assert forall|j: nat| 1 <= j && n < #[trigger] ten_pow(j) implies decimal(n).len() <= j by {}
    }
}

/// A number below a billion has at most nine digits.
proof fn lemma_decimal_nine(n: nat)
    requires
        n < 1000000000,
    ensures
        1 <= decimal(n).len() <= 9,
        forall|i: int| 0 <= i < decimal(n).len() ==> 48u8 <= #[trigger] decimal(n)[i] <= 57u8,
{
    lemma_decimal(n);
    assert(ten_pow(9) == 1000000000) by {
        reveal_with_fuel(ten_pow, 10);
    }
}

/// The marker of item `k` of a list can open an item's line.
proof fn lemma_marker_ok(ordered: bool, k: nat)
    requires
        ordered ==> k < 1000000000,
    ensures
        mark_ok(marker(ordered, k)),
        ordered ==> marker(ordered, k).len() <= 11,
{
    if ordered {
        lemma_decimal_nine(k);
        let m = marker(true, k);
        assert forall|i: int| 0 <= i < m.len() implies #[trigger] m[i] < 0x80 && m[i] != 10u8 by {
            if i < decimal(k).len() {
                assert(m[i] == decimal(k)[i]);
            }
        }
        assert(m[0] == decimal(k)[0]);
    }
}

/// The number of digits that open a text is that of the digits before
/// its first other byte.
proof fn lemma_digits_to(w: Seq<u8>, x: int, dl: int)
    requires
        0 <= x <= dl < w.len(),
        forall|i: int| 0 <= i < dl ==> 48u8 <= #[trigger] w[i] <= 57u8,
        !(48u8 <= w[dl] <= 57u8),
    ensures
        digit_run(w, x, w.len() as int) == dl - x,
    decreases dl - x,
{
    if x < dl {
        lemma_digits_to(w, x + 1, dl);
    }
}

/// A line that opens with the marker of item `k` reads that marker.
proof fn lemma_mark_read(ordered: bool, k: nat, rest: Seq<u8>)
    requires
        k >= 1,
        ordered ==> k < 1000000000,
    ensures
        marker_of(marker(ordered, k) + rest, 0, (marker(ordered, k) + rest).len() as int) == Some(
            (marker(ordered, k).len() as usize, ordered),
        ),
{
    let m = marker(ordered, k);
    let w = m + rest;
    if ordered {
        lemma_decimal_nine(k);
        let dl = decimal(k).len() as int;
        assert forall|i: int| 0 <= i < dl implies 48u8 <= #[trigger] w[i] <= 57u8 by {
            assert(w[i] == decimal(k)[i]);
        }
        assert(w[dl] == 46u8);
        assert(w[dl + 1] == 32u8);
        lemma_digits_to(w, 0, dl);
        assert(w[0] == decimal(k)[0]);
    }
}

/// Whether `t` holds a byte other than a space.
pub open spec fn nonblank(t: Seq<u8>) -> bool {
    exists|q: int| 0 <= q < t.len() && #[trigger] t[q] != 32u8
}

/// Whether every line is one line of valid UTF-8 with a byte other than a
/// space.
pub open spec fn item_texts_ok(ts: Seq<Seq<u8>>) -> bool {
    &&& lines_ok(ts)
    &&& forall|y: int| 0 <= y < ts.len() ==> nonblank(#[trigger] ts[y])
}

/// The lines of the first `x + 1` items: those of the first `x`, then
/// those of item `x`.
proof fn lemma_lines_step(its: Seq<BlockNode>, d: nat, o: bool, x: int)
    requires
        0 <= x < its.len(),
    ensures
        items_lines(its.take(x + 1), d, o) == items_lines(its.take(x), d, o) + item_lines(
            its[x],
            d,
            marker(o, (x + 1) as nat),
        ),
        item_lines(its[x], d, marker(o, (x + 1) as nat)).len() >= 1,
{
    let t = its.take(x + 1);
    assert(t.drop_last() == its.take(x));
    assert(t.last() == its[x]);
}

/// The lines of the first `x` items start those of the first `m`.
proof fn lemma_lines_prefix(its: Seq<BlockNode>, d: nat, o: bool, x: int, m: int)
    requires
        0 <= x <= m <= its.len(),
    ensures
        items_lines(its.take(x), d, o).len() <= items_lines(its.take(m), d, o).len(),
        items_lines(its.take(m), d, o).take(items_lines(its.take(x), d, o).len() as int) == items_lines(
            its.take(x),
            d,
            o,
        ),
        x < m ==> items_lines(its.take(x), d, o).len() < items_lines(its.take(m), d, o).len(),
    decreases m - x,
{
    if x < m {
        lemma_lines_prefix(its, d, o, x, m - 1);
        lemma_lines_step(its, d, o, m - 1);
        let a = items_lines(its.take(m - 1), d, o);
        let b = items_lines(its.take(m), d, o);
        let k = items_lines(its.take(x), d, o).len() as int;
        assert(b.take(k) =~= a.take(k));
    } else {
        let b = items_lines(its.take(m), d, o);
        assert(b.take(b.len() as int) =~= b);
    }
}

/// Indented lines stay well-formed lines.
proof fn lemma_indent_ok(ks: Seq<Seq<u8>>, w: nat)
    requires
        item_texts_ok(ks),
    ensures
        item_texts_ok(indent_all(ks, spaces(w))),
        forall|y: int| 0 <= y < ks.len() ==> #[trigger] indent_all(ks, spaces(w))[y] == spaces(w) + ks[y],
{
    let sp = spaces(w);
    assert forall|x: int| 0 <= x < sp.len() implies sp[x] < 0x80 by {}
    lemma_ascii_valid(sp);
    let is = indent_all(ks, sp);
    assert forall|y: int| 0 <= y < is.len() implies one_line(#[trigger] is[y]) && valid_utf8(is[y]) && nonblank(is[y]) by {
        let u = ks[y];
        assert(one_line(u) && valid_utf8(u) && nonblank(u));
        assert(is[y] == sp + u);
        valid_utf8_concat(sp, u);
        assert forall|i: int| 0 <= i < is[y].len() implies #[trigger] is[y][i] != 10u8 by {
            if i >= w {
                assert(is[y][i] == u[i - w]);
            }
        }
        let q = choose|q: int| 0 <= q < u.len() && #[trigger] u[q] != 32u8;
        assert(is[y][q + w] == u[q]);
    }
}

/// A plain item writes its lines after `mark`: its first line, then its
/// nested list indented under it.
proof fn lemma_md_item(n: BlockNode, d: nat, mark: Seq<u8>)
    requires
        plain_item(n, d),
        mark_ok(mark),
    ensures
        md_item(n, mark) == join(item_lines(n, d, mark)),
        item_texts_ok(item_lines(n, d, mark)),
        item_lines(n, d, mark).len() >= 1,
        item_lines(n, d, mark)[0] == item_line(n, mark),
    decreases d, 0nat, 0int,
{
    if let BlockNode::ListItem { children, checked, .. } = n {
        let p = children@[0];
        assert(plain_block(p));
        lemma_md_plain(p);
        let t = ptext(p);
        assert(written(p) == t);
        assert(plain_line(t));
        let head = item_line(n, mark);
        let mk = mark + task_box(checked);
        assert forall|x: int| 0 <= x < mk.len() implies mk[x] < 0x80 by {
            if x < mark.len() {
                assert(mk[x] == mark[x]);
            }
        }
        lemma_ascii_valid(mk);
        valid_utf8_concat(mk, t);
        assert(head == mk + t);
        assert forall|x: int| 0 <= x < head.len() implies #[trigger] head[x] != 10u8 by {
            if x < mark.len() {
                assert(head[x] == mark[x]);
            } else if x >= mk.len() {
                assert(head[x] == t[x - mk.len()]);
            }
        }
        assert(head[0] == mark[0]);
        assert(nonblank(head));
        let sp = spaces(mark.len());
        if children@.len() == 1 {
            assert(md_tight(children@) == md_node(p));
            lemma_indent_rest(t, sp, 0);
            assert(t.subrange(0, t.len() as int) =~= t);
            assert(item_sub(n).len() == 0);
            assert(item_lines(n, d, mark) == seq![head]);
            assert(join(seq![head]) == head);
            assert(md_item(n, mark) == mk + indent_from(md_tight(children@), sp, 0));
            assert(item_texts_ok(item_lines(n, d, mark))) by {
                assert forall|y: int| 0 <= y < item_lines(n, d, mark).len() implies one_line(
                    #[trigger] item_lines(n, d, mark)[y],
                ) && valid_utf8(item_lines(n, d, mark)[y]) && nonblank(item_lines(n, d, mark)[y]) by {
                    assert(item_lines(n, d, mark)[y] == head);
                }
            }
        } else {
            let l = children@[1];
            if let BlockNode::List { children: ksv, ordered } = l {
                let ks = ksv@;
                let e = (d - 1) as nat;
                assert(d > 0);
                lemma_items_ok(ks, e, ks.len() as int);
                assert(forall|i: int| 0 <= i < ks.len() ==> #[trigger] plain_item(ks[i], e));
                lemma_md_items(ks, e, ordered, ks.len() as int);
                assert(ks.take(ks.len() as int) == ks);
                let kl = items_lines(ks, e, ordered);
                assert(item_sub(n) == ks);
                assert(item_sub_ordered(n) == ordered);
                let il = indent_all(kl, sp);
                lemma_indent_ok(kl, mark.len());
                assert(item_lines(n, d, mark) == seq![head] + il);
                assert(children@.drop_last() =~= seq![p]);
                assert(md_tight(seq![p]) == md_node(p));
                assert(md_tight(children@) == md_node(p) + seq![10u8] + md_node(l));
                assert(md_node(l) == md_items(ks, ordered));
                lemma_join_concat(seq![t], kl);
                assert(join(seq![t]) == t);
                let tl = seq![t] + kl;
                assert forall|y: int| 0 <= y < tl.len() implies one_line(#[trigger] tl[y]) by {
                    if y > 0 {
                        assert(tl[y] == kl[y - 1]);
                    }
                }
                lemma_indent_lines(tl, sp);
                assert(indent_tail(tl, sp) =~= seq![t] + il);
                lemma_join_concat(seq![t], il);
                lemma_join_concat(seq![head], il);
                assert(join(seq![head]) == head);
                assert(md_item(n, mark) == mk + indent_from(md_tight(children@), sp, 0));
                assert(mk + (t + seq![10u8] + join(il)) =~= head + seq![10u8] + join(il));
                assert(item_texts_ok(item_lines(n, d, mark))) by {
                    assert forall|y: int| 0 <= y < item_lines(n, d, mark).len() implies one_line(
                        #[trigger] item_lines(n, d, mark)[y],
                    ) && valid_utf8(item_lines(n, d, mark)[y]) && nonblank(item_lines(n, d, mark)[y]) by {
                        if y == 0 {
                            assert(item_lines(n, d, mark)[y] == head);
                        } else {
                            assert(item_lines(n, d, mark)[y] == il[y - 1]);
                        }
                    }
                }
            }
        }
    }
}

/// The first `m` plain items of a list write their lines, joined.
proof fn lemma_md_items(its: Seq<BlockNode>, d: nat, o: bool, m: int)
    requires
        all_plain_items(its, d),
        1 <= m <= its.len(),
        o ==> its.len() < 1000000000,
    ensures
        md_items(its.take(m), o) == join(items_lines(its.take(m), d, o)),
        item_texts_ok(items_lines(its.take(m), d, o)),
        items_lines(its.take(m), d, o).len() >= 1,
    decreases d, m, 1int,
{
    let mk = marker(o, m as nat);
    lemma_marker_ok(o, m as nat);
    assert(plain_item(its[m - 1], d));
    lemma_md_item(its[m - 1], d, mk);
    lemma_lines_step(its, d, o, m - 1);
    let t = its.take(m);
    let il = item_lines(its[m - 1], d, mk);
    assert(t.last() == its[m - 1]);
    if m == 1 {
        assert(its.take(0) == Seq::<BlockNode>::empty());
        assert(items_lines(its.take(0), d, o) == Seq::<Seq<u8>>::empty());
        assert(items_lines(t, d, o) =~= il);
        assert(t.len() == 1);
        assert(md_items(t, o) == md_item(t[0], marker(o, 1)));
    } else {
        lemma_md_items(its, d, o, m - 1);
        let a = items_lines(its.take(m - 1), d, o);
        assert(t.drop_last() == its.take(m - 1));
        assert(md_items(t, o) == md_items(its.take(m - 1), o) + seq![10u8] + md_item(its[m - 1], marker(o, t.len())));
        lemma_join_concat(a, il);
        assert forall|y: int| 0 <= y < items_lines(t, d, o).len() implies one_line(#[trigger] items_lines(t, d, o)[y])
            && valid_utf8(items_lines(t, d, o)[y]) && nonblank(items_lines(t, d, o)[y]) by {
            if y < a.len() {
                assert(items_lines(t, d, o)[y] == a[y]);
            } else {
                assert(items_lines(t, d, o)[y] == il[y - a.len()]);
            }
        }
    }
}

/// One line of plain text reads as one unformatted paragraph, wherever it
/// stands in the source.
proof fn lemma_line_paragraph(src: Seq<u8>, a: int, e: int, t: Seq<u8>, fuel: nat)
    requires
        0 <= a <= e <= src.len() <= usize::MAX,
        src.subrange(a, e) == t,
        plain_line(t),
    ensures
        blocks_from(src, seq![(a as usize, e as usize)], 0, fuel, seq![]) == seq![
            BlockForm::Paragraph(
                ParaView { id: 0, text: t, marks: Seq::new(t.len(), |_i: int| plain_mark()) },
            ),
        ],
{
    let lines = seq![(a as usize, e as usize)];
    assert(src[a] == t[0]) by {
        assert(src.subrange(a, e)[0] == src[a]);
    }
    assert(!line_is_blank(src, lines[0]));
    assert(lead(src, a, e) == 0);
    lemma_marker_shift(src, t, a);
    assert(marker_of(src, a, e) is None);
    assert forall|i: int| a <= i < e implies #[trigger] src[i] != 42u8 && src[i] != 96u8 && src[i] != 126u8 by {
        assert(src[i] == src.subrange(a, e)[i - a]);
    }
    lemma_inline_plain(src, a, a, e, plain_state(), Seq::empty(), Seq::empty());
    let ms = Seq::new(t.len(), |_i: int| plain_mark());
    assert(mark_of(plain_state()) == plain_mark());
    assert(Seq::<u8>::empty() + src.subrange(a, e) == t);
    assert(Seq::<TextMark>::empty() + Seq::new((e - a) as nat, |_i: int| mark_of(plain_state())) == ms);
    let r = inline_read(src, a, a, e, plain_state(), Seq::empty(), Seq::empty());
    assert(para_read(src, lines, 0, 1, 1, 0, r.2, r.0, r.1) == (r.0, r.1));
    let pv = ParaView { id: 0, text: t, marks: ms };
    assert(paragraph_of(src, lines, 0, 1, 0) == pv);
    assert(para_end(src, lines, 1) == 1);
    let f = BlockForm::Paragraph(pv);
    assert(blocks_from(src, lines, 1, fuel, seq![f]) == seq![f]);
    if src[a] == 33u8 {
        assert(false);
    }
    assert(blocks_from(src, lines, 0, fuel, seq![]) == blocks_from(src, lines, 1, fuel, Seq::<BlockForm>::empty().push(f)));
    assert(Seq::<BlockForm>::empty().push(f) == seq![f]);
}

/// A text copied into a source shows a task box there just when it opens
/// with one.
proof fn lemma_task_shift(src: Seq<u8>, t: Seq<u8>, o: int)
    requires
        0 <= o,
        o + t.len() <= src.len(),
        src.subrange(o, o + t.len()) == t,
    ensures
        task_at(src, o, o + t.len()) == task_at(t, 0, t.len() as int),
{
    if t.len() >= 4 {
        assert(src[o] == t[0]);
        assert(src[o + 1] == t[1]);
        assert(src[o + 2] == t[2]);
        assert(src[o + 3] == t[3]);
    }
}

/// What a block of a plain document writes is its Markdown: valid UTF-8,
/// and not empty.
proof fn lemma_md_written(n: BlockNode)
    requires
        doc_block(n),
    ensures
        md_node(n) == written(n),
        valid_utf8(written(n)),
        written(n).len() > 0,
        plain_block(n) ==> forall|i: int| 0 <= i < written(n).len() ==> #[trigger] written(n)[i] != 10u8,
{
    if plain_block(n) {
        lemma_md_plain(n);
        if plain_paragraph(n) {
            assert(plain_line(ptext(n)));
        } else if let BlockNode::Heading { level, children } = n {
            assert(written(n).len() == level + 1 + children@.text.len());
        }
    } else if let BlockNode::List { children, ordered } = n {
        let its = children@;
        let d = list_bound(n);
        lemma_md_items(its, d, ordered, its.len() as int);
        assert(its.take(its.len() as int) == its);
        let tl = items_lines(its, d, ordered);
        lemma_join_valid(tl, tl.len() as int);
        assert(tl.take(tl.len() as int) == tl);
        assert(plain_item(its[0], d));
        lemma_marker_ok(ordered, 1);
        lemma_md_item(its[0], d, marker(ordered, 1));
        lemma_item_lines_at(its, d, ordered, 0);
        lemma_join_layout(tl, 0);
        assert(tl[0] == item_line(its[0], marker(ordered, 1)));
    }
}

/// The places of lines `x..` of the texts `ts`, joined and written at
/// byte `o`.
pub open spec fn placed(ts: Seq<Seq<u8>>, o: int, x: int) -> Seq<(usize, usize)> {
    Seq::new(
        (ts.len() - x) as nat,
        |y: int| ((o + line_start(ts, x + y)) as usize, (o + line_end(ts, x + y)) as usize),
    )
}

/// Reading the lines of joined texts written at byte `o` of the source:
/// one line per text, then on after the line break that ends them, if any.
#[verifier::spinoff_prover]
#[verifier::rlimit(100)]
proof fn lemma_join_embedded(src: Seq<u8>, o: int, ts: Seq<Seq<u8>>, x: int, acc: Seq<(usize, usize)>)
    requires
        lines_ok(ts),
        0 <= x < ts.len(),
        0 <= o,
        o + join(ts).len() <= src.len() <= usize::MAX,
        src.subrange(o, o + join(ts).len()) == join(ts),
        o + join(ts).len() < src.len() ==> src[o + join(ts).len()] == 10u8,
    ensures
        o + join(ts).len() == src.len() ==> lines_from(src, o + line_start(ts, x), o + line_start(ts, x), acc) == acc
            + placed(ts, o, x),
        o + join(ts).len() < src.len() ==> lines_from(src, o + line_start(ts, x), o + line_start(ts, x), acc)
            == lines_from(src, o + join(ts).len() + 1, o + join(ts).len() + 1, acc + placed(ts, o, x)),
    decreases ts.len() - x,
{
    let w = join(ts);
    let m = ts.len() as int;
    lemma_join_layout(ts, x);
    let st = o + line_start(ts, x);
    let en = o + line_end(ts, x);
    assert(one_line(ts[x]));
    assert forall|i: int| st <= i < en implies #[trigger] src[i] != 10u8 by {
        assert(src[i] == src.subrange(o, o + w.len())[i - o]);
        assert(w[i - o] == w.subrange(line_start(ts, x), line_end(ts, x))[i - st]);
        assert(ts[x][i - st] != 10u8);
    }
    let acc1 = acc.push((st as usize, en as usize));
    if x + 1 < m {
        assert(src[en] == 10u8) by {
            assert(src[en] == src.subrange(o, o + w.len())[en - o]);
        }
        lemma_lines_advance(src, st, en, st, acc);
        lemma_join_layout(ts, x + 1);
        lemma_join_embedded(src, o, ts, x + 1, acc1);
        assert(acc1 + placed(ts, o, x + 1) =~= acc + placed(ts, o, x));
    } else {
        assert(en == o + w.len());
        assert(placed(ts, o, x) =~= seq![(st as usize, en as usize)]);
        assert(acc1 == acc + placed(ts, o, x));
        if en == src.len() {
            lemma_lines_one(src, st, st, acc);
        } else {
            assert(src[en] == 10u8);
            lemma_lines_advance(src, st, en, st, acc);
        }
    }
}

/// Lines placed where joined texts are written hold those texts.
proof fn lemma_placed_holds(src: Seq<u8>, lines: Seq<(usize, usize)>, b: int, o: int, ts: Seq<Seq<u8>>)
    requires
        0 <= b,
        b + ts.len() <= lines.len(),
        lines.subrange(b, b + ts.len()) == placed(ts, o, 0),
        0 <= o,
        o + join(ts).len() <= src.len(),
        src.subrange(o, o + join(ts).len()) == join(ts),
        src.len() <= usize::MAX,
    ensures
        holds(src, lines, b, ts),
{
    let w = join(ts);
    assert forall|k: int| b <= k < b + ts.len() implies 0 <= (#[trigger] lines[k]).0 <= lines[k].1 <= src.len()
        && src.subrange(lines[k].0 as int, lines[k].1 as int) == ts[k - b] by {
        let y = k - b;
        lemma_join_layout(ts, y);
        assert(lines[k] == lines.subrange(b, b + ts.len())[y]);
        assert(lines[k] == ((o + line_start(ts, y)) as usize, (o + line_end(ts, y)) as usize));
        assert(src.subrange(o + line_start(ts, y), o + line_end(ts, y)) =~= ts[y]) by {
            assert forall|q: int| 0 <= q < ts[y].len() implies src.subrange(o + line_start(ts, y), o + line_end(ts, y))[q]
                == ts[y][q] by {
                assert(src[o + line_start(ts, y) + q] == src.subrange(o, o + w.len())[line_start(ts, y) + q]);
                assert(w[line_start(ts, y) + q] == w.subrange(line_start(ts, y), line_end(ts, y))[q]);
            }
        }
    }
}

/// The line break after block `j`: a blank line.
pub open spec fn sep(s: Seq<BlockNode>, j: int) -> (usize, usize) {
    ((md_end(s, j) + 1) as usize, (md_end(s, j) + 1) as usize)
}

/// The lines block `j` writes: each item of a list, else one.
pub open spec fn block_lines(s: Seq<BlockNode>, j: int) -> Seq<(usize, usize)> {
    if plain_list(s[j]) {
        placed(items_lines(list_items(s[j]), list_bound(s[j]), list_ordered(s[j])), md_start(s, j), 0)
    } else {
        seq![(md_start(s, j) as usize, md_end(s, j) as usize)]
    }
}

/// The lines of the Markdown of the blocks from block `j` on.
pub open spec fn doc_lines(s: Seq<BlockNode>, j: int) -> Seq<(usize, usize)>
    decreases s.len() - j,
{
    if 0 <= j < s.len() {
        if j + 1 < s.len() {
            block_lines(s, j) + seq![sep(s, j)] + doc_lines(s, j + 1)
        } else {
            block_lines(s, j)
        }
    } else {
        seq![]
    }
}

/// Reading the lines of the Markdown of the blocks from block `j` on.
proof fn lemma_lines_doc(s: Seq<BlockNode>, j: int, acc: Seq<(usize, usize)>)
    requires
        all_plain(s),
        0 <= j < s.len(),
        md_blocks(s).len() <= usize::MAX,
    ensures
        lines_from(md_blocks(s), md_start(s, j), md_start(s, j), acc) == acc + doc_lines(s, j),
    decreases s.len() - j,
{
    let src = md_blocks(s);
    let k = s.len() as int;
    lemma_layout(s, j);
    let st = md_start(s, j);
    let en = md_end(s, j);
    assert(doc_block(s[j]));
    lemma_md_written(s[j]);
    let w = written(s[j]);
    let bl = block_lines(s, j);
    if plain_list(s[j]) {
        let its = list_items(s[j]);
        let o = list_ordered(s[j]);
        let tl = items_lines(its, list_bound(s[j]), o);
        assert(w == md_items(its, o));
        lemma_md_items(its, list_bound(s[j]), o, its.len() as int);
        assert(its.take(its.len() as int) == its);
        assert(w == join(tl));
        if j + 1 < k {
            assert(src[en] == 10u8);
        }
        assert(line_start(tl, 0) == 0);
        lemma_join_embedded(src, st, tl, 0, acc);
        if j + 1 < k {
            let acc2 = acc + bl;
            lemma_lines_advance(src, en + 1, en + 1, en + 1, acc2);
            lemma_lines_doc(s, j + 1, acc2.push(sep(s, j)));
            assert(acc2.push(sep(s, j)) + doc_lines(s, j + 1) =~= acc + doc_lines(s, j));
        }
    } else {
        assert forall|i: int| st <= i < en implies #[trigger] src[i] != 10u8 by {
            assert(src[i] == src.subrange(st, en)[i - st]);
            assert(w[i - st] != 10u8);
        }
        if j + 1 == k {
            lemma_lines_one(src, st, st, acc);
            assert(acc.push((st as usize, src.len() as usize)) =~= acc + bl);
        } else {
            lemma_lines_advance(src, st, en, st, acc);
            let acc1 = acc.push((st as usize, en as usize));
            lemma_lines_advance(src, en + 1, en + 1, en + 1, acc1);
            lemma_lines_doc(s, j + 1, acc1.push(sep(s, j)));
            assert(acc1.push(sep(s, j)) + doc_lines(s, j + 1) =~= acc + doc_lines(s, j));
        }
    }
}

/// Reading the line of a plain paragraph or heading `n`, written at
/// `st..en` and followed by a blank line or nothing, adds its form.
#[verifier::spinoff_prover]
#[verifier::rlimit(100)]
proof fn lemma_block_step(
    src: Seq<u8>,
    lines: Seq<(usize, usize)>,
    b: int,
    st: int,
    en: int,
    n: BlockNode,
    fuel: nat,
    out: Seq<BlockForm>,
)
    requires
        plain_paragraph(n) || plain_heading(n),
        0 <= st <= en <= src.len() <= usize::MAX,
        src.subrange(st, en) == written(n),
        0 <= b < lines.len(),
        lines[b] == (st as usize, en as usize),
        b + 1 == lines.len() || line_is_blank(src, lines[b + 1]),
        fuel > 0,
    ensures
        blocks_from(src, lines, b, fuel, out) == blocks_from(src, lines, b + 1, fuel, out.push(node_form(n))),
{
    let t = ptext(n);
    let w = written(n);
    assert(plain_block(n));
    lemma_md_plain(n);
    lemma_plain_form(n);
    assert forall|i: int| st <= i < en implies #[trigger] src[i] == w[i - st] by {
        assert(src.subrange(st, en)[i - st] == src[i]);
    }
    let cut: int = if plain_heading(n) { w.len() - t.len() } else { 0 };
    assert(0 <= cut <= w.len() && w.subrange(cut, w.len() as int) == t) by {
        if plain_heading(n) {
            assert(w.subrange(cut, w.len() as int) =~= t);
        } else {
            assert(w.subrange(0, w.len() as int) =~= t);
        }
    }
    assert(w.len() > 0 && w[0] != 32u8) by {
        if plain_paragraph(n) {
            assert(plain_line(t));
        } else {
            assert(w[0] == 35u8);
        }
    }
    assert(!line_is_blank(src, lines[b])) by {
        assert(src[st] == w[0]);
    }
    assert(lead(src, st, en) == 0) by {
        assert(src[st] == w[0]);
    }
    assert forall|i: int| st + cut <= i < en implies #[trigger] src[i] != 42u8 && src[i] != 96u8 && src[i] != 126u8 by {
        assert(src[i] == w[i - st]);
        assert(w[i - st] == t[i - st - cut]);
    }
    lemma_inline_plain(src, st + cut, st + cut, en, plain_state(), Seq::empty(), Seq::empty());
    let ms = Seq::new(t.len(), |_i: int| plain_mark());
    assert(mark_of(plain_state()) == plain_mark());
    assert(src.subrange(st + cut, en) =~= t) by {
        assert forall|i: int| 0 <= i < t.len() implies src.subrange(st + cut, en)[i] == t[i] by {
            assert(src[st + cut + i] == w[cut + i]);
        }
    }
    assert(Seq::<u8>::empty() + src.subrange(st + cut, en) == t);
    assert(Seq::<TextMark>::empty() + Seq::new((en - (st + cut)) as nat, |_i: int| mark_of(plain_state())) == ms);
    let r = inline_read(src, st + cut, st + cut, en, plain_state(), Seq::empty(), Seq::empty());
    assert(para_read(src, lines, b, b + 1, b + 1, cut, r.2, r.0, r.1) == (r.0, r.1));
    let pv = plain_view(n);
    assert(paragraph_of(src, lines, b, b + 1, cut) == pv);
    assert(para_end(src, lines, b + 1) == b + 1);
    if plain_paragraph(n) {
        assert(plain_line(t));
        assert(src[st] == t[0]);
        lemma_marker_shift(src, t, st);
        assert(src.subrange(st, en) =~= t);
        assert(marker_of(src, st, en) is None);
    } else {
        if let BlockNode::Heading { level, .. } = n {
            assert forall|i: int| st <= i < st + level implies #[trigger] src[i] == 35u8 by {
                assert(src[i] == w[i - st]);
            }
            assert(src[st + level] == w[level as int]);
            lemma_hash_run(src, st, en, level as int, 0);
            assert(src[st] == 35u8);
            assert(level_of(src, st, en) == level);
        }
    }
}

/// Reading the line of a one-line table or image `n`, written at `st..en`
/// and followed by a blank line or nothing, adds its form.
proof fn lemma_source_step(
    src: Seq<u8>,
    lines: Seq<(usize, usize)>,
    b: int,
    st: int,
    en: int,
    n: BlockNode,
    fuel: nat,
    out: Seq<BlockForm>,
)
    requires
        plain_unsupported(n),
        0 <= st <= en <= src.len() <= usize::MAX,
        src.subrange(st, en) == written(n),
        0 <= b < lines.len(),
        lines[b] == (st as usize, en as usize),
        b + 1 == lines.len() || line_is_blank(src, lines[b + 1]),
        fuel > 0,
    ensures
        blocks_from(src, lines, b, fuel, out) == blocks_from(src, lines, b + 1, fuel, out.push(node_form(n))),
{
    let w = written(n);
    assert(plain_block(n));
    lemma_md_plain(n);
    assert forall|i: int| st <= i < en implies #[trigger] src[i] == w[i - st] by {
        assert(src.subrange(st, en)[i - st] == src[i]);
    }
    assert(w.len() > 0 && w[0] != 32u8);
    assert(!line_is_blank(src, lines[b])) by {
        assert(src[st] == w[0]);
    }
    assert(lead(src, st, en) == 0) by {
        assert(src[st] == w[0]);
    }
    assert(src[st] == w[0]);
    if w.len() >= 2 {
        assert(src[st + 1] == w[1]);
    }
    assert(crate::markdown::blank_from(src, lines, b + 1) == b + 1);
    let joined = crate::markdown::joined(src, lines, b, b + 1);
    assert(lines[b].0 as int == st && lines[b].1 as int == en);
    let x = Seq::<u8>::empty() + src.subrange(st, en);
    assert(crate::markdown::join_from(src, lines, b, b + 1, b + 1, x) == x);
    assert(crate::markdown::join_from(src, lines, b, b, b + 1, Seq::empty()) == crate::markdown::join_from(
        src,
        lines,
        b,
        b + 1,
        b + 1,
        x,
    ));
    assert(joined == x);
    if let BlockNode::Unsupported { source } = n {
        encode_utf8_decode_utf8(source@);
        assert(decode_utf8(joined) == source@);
    }
}

/// Lines `b..` hold the texts `ts`, in order.
pub open spec fn holds(src: Seq<u8>, lines: Seq<(usize, usize)>, b: int, ts: Seq<Seq<u8>>) -> bool {
    &&& 0 <= b
    &&& b + ts.len() <= lines.len()
    &&& forall|k: int|
        b <= k < b + ts.len() ==> 0 <= (#[trigger] lines[k]).0 <= lines[k].1 <= src.len() && src.subrange(
            lines[k].0 as int,
            lines[k].1 as int,
        ) == ts[k - b]
}

/// A list stops at line `k`: after the last line, or at a blank line after
/// which no item of a list of its kind follows.
pub open spec fn list_stop(src: Seq<u8>, lines: Seq<(usize, usize)>, k: int, o: bool) -> bool {
    ||| k == lines.len()
    ||| (0 <= k < lines.len() && line_is_blank(src, lines[k]) && !(nonblank_from(src, lines, k + 1) < lines.len()
        && same_list(src, lines[nonblank_from(src, lines, k + 1)], o, 0)))
}

/// Where the lines of item `x` start among those of the items.
pub open spec fn item_at(its: Seq<BlockNode>, d: nat, o: bool, x: int) -> int {
    items_lines(its.take(x), d, o).len() as int
}

/// Lines `b..` hold the lines of a list of plain items nested at most `d`
/// deep, ordered when `o`, and the list stops after them.
pub open spec fn list_at(
    src: Seq<u8>,
    lines: Seq<(usize, usize)>,
    b: int,
    its: Seq<BlockNode>,
    d: nat,
    o: bool,
) -> bool {
    &&& all_plain_items(its, d)
    &&& its.len() > 0
    &&& (o ==> its.len() < 1000000000)
    &&& src.len() <= usize::MAX
    &&& holds(src, lines, b, items_lines(its, d, o))
    &&& list_stop(src, lines, b + items_lines(its, d, o).len(), o)
}

/// The lines `k..k + c`, each `w` bytes in.
pub open spec fn sub_lines(lines: Seq<(usize, usize)>, k: int, c: int, w: int) -> Seq<(usize, usize)> {
    Seq::new(c as nat, |i: int| ((lines[k + i].0 + w) as usize, lines[k + i].1))
}

/// A run of `w` spaces opens the indentation.
proof fn lemma_lead_spaces(src: Seq<u8>, s: int, e: int, w: int)
    requires
        0 <= w,
        s + w <= e,
        forall|i: int| 0 <= i < w ==> #[trigger] src[s + i] == 32u8,
    ensures
        lead(src, s, e) >= w,
    decreases w,
{
    if w > 0 {
        assert(src[s + 0] == 32u8);
        assert forall|i: int| 0 <= i < w - 1 implies #[trigger] src[(s + 1) + i] == 32u8 by {
            assert(src[s + (i + 1)] == 32u8);
        }
        lemma_lead_spaces(src, s + 1, e, w - 1);
    }
}

/// What a line shows of its text: blank just when the text is, and its
/// indentation.
proof fn lemma_content(src: Seq<u8>, l: (usize, usize), t: Seq<u8>)
    requires
        0 <= l.0 <= l.1 <= src.len(),
        src.subrange(l.0 as int, l.1 as int) == t,
    ensures
        line_is_blank(src, l) <==> !nonblank(t),
        forall|i: int| 0 <= i < t.len() ==> #[trigger] src[l.0 + i] == t[i],
        t.len() > 0 && t[0] != 32u8 ==> lead(src, l.0 as int, l.1 as int) == 0,
{
    let s = l.0 as int;
    let e = l.1 as int;
    assert forall|i: int| 0 <= i < t.len() implies #[trigger] src[s + i] == t[i] by {
        assert(src.subrange(s, e)[i] == src[s + i]);
    }
    if line_is_blank(src, l) {
        if nonblank(t) {
            let q = choose|q: int| 0 <= q < t.len() && #[trigger] t[q] != 32u8;
            assert(src[s + q] == t[q]);
        }
    } else {
        let q = choose|q: int| s <= q < e && src[q] != 32u8;
        assert(t[q - s] == src[s + (q - s)]);
        assert(nonblank(t));
    }
    if t.len() > 0 && t[0] != 32u8 {
        assert(src[s] == t[0]);
    }
}

/// The lines of a nested list, indented under its item, are what the
/// item reads past its first line.
proof fn lemma_item_run(src: Seq<u8>, lines: Seq<(usize, usize)>, k: int, ks: Seq<Seq<u8>>, y: int, w: nat)
    requires
        holds(src, lines, k, indent_all(ks, spaces(w))),
        item_texts_ok(ks),
        0 <= y <= ks.len(),
        k + ks.len() < lines.len() ==> line_is_blank(src, lines[k + ks.len()]) || lead(
            src,
            lines[k + ks.len()].0 as int,
            lines[k + ks.len()].1 as int,
        ) < w,
    ensures
        item_run(src, lines, k + y, w as int) == sub_lines(lines, k, ks.len() as int, w as int).skip(y),
    decreases ks.len() - y,
{
    let c = ks.len() as int;
    if y < c {
        let l = lines[k + y];
        lemma_indent_ok(ks, w);
        let u = indent_all(ks, spaces(w))[y];
        assert(u == spaces(w) + ks[y]);
        assert(src.subrange(l.0 as int, l.1 as int) == u);
        lemma_content(src, l, u);
        assert forall|i: int| 0 <= i < w implies #[trigger] src[l.0 + i] == 32u8 by {
            assert(src[l.0 + i] == u[i]);
        }
        lemma_lead_spaces(src, l.0 as int, l.1 as int, w as int);
        assert(nonblank(u));
        lemma_item_run(src, lines, k, ks, y + 1, w);
        assert(sub_lines(lines, k, c, w as int).skip(y) =~= seq![((l.0 + w) as usize, l.1)] + sub_lines(
            lines,
            k,
            c,
            w as int,
        ).skip(y + 1));
    } else {
        assert(sub_lines(lines, k, c, w as int).skip(c) =~= Seq::<(usize, usize)>::empty());
    }
}

/// The lines of a nested list, two bytes in, hold its own lines.
proof fn lemma_sub_holds(src: Seq<u8>, lines: Seq<(usize, usize)>, k: int, ks: Seq<Seq<u8>>, w: nat)
    requires
        holds(src, lines, k, indent_all(ks, spaces(w))),
        item_texts_ok(ks),
    ensures
        holds(src, sub_lines(lines, k, ks.len() as int, w as int), 0, ks),
{
    let sub = sub_lines(lines, k, ks.len() as int, w as int);
    lemma_indent_ok(ks, w);
    assert forall|i: int| 0 <= i < ks.len() implies 0 <= (#[trigger] sub[i]).0 <= sub[i].1 <= src.len()
        && src.subrange(sub[i].0 as int, sub[i].1 as int) == ks[i - 0] by {
        let l = lines[k + i];
        let u = indent_all(ks, spaces(w))[i];
        assert(src.subrange(l.0 as int, l.1 as int) == u);
        assert(u == spaces(w) + ks[i]);
        assert(src.subrange(l.0 + w, l.1 as int) =~= ks[i]) by {
            assert forall|q: int| 0 <= q < ks[i].len() implies src.subrange(l.0 + w, l.1 as int)[q] == ks[i][q] by {
                assert(src.subrange(l.0 as int, l.1 as int)[q + w] == u[q + w]);
            }
        }
    }
}

/// Where the lines of item `x` stand among those of the items.
proof fn lemma_item_lines_at(its: Seq<BlockNode>, d: nat, o: bool, x: int)
    requires
        all_plain_items(its, d),
        0 <= x < its.len(),
        o ==> its.len() < 1000000000,
    ensures
        item_at(its, d, o, 0) == 0,
        item_at(its, d, o, its.len() as int) == items_lines(its, d, o).len(),
        item_at(its, d, o, x + 1) == item_at(its, d, o, x) + item_lines(its[x], d, marker(o, (x + 1) as nat)).len(),
        item_at(its, d, o, x + 1) <= items_lines(its, d, o).len(),
        forall|y: int|
            0 <= y < item_lines(its[x], d, marker(o, (x + 1) as nat)).len() ==> items_lines(its, d, o)[item_at(
                its,
                d,
                o,
                x,
            ) + y] == #[trigger] item_lines(its[x], d, marker(o, (x + 1) as nat))[y],
        x + 1 < its.len() ==> items_lines(its, d, o)[item_at(its, d, o, x + 1)] == item_line(
            its[x + 1],
            marker(o, (x + 2) as nat),
        ),
        x + 1 < its.len() ==> item_at(its, d, o, x + 1) < items_lines(its, d, o).len(),
{
    let m = its.len() as int;
    let tl = items_lines(its, d, o);
    assert(its.take(m) == its);
    assert(its.take(0) == Seq::<BlockNode>::empty());
    assert(items_lines(Seq::<BlockNode>::empty(), d, o).len() == 0);
    lemma_lines_step(its, d, o, x);
    lemma_lines_prefix(its, d, o, x + 1, m);
    let a = items_lines(its.take(x), d, o);
    let il = item_lines(its[x], d, marker(o, (x + 1) as nat));
    assert forall|y: int| 0 <= y < il.len() implies tl[item_at(its, d, o, x) + y] == #[trigger] il[y] by {
        assert(tl.take((a.len() + il.len()) as int)[a.len() + y] == (a + il)[a.len() + y]);
    }
    if x + 1 < m {
        lemma_lines_step(its, d, o, x + 1);
        lemma_lines_prefix(its, d, o, x + 2, m);
        assert(plain_item(its[x + 1], d));
        lemma_marker_ok(o, (x + 2) as nat);
        lemma_md_item(its[x + 1], d, marker(o, (x + 2) as nat));
        let b = items_lines(its.take(x + 1), d, o);
        let jl = item_lines(its[x + 1], d, marker(o, (x + 2) as nat));
        assert(tl.take((b.len() + jl.len()) as int)[b.len() as int] == (b + jl)[b.len() as int]);
    }
}

/// The first line of a plain item, after the marker of item `k` of its
/// list, reads as that marker, its task box and the start of its text.
proof fn lemma_item_head(src: Seq<u8>, l: (usize, usize), it: BlockNode, d: nat, o: bool, k: nat)
    requires
        plain_item(it, d),
        k >= 1,
        o ==> k < 1000000000,
        0 <= l.0 <= l.1 <= src.len(),
        src.subrange(l.0 as int, l.1 as int) == item_line(it, marker(o, k)),
    ensures
        !line_is_blank(src, l),
        lead(src, l.0 as int, l.1 as int) == 0,
        marker_of(src, l.0 as int, l.1 as int) == Some((marker(o, k).len() as usize, o)),
        task_at(src, l.0 + marker(o, k).len(), l.1 as int) == (item_checked(it) is Some),
        item_checked(it) matches Some(bv) ==> (src[l.0 + marker(o, k).len() + 1] != 32u8) == bv,
        src.subrange(l.0 + marker(o, k).len() + task_box(item_checked(it)).len(), l.1 as int) == item_text(it),
        plain_line(item_text(it)),
        marker(o, k).len() >= 2,
        src[l.0 as int] == 45u8 || (48u8 <= src[l.0 as int] <= 57u8),
{
    let mark = marker(o, k);
    lemma_marker_ok(o, k);
    lemma_md_item(it, d, mark);
    let w = item_line(it, mark);
    let t = item_text(it);
    let st = l.0 as int;
    let en = l.1 as int;
    let ml = mark.len() as int;
    let bx = task_box(item_checked(it));
    lemma_content(src, l, w);
    lemma_mark_read(o, k, bx + t);
    assert(w =~= mark + (bx + t));
    lemma_marker_shift(src, w, st);
    if let BlockNode::ListItem { children, checked, .. } = it {
        let p = children@[0];
        assert(plain_block(p));
        assert(plain_line(t));
        assert(w[0] == mark[0]);
        assert(src[st + 0] == w[0]);
        if o {
            lemma_decimal_nine(k);
            assert(mark[0] == decimal(k)[0]);
        }
        assert(nonblank(w)) by {
            assert(w[0] != 32u8);
        }
        let c0 = st + ml;
        let c = c0 + bx.len();
        assert(src.subrange(c, en) =~= t) by {
            assert forall|i: int| 0 <= i < t.len() implies src.subrange(c, en)[i] == t[i] by {
                assert(src[st + (ml + bx.len() + i)] == w[ml + bx.len() + i]);
            }
        }
        match checked {
            Some(bv) => {
                assert(src[st + ml] == w[ml]);
                assert(src[st + (ml + 1)] == w[ml + 1]);
                assert(src[st + (ml + 2)] == w[ml + 2]);
                assert(src[st + (ml + 3)] == w[ml + 3]);
                assert(task_at(src, c0, en));
            },
            None => {
                lemma_task_shift(src, t, c0);
                assert(!task_at(src, c0, en));
            },
        }
    }
}

/// One plain line followed by lines that open a list reads as an
/// unformatted paragraph, then the list.
#[verifier::spinoff_prover]
#[verifier::rlimit(100)]
proof fn lemma_item_kids(
    src: Seq<u8>,
    c: int,
    e: int,
    t: Seq<u8>,
    sub: Seq<(usize, usize)>,
    ks: Seq<BlockNode>,
    d: nat,
    o: bool,
    fuel: nat,
)
    requires
        0 <= c <= e <= src.len() <= usize::MAX,
        src.subrange(c, e) == t,
        plain_line(t),
        all_plain_items(ks, d),
        ks.len() > 0,
        o ==> ks.len() < 1000000000,
        holds(src, sub, 0, items_lines(ks, d, o)),
        sub.len() == items_lines(ks, d, o).len(),
        fuel > d,
    ensures
        blocks_from(src, seq![(c as usize, e as usize)] + sub, 0, fuel, seq![]) == seq![
            BlockForm::Paragraph(
                ParaView { id: 0, text: t, marks: Seq::new(t.len(), |_i: int| plain_mark()) },
            ),
            BlockForm::List { children: seq_form(ks), ordered: o },
        ],
    decreases d, (ks.len() + 1) as int, 0int,
{
    let vl = seq![(c as usize, e as usize)] + sub;
    let kl = items_lines(ks, d, o);
    let n = vl.len() as int;
    assert(holds(src, vl, 1, kl)) by {
        assert forall|k: int| 1 <= k < 1 + kl.len() implies 0 <= (#[trigger] vl[k]).0 <= vl[k].1 <= src.len()
            && src.subrange(vl[k].0 as int, vl[k].1 as int) == kl[k - 1] by {
            assert(vl[k] == sub[k - 1]);
        }
    }
    assert(list_stop(src, vl, 1 + kl.len() as int, o));
    assert(list_at(src, vl, 1, ks, d, o));
    lemma_item_lines_at(ks, d, o, 0);
    assert(ks.take(0) == Seq::<BlockNode>::empty());
    assert(seq_form(Seq::<BlockNode>::empty()) == Seq::<BlockForm>::empty());
    lemma_items_read(src, vl, 1, ks, d, o, fuel, 0);
    // The list's first line.
    assert(plain_item(ks[0], d));
    lemma_marker_ok(o, 1);
    lemma_md_item(ks[0], d, marker(o, 1));
    let l1 = vl[1];
    assert(kl[0] == item_line(ks[0], marker(o, 1)));
    assert(src.subrange(l1.0 as int, l1.1 as int) == item_line(ks[0], marker(o, 1)));
    lemma_item_head(src, l1, ks[0], d, o, 1);
    assert(text_start(src, l1) == l1.0);
    assert(opens_block(src, l1.0 as int, l1.1 as int));
    // The paragraph's line.
    assert(src[c] == t[0]) by {
        assert(src.subrange(c, e)[0] == src[c]);
    }
    assert(!line_is_blank(src, vl[0]));
    assert(lead(src, c, e) == 0);
    lemma_marker_shift(src, t, c);
    assert(marker_of(src, c, e) is None);
    assert forall|i: int| c <= i < e implies #[trigger] src[i] != 42u8 && src[i] != 96u8 && src[i] != 126u8 by {
        assert(src[i] == src.subrange(c, e)[i - c]);
    }
    lemma_inline_plain(src, c, c, e, plain_state(), Seq::empty(), Seq::empty());
    let ms = Seq::new(t.len(), |_i: int| plain_mark());
    assert(mark_of(plain_state()) == plain_mark());
    assert(Seq::<u8>::empty() + src.subrange(c, e) == t);
    assert(Seq::<TextMark>::empty() + Seq::new((e - c) as nat, |_i: int| mark_of(plain_state())) == ms);
    let r = inline_read(src, c, c, e, plain_state(), Seq::empty(), Seq::empty());
    assert(para_read(src, vl, 0, 1, 1, 0, r.2, r.0, r.1) == (r.0, r.1));
    let pv = ParaView { id: 0, text: t, marks: ms };
    assert(paragraph_of(src, vl, 0, 1, 0) == pv);
    assert(para_end(src, vl, 1) == 1);
    let f = BlockForm::Paragraph(pv);
    if src[c] == 33u8 {
        assert(false);
    }
    let g = BlockForm::List { children: seq_form(ks), ordered: o };
    assert(items_from(src, vl, 1, 0, o, fuel, seq![]) == (seq_form(ks), n));
    assert(blocks_from(src, vl, n, fuel, seq![f].push(g)) == seq![f].push(g));
    assert(blocks_from(src, vl, 1, fuel, Seq::<BlockForm>::empty().push(f)) == blocks_from(
        src,
        vl,
        n,
        fuel,
        Seq::<BlockForm>::empty().push(f).push(g),
    ));
    assert(blocks_from(src, vl, 0, fuel, seq![]) == blocks_from(src, vl, 1, fuel, Seq::<BlockForm>::empty().push(f)));
    assert(Seq::<BlockForm>::empty().push(f).push(g) == seq![f, g]);
}

/// Reading the lines of item `x` of a list adds its form.
#[verifier::spinoff_prover]
#[verifier::rlimit(100)]
proof fn lemma_item_read(
    src: Seq<u8>,
    lines: Seq<(usize, usize)>,
    b: int,
    its: Seq<BlockNode>,
    d: nat,
    o: bool,
    fuel: nat,
    x: int,
    items: Seq<BlockForm>,
)
    requires
        list_at(src, lines, b, its, d, o),
        0 <= x < its.len(),
        fuel > d,
    ensures
        items_from(src, lines, b + item_at(its, d, o, x), 0, o, fuel, items) == items_from(
            src,
            lines,
            b + item_at(its, d, o, x + 1),
            0,
            o,
            fuel,
            items.push(node_form(its[x])),
        ),
    decreases d, its.len() - x, 1int,
{
    let tl = items_lines(its, d, o);
    let n = lines.len() as int;
    lemma_item_lines_at(its, d, o, x);
    let it = its[x];
    let mark = marker(o, (x + 1) as nat);
    assert(plain_item(it, d));
    lemma_marker_ok(o, (x + 1) as nat);
    lemma_md_item(it, d, mark);
    let il = item_lines(it, d, mark);
    let j = b + item_at(its, d, o, x);
    let nx = b + item_at(its, d, o, x + 1);
    let l = lines[j];
    assert(tl[j - b] == il[0]);
    assert(src.subrange(l.0 as int, l.1 as int) == item_line(it, mark));
    lemma_item_head(src, l, it, d, o, (x + 1) as nat);
    let ml = mark.len() as int;
    let bx = task_box(item_checked(it));
    let c = l.0 + ml + bx.len();
    let t = item_text(it);
    // The line after the item's lines stops what the item reads.
    assert(nx < n ==> line_is_blank(src, lines[nx]) || lead(src, lines[nx].0 as int, lines[nx].1 as int) < ml) by {
        if nx < n {
            if x + 1 < its.len() {
                assert(tl[nx - b] == item_line(its[x + 1], marker(o, (x + 2) as nat)));
                assert(plain_item(its[x + 1], d));
                lemma_item_head(src, lines[nx], its[x + 1], d, o, (x + 2) as nat);
            } else {
                assert(nx == b + tl.len());
            }
        }
    }
    if let BlockNode::ListItem { children, checked, .. } = it {
        let p = children@[0];
        assert(plain_block(p));
        lemma_plain_form(p);
        assert(plain_view(p) == ParaView { id: 0, text: t, marks: Seq::new(t.len(), |_i: int| plain_mark()) });
        if d > 0 && item_sub(it).len() > 0 {
            let ks = item_sub(it);
            let ko = item_sub_ordered(it);
            let e = (d - 1) as nat;
            let kl = items_lines(ks, e, ko);
            let il2 = indent_all(kl, spaces(ml as nat));
            assert(il == seq![item_line(it, mark)] + il2);
            if let BlockNode::List { children: ksv, ordered } = children@[1] {
                assert(ks == ksv@);
                assert(ko == ordered);
                lemma_items_ok(ks, e, ks.len() as int);
                assert(forall|i: int| 0 <= i < ks.len() ==> #[trigger] plain_item(ks[i], e));
            }
            lemma_md_items(ks, e, ko, ks.len() as int);
            assert(ks.take(ks.len() as int) == ks);
            assert(holds(src, lines, j + 1, il2)) by {
                assert forall|k: int| j + 1 <= k < j + 1 + il2.len() implies 0 <= (#[trigger] lines[k]).0 <= lines[k].1
                    <= src.len() && src.subrange(lines[k].0 as int, lines[k].1 as int) == il2[k - (j + 1)] by {
                    assert(tl[k - b] == il[k - j]);
                    assert(il[k - j] == il2[k - j - 1]);
                }
            }
            assert(j + 1 + kl.len() == nx);
            lemma_item_run(src, lines, j + 1, kl, 0, ml as nat);
            lemma_sub_holds(src, lines, j + 1, kl, ml as nat);
            let sub = sub_lines(lines, j + 1, kl.len() as int, ml);
            assert(sub.skip(0) == sub);
            assert(item_run(src, lines, j + 1, ml) == sub);
            lemma_item_kids(src, c, l.1 as int, t, sub, ks, e, ko, (fuel - 1) as nat);
            assert(children@.len() == 2);
            assert(seq_form(children@) == seq![node_form(p), node_form(children@[1])]) by {
                let s2 = children@;
                assert(s2.drop_last() =~= seq![p]);
                assert(seq![p].drop_last() =~= Seq::<BlockNode>::empty());
                assert(seq_form(Seq::<BlockNode>::empty()) == Seq::<BlockForm>::empty());
                assert(seq_form(seq![p]) == Seq::<BlockForm>::empty().push(node_form(p)));
                assert(seq_form(s2) == seq_form(seq![p]).push(node_form(s2.last())));
                assert(seq_form(s2) =~= seq![node_form(p), node_form(children@[1])]);
            }
        } else {
            assert(children@.len() == 1);
            assert(il == seq![item_line(it, mark)]);
            assert(nx == j + 1);
            assert(item_run(src, lines, j + 1, ml) == Seq::<(usize, usize)>::empty());
            assert(seq![(c as usize, l.1)] + Seq::<(usize, usize)>::empty() == seq![(c as usize, l.1)]);
            lemma_line_paragraph(src, c, l.1 as int, t, (fuel - 1) as nat);
            assert(children@ == seq![p]);
            assert(seq_form(children@) == seq![node_form(p)]) by {
                let s1 = children@;
                assert(s1.drop_last() =~= Seq::<BlockNode>::empty());
                assert(s1.last() == p);
                assert(seq_form(Seq::<BlockNode>::empty()) == Seq::<BlockForm>::empty());
                assert(seq_form(s1) == seq_form(s1.drop_last()).push(node_form(s1.last())));
                assert(seq_form(s1) =~= seq![node_form(p)]);
            }
        }
    }
}

/// Reading the lines of a list's items from item `x` on.
proof fn lemma_items_read(
    src: Seq<u8>,
    lines: Seq<(usize, usize)>,
    b: int,
    its: Seq<BlockNode>,
    d: nat,
    o: bool,
    fuel: nat,
    x: int,
)
    requires
        list_at(src, lines, b, its, d, o),
        0 <= x <= its.len(),
        fuel > d,
    ensures
        items_from(src, lines, b + item_at(its, d, o, x), 0, o, fuel, seq_form(its.take(x))) == (
            seq_form(its),
            b + items_lines(its, d, o).len(),
        ),
    decreases d, its.len() - x, 2int,
{
    if x < its.len() {
        lemma_item_read(src, lines, b, its, d, o, fuel, x, seq_form(its.take(x)));
        assert(its.take(x + 1) == its.take(x).push(its[x]));
        lemma_seq_form_push(its.take(x), its[x]);
        lemma_items_read(src, lines, b, its, d, o, fuel, x + 1);
    } else {
        assert(its.take(x) == its);
        lemma_item_lines_at(its, d, o, 0);
    }
}

/// Reading a list of plain items from its first line, `b`, adds its form.
proof fn lemma_list_step(
    src: Seq<u8>,
    lines: Seq<(usize, usize)>,
    b: int,
    n: BlockNode,
    fuel: nat,
    out: Seq<BlockForm>,
)
    requires
        plain_list(n),
        list_at(src, lines, b, list_items(n), list_bound(n), list_ordered(n)),
        fuel > list_bound(n),
    ensures
        blocks_from(src, lines, b, fuel, out) == blocks_from(
            src,
            lines,
            b + items_lines(list_items(n), list_bound(n), list_ordered(n)).len(),
            fuel,
            out.push(node_form(n)),
        ),
{
    let its = list_items(n);
    let d = list_bound(n);
    let o = list_ordered(n);
    let tl = items_lines(its, d, o);
    lemma_item_lines_at(its, d, o, 0);
    assert(plain_item(its[0], d));
    lemma_marker_ok(o, 1);
    lemma_md_item(its[0], d, marker(o, 1));
    assert(tl[0] == item_line(its[0], marker(o, 1)));
    let l = lines[b];
    assert(src.subrange(l.0 as int, l.1 as int) == item_line(its[0], marker(o, 1)));
    lemma_item_head(src, l, its[0], d, o, 1);
    assert(its.take(0) == Seq::<BlockNode>::empty());
    assert(seq_form(Seq::<BlockNode>::empty()) == Seq::<BlockForm>::empty());
    lemma_items_read(src, lines, b, its, d, o, fuel, 0);
    if let BlockNode::List { children, ordered } = n {
        assert(node_form(n) == BlockForm::List { children: seq_form(its), ordered: o });
        if src[l.0 as int] == 35u8 || src[l.0 as int] == 62u8 || src[l.0 as int] == 124u8 || src[l.0 as int] == 33u8 || src[l.0 as int] == 96u8 {
            assert(false);
        }
    }
}

/// Block `j` of a plain document: its first line is not blank and
/// continues no list unless the block is one.
proof fn lemma_first_line(s: Seq<BlockNode>, j: int)
    requires
        all_plain(s),
        0 <= j < s.len(),
        md_blocks(s).len() <= usize::MAX,
        !plain_list(s[j]),
    ensures
        !line_is_blank(md_blocks(s), block_lines(s, j)[0]),
        !same_list(md_blocks(s), block_lines(s, j)[0], false, 0),
        !same_list(md_blocks(s), block_lines(s, j)[0], true, 0),
{
    let src = md_blocks(s);
    lemma_layout(s, j);
    let st = md_start(s, j);
    let en = md_end(s, j);
    assert(doc_block(s[j]));
    lemma_md_written(s[j]);
    let w = written(s[j]);
    assert(src[st] == w[0]) by {
        assert(src.subrange(st, en)[0] == src[st]);
    }
    assert(w[0] != 32u8) by {
        if plain_paragraph(s[j]) {
            assert(plain_line(ptext(s[j])));
        } else if plain_heading(s[j]) {
            assert(w[0] == 35u8);
        }
    }
    assert(lead(src, st, en) == 0);
    if plain_paragraph(s[j]) {
        assert(plain_line(ptext(s[j])));
        assert(w == ptext(s[j]));
        lemma_marker_shift(src, w, st);
    } else {
        assert(w[0] == 35u8 || w[0] == 124u8 || w[0] == 33u8);
        assert(digit_run(src, st, en) == 0);
    }
}

/// The first line of a list block `j` of a plain document is not blank and
/// continues no list of the other kind.
proof fn lemma_next_list(s: Seq<BlockNode>, lines: Seq<(usize, usize)>, j: int, b: int)
    requires
        all_plain(s),
        0 <= j < s.len(),
        md_blocks(s).len() <= usize::MAX,
        plain_list(s[j]),
        0 <= b <= lines.len(),
        lines.subrange(b, lines.len() as int) == doc_lines(s, j),
    ensures
        b < lines.len(),
        !line_is_blank(md_blocks(s), lines[b]),
        !same_list(md_blocks(s), lines[b], !list_ordered(s[j]), 0),
{
    let src = md_blocks(s);
    let n = s[j];
    let its = list_items(n);
    let d = list_bound(n);
    let o = list_ordered(n);
    lemma_layout(s, j);
    let st = md_start(s, j);
    assert(doc_block(n));
    lemma_md_written(n);
    lemma_md_items(its, d, o, its.len() as int);
    assert(its.take(its.len() as int) == its);
    let tl = items_lines(its, d, o);
    assert(written(n) == join(tl));
    lemma_doc_lines_split(s, lines, j, b);
    assert(block_lines(s, j).len() == tl.len());
    lemma_placed_holds(src, lines, b, st, tl);
    lemma_item_lines_at(its, d, o, 0);
    assert(plain_item(its[0], d));
    lemma_marker_ok(o, 1);
    lemma_md_item(its[0], d, marker(o, 1));
    let l = lines[b];
    assert(tl[0] == item_line(its[0], marker(o, 1)));
    assert(src.subrange(l.0 as int, l.1 as int) == item_line(its[0], marker(o, 1)));
    lemma_item_head(src, l, its[0], d, o, 1);
    assert(text_start(src, l) == l.0);
}

/// How the lines of the blocks from `j` on split: those of block `j`,
/// then, if a block follows, a blank line and the lines of the rest.
proof fn lemma_doc_lines_split(s: Seq<BlockNode>, lines: Seq<(usize, usize)>, j: int, b: int)
    requires
        all_plain(s),
        0 <= j < s.len(),
        md_blocks(s).len() <= usize::MAX,
        0 <= b <= lines.len(),
        lines.subrange(b, lines.len() as int) == doc_lines(s, j),
    ensures
        b + block_lines(s, j).len() <= lines.len(),
        lines.subrange(b, b + block_lines(s, j).len()) == block_lines(s, j),
        j + 1 < s.len() ==> b + block_lines(s, j).len() < lines.len() && lines[b + block_lines(s, j).len()]
            == sep(s, j) && lines.subrange(b + block_lines(s, j).len() + 1, lines.len() as int) == doc_lines(
            s,
            j + 1,
        ),
        j + 1 == s.len() ==> b + block_lines(s, j).len() == lines.len(),
{
    let k = s.len() as int;
    let bl = block_lines(s, j);
    let dl = doc_lines(s, j);
    let nb = bl.len() as int;
    if j + 1 < k {
        assert(dl == bl + seq![sep(s, j)] + doc_lines(s, j + 1));
    } else {
        assert(dl == bl);
    }
    assert(b + nb <= lines.len());
    assert(forall|x: int| 0 <= x < nb ==> lines[b + x] == #[trigger] bl[x]) by {
        assert forall|x: int| 0 <= x < nb implies lines[b + x] == #[trigger] bl[x] by {
            assert(lines[b + x] == lines.subrange(b, lines.len() as int)[x]);
            assert(dl[x] == bl[x]);
        }
    }
    if j + 1 < k {
        assert(lines[b + nb] == sep(s, j)) by {
            assert(lines[b + nb] == lines.subrange(b, lines.len() as int)[nb]);
            assert(dl[nb] == sep(s, j));
        }
        assert(lines.subrange(b + nb + 1, lines.len() as int) =~= doc_lines(s, j + 1)) by {
            assert forall|y: int| 0 <= y < doc_lines(s, j + 1).len() implies lines.subrange(
                b + nb + 1,
                lines.len() as int,
            )[y] == #[trigger] doc_lines(s, j + 1)[y] by {
                assert(lines[b + nb + 1 + y] == lines.subrange(b, lines.len() as int)[nb + 1 + y]);
                assert(dl[nb + 1 + y] == doc_lines(s, j + 1)[y]);
            }
        }
    } else {
        assert(b + nb == lines.len());
    }
    assert(lines.subrange(b, b + nb) =~= bl);
}

/// Reading the lines of a plain document from block `j` on, which start at
/// line `b`, after the forms of the blocks before it, gives the forms of
/// all of them.
proof fn lemma_blocks_doc(s: Seq<BlockNode>, lines: Seq<(usize, usize)>, j: int, b: int, fuel: nat)
    requires
        all_plain(s),
        0 <= j < s.len(),
        md_blocks(s).len() <= usize::MAX,
        0 <= b <= lines.len(),
        lines.subrange(b, lines.len() as int) == doc_lines(s, j),
        fuel >= md_blocks(s).len(),
        fuel > 0,
    ensures
        blocks_from(md_blocks(s), lines, b, fuel, seq_form(s.take(j))) == seq_form(s),
    decreases s.len() - j,
{
    let src = md_blocks(s);
    let k = s.len() as int;
    lemma_layout(s, j);
    let st = md_start(s, j);
    let en = md_end(s, j);
    assert(doc_block(s[j]));
    lemma_md_written(s[j]);
    let bl = block_lines(s, j);
    let f0 = seq_form(s.take(j));
    let nb = bl.len() as int;
    lemma_doc_lines_split(s, lines, j, b);
    if j + 1 < k {
        assert(line_is_blank(src, lines[b + nb]));
        lemma_layout(s, j + 1);
    }
    if plain_list(s[j]) {
        let its = list_items(s[j]);
        let dd = list_bound(s[j]);
        let o = list_ordered(s[j]);
        let tl = items_lines(its, dd, o);
        lemma_md_items(its, dd, o, its.len() as int);
        assert(its.take(its.len() as int) == its);
        assert(written(s[j]) == join(tl));
        assert(nb == tl.len());
        lemma_placed_holds(src, lines, b, st, tl);
        if j + 1 < k {
            if plain_list(s[j + 1]) {
                assert(list_ordered(s[j + 1]) != o);
                lemma_next_list(s, lines, j + 1, b + nb + 1);
            } else {
                lemma_first_line(s, j + 1);
                assert(doc_lines(s, j + 1)[0] == block_lines(s, j + 1)[0]);
                assert(lines[b + nb + 1] == lines.subrange(b + nb + 1, lines.len() as int)[0]);
            }
            assert(nonblank_from(src, lines, b + nb + 1) == b + nb + 1);
        }
        assert(list_stop(src, lines, b + nb, o));
        assert(fuel > dd);
        lemma_list_step(src, lines, b, s[j], fuel, f0);
    } else {
        assert(lines[b] == (st as usize, en as usize)) by {
            assert(lines.subrange(b, b + nb)[0] == lines[b]);
        }
        if plain_unsupported(s[j]) {
            lemma_source_step(src, lines, b, st, en, s[j], fuel, f0);
        } else {
            lemma_block_step(src, lines, b, st, en, s[j], fuel, f0);
        }
    }
    assert(s.take(j + 1) == s.take(j).push(s[j]));
    lemma_seq_form_push(s.take(j), s[j]);
    let f1 = seq_form(s.take(j + 1));
    if j + 1 < k {
        assert(blocks_from(src, lines, b + nb, fuel, f1) == blocks_from(src, lines, b + nb + 1, fuel, f1));
        lemma_blocks_doc(s, lines, j + 1, b + nb + 1, fuel);
    } else {
        assert(s.take(j + 1) == s);
    }
}

/// Reading back what a plain document writes gives the same blocks, up to
/// paragraph identities. Its blocks are paragraphs of one plain line (see
/// `plain_line`), headings of one line without format delimiters, tables
/// and images kept as one line of source, and lists, bullet or ordered,
/// whose items each hold one such paragraph, possibly followed by such a
/// list nested under it, to any depth, tasks among them; nothing is
/// formatted, an ordered list has fewer than a billion items, and no two
/// lists of one kind stand side by side. This does not hold of every
/// document: an empty paragraph writes nothing and is not read back, text
/// that opens with a list marker reads back as a list, two lists of one
/// kind side by side read back as one, and the reader takes at most nine
/// digits for an item's number.
pub proof fn lemma_plain_round_trip(d: Document)
    requires
        d.wf(),
        all_plain(d.blocks()),
        md_blocks(d.blocks()).len() <= usize::MAX,
    ensures
        read_form(decode_utf8(md_blocks(d.blocks()))) == seq_form(d.blocks()),
{
    let s = d.blocks();
    let src = md_blocks(s);
    lemma_seq_form_count(s);
    let k = s.len() as int;
    assert(k > 0) by {
        if k == 0 {
            assert(seq_paras(s) == Seq::<ParaView>::empty());
        }
    }
    lemma_lines_doc(s, 0, Seq::empty());
    let lines = lines_of(src);
    assert(md_start(s, 0) == 0);
    assert(lines == doc_lines(s, 0)) by {
        assert(Seq::<(usize, usize)>::empty() + doc_lines(s, 0) == doc_lines(s, 0));
    }
    assert(lines.subrange(0, lines.len() as int) == lines);
    lemma_layout(s, 0);
    assert(doc_block(s[0]));
    lemma_md_written(s[0]);
    assert(src.len() > 0);
    assert(s.take(0) == Seq::<BlockNode>::empty());
    lemma_blocks_doc(s, lines, 0, 0, src.len());
    assert(valid_utf8(src)) by {
        lemma_md_valid(s, k);
        assert(s.take(k) == s);
    }
    decode_utf8_encode_utf8(src);
    assert(parse_form(src) == seq_form(s));
}

} // verus!
