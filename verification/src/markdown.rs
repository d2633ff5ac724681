//! Markdown text of a document's blocks, and the parser that reads it back.
//!
//! Blocks are separated by a blank line; a list puts one item per line,
//! `- ` before each bullet item and its number before each numbered one,
//! and indents an item's later blocks under its marker. Inline formats wrap
//! each run of equally formatted characters in `**`, `*`, `~~` and `` ` ``.

use vstd::prelude::*;
use vstd::utf8::*;
use crate::document::{
    BlockForm, BlockNode, Paragraph, ParaView, TextMark, node_form, seq_form, lemma_seq_form_push, node_paras, seq_paras, lemma_seq_paras_split3, lemma_seq_paras_push,
    lemma_seq_paras_one, push_marks, string_from_utf8,
};

verus! {

broadcast use {encode_utf8_valid_utf8, encode_utf8_decode_utf8};

/// The delimiters that open a run of format `m`.
pub open spec fn open_delims(m: TextMark) -> Seq<u8> {
    (if m.bold { seq![42u8, 42u8] } else { seq![] }) + (if m.italic { seq![42u8] } else { seq![] }) + (if m.strikethrough {
        seq![126u8, 126u8]
    } else {
        seq![]
    }) + (if m.code { seq![96u8] } else { seq![] })
}

/// The delimiters that close a run of format `m`, in reverse order.
pub open spec fn close_delims(m: TextMark) -> Seq<u8> {
    (if m.code { seq![96u8] } else { seq![] }) + (if m.strikethrough { seq![126u8, 126u8] } else { seq![] }) + (if m.italic {
        seq![42u8]
    } else {
        seq![]
    }) + (if m.bold { seq![42u8, 42u8] } else { seq![] })
}

/// Where the run of format `m` that reaches byte `j` ends: at the first
/// character from `j` on whose first byte has another format, or at the end.
pub open spec fn run_stop(text: Seq<u8>, marks: Seq<TextMark>, m: TextMark, j: int) -> int
    decreases text.len() - j,
{
    if j < 0 || j >= text.len() {
        j
    } else if !is_continuation_byte(text[j]) && marks[j] != m {
        j
    } else {
        run_stop(text, marks, m, j + 1)
    }
}

/// The Markdown of a paragraph's text from byte `i` on.
pub open spec fn inline_from(text: Seq<u8>, marks: Seq<TextMark>, i: int) -> Seq<u8>
    decreases text.len() - i,
{
    if i < 0 || i >= text.len() {
        seq![]
    } else {
        let j = run_stop(text, marks, marks[i], i + 1);
        if j <= i || j > text.len() {
            seq![]
        } else {
            open_delims(marks[i]) + text.subrange(i, j) + close_delims(marks[i]) + inline_from(text, marks, j)
        }
    }
}

/// The Markdown of a paragraph's text.
pub open spec fn md_inline(p: ParaView) -> Seq<u8> {
    inline_from(p.text, p.marks, 0)
}

/// The first line break in `b` from `i` on, or the end.
pub open spec fn next_break(b: Seq<u8>, i: int) -> int
    decreases b.len() - i,
{
    if i < 0 || i >= b.len() {
        b.len() as int
    } else if b[i] == 10u8 {
        i
    } else {
        next_break(b, i + 1)
    }
}

/// `b` from byte `i` on, with `pre` after each line break.
pub open spec fn indent_from(b: Seq<u8>, pre: Seq<u8>, i: int) -> Seq<u8>
    decreases b.len() - i,
{
    if i < 0 || i >= b.len() {
        seq![]
    } else {
        let j = next_break(b, i);
        if j < i {
            seq![]
        } else if j < b.len() {
            b.subrange(i, j) + seq![10u8] + pre + indent_from(b, pre, j + 1)
        } else {
            b.subrange(i, b.len() as int)
        }
    }
}

/// `n` spaces.
pub open spec fn spaces(n: nat) -> Seq<u8> {
    Seq::new(n, |_i: int| 32u8)
}

/// The decimal digits of `n`.
pub open spec fn decimal(n: nat) -> Seq<u8>
    decreases n,
{
    if n < 10 {
        seq![(48 + n) as u8]
    } else {
        decimal(n / 10) + seq![(48 + n % 10) as u8]
    }
}

/// The marker of item number `n` (from one): `- `, or the number and `. `.
pub open spec fn marker(ordered: bool, n: nat) -> Seq<u8> {
    if ordered {
        decimal(n) + seq![46u8, 32u8]
    } else {
        seq![45u8, 32u8]
    }
}

/// The task box after an item's marker.
pub open spec fn task_box(checked: Option<bool>) -> Seq<u8> {
    match checked {
        Some(true) => seq![91u8, 120u8, 93u8, 32u8],
        Some(false) => seq![91u8, 32u8, 93u8, 32u8],
        None => seq![],
    }
}

/// The `#`s of a heading of `level`.
pub open spec fn hashes(level: u8) -> Seq<u8> {
    Seq::new(level as nat, |_i: int| 35u8)
}

/// The Markdown of a block.
pub open spec fn md_node(n: BlockNode) -> Seq<u8>
    decreases n, 0int,
{
    match n {
        BlockNode::Paragraph(p) => md_inline(p@),
        BlockNode::Heading { level, children } => hashes(level) + seq![32u8] + md_inline(children@),
        BlockNode::List { children, ordered } => md_items(children@, ordered),
        BlockNode::ListItem { children, checked, .. } => seq![45u8, 32u8] + task_box(checked) + indent_from(
            md_tight(children@),
            spaces(2),
            0,
        ),
        BlockNode::Blockquote { children } => seq![62u8, 32u8] + indent_from(md_blocks(children@), seq![62u8, 32u8], 0),
        BlockNode::Unsupported { source } => encode_utf8(source@),
    }
}

/// The Markdown of blocks, a blank line between two.
pub open spec fn md_blocks(s: Seq<BlockNode>) -> Seq<u8>
    decreases s, 0int,
{
    if s.len() == 0 {
        seq![]
    } else if s.len() == 1 {
        md_node(s[0])
    } else {
        md_blocks(s.drop_last()) + seq![10u8, 10u8] + md_node(s.last())
    }
}

/// The Markdown of the blocks of a list item, one after another.
pub open spec fn md_tight(s: Seq<BlockNode>) -> Seq<u8>
    decreases s, 0int,
{
    if s.len() == 0 {
        seq![]
    } else if s.len() == 1 {
        md_node(s[0])
    } else {
        md_tight(s.drop_last()) + seq![10u8] + md_node(s.last())
    }
}

/// The Markdown of the items of a list, one per line.
pub open spec fn md_items(s: Seq<BlockNode>, ordered: bool) -> Seq<u8>
    decreases s, 0int,
{
    if s.len() == 0 {
        seq![]
    } else if s.len() == 1 {
        md_item(s[0], marker(ordered, 1))
    } else {
        md_items(s.drop_last(), ordered) + seq![10u8] + md_item(s.last(), marker(ordered, s.len()))
    }
}

/// The Markdown of a list item after `mark`: its task box, its blocks, and
/// its later lines indented under the marker.
pub open spec fn md_item(n: BlockNode, mark: Seq<u8>) -> Seq<u8>
    decreases n, 1int,
{
    match n {
        BlockNode::ListItem { children, checked, .. } => mark + task_box(checked) + indent_from(
            md_tight(children@),
            spaces(mark.len()),
            0,
        ),
        _ => mark + indent_from(md_node(n), spaces(mark.len()), 0),
    }
}

/// All paragraphs well formed.
pub open spec fn paras_ok(ps: Seq<ParaView>) -> bool {
    forall|i: int| 0 <= i < ps.len() ==> (#[trigger] ps[i]).wf()
}

proof fn lemma_paras_ok_part(s: Seq<BlockNode>, k: int)
    requires
        paras_ok(seq_paras(s)),
        0 <= k < s.len(),
    ensures
        paras_ok(node_paras(s[k])),
{
    lemma_seq_paras_split3(s, k);
    let a = seq_paras(s.take(k));
    let b = node_paras(s[k]);
    assert forall|i: int| 0 <= i < b.len() implies (#[trigger] b[i]).wf() by {
        assert(seq_paras(s)[a.len() + i] == b[i]);
    }
}

/// Bytes below 0x80 are valid UTF-8.
pub proof fn lemma_ascii_valid(s: Seq<u8>)
    requires
        forall|i: int| 0 <= i < s.len() ==> s[i] < 0x80,
    ensures
        valid_utf8(s),
    decreases s.len(),
{
    if s.len() > 0 {
        assert(is_leading_byte_width_1(s[0]));
        assert(length_of_first_scalar(s) == 1);
        assert(pop_first_scalar(s) =~= s.drop_first());
        lemma_ascii_valid(s.drop_first());
    }
}

/// An ASCII byte of valid UTF-8 starts a character and the next one does too.
pub proof fn lemma_ascii_cut(b: Seq<u8>, i: int)
    requires
        valid_utf8(b),
        0 <= i < b.len(),
        b[i] < 0x80,
    ensures
        is_char_boundary(b, i),
        is_char_boundary(b, i + 1),
{
    is_char_boundary_iff_not_is_continuation_byte(b, i);
    if i + 1 == b.len() {
        is_char_boundary_start_end_of_seq(b);
    } else {
        let t = b.subrange(i, b.len() as int);
        valid_utf8_split(b, i);
        assert(t[0] == b[i]);
        assert(length_of_first_scalar(t) == 1);
        assert(valid_utf8(t));
        assert(is_char_boundary(t, 1)) by {
            reveal_with_fuel(is_char_boundary, 2);
        }
        is_char_boundary_iff_not_is_continuation_byte(t, 1);
        assert(t[1] == b[i + 1]);
        is_char_boundary_iff_not_is_continuation_byte(b, i + 1);
    }
}

/// Append one ASCII byte.
fn push_byte(out: &mut Vec<u8>, c: u8)
    requires
        c < 0x80,
        valid_utf8(old(out)@),
    ensures
        final(out)@ == old(out)@.push(c),
        valid_utf8(final(out)@),
{
    out.push(c);
    proof {
        lemma_ascii_valid(seq![c]);
        valid_utf8_concat(old(out)@, seq![c]);
        assert(old(out)@ + seq![c] == old(out)@.push(c));
    }
}

/// Append `src[start..end]`, a valid cut of valid UTF-8.
fn push_cut(out: &mut Vec<u8>, src: &Vec<u8>, start: usize, end: usize)
    requires
        start <= end <= src@.len(),
        valid_utf8(src@),
        is_char_boundary(src@, start as int),
        is_char_boundary(src@, end as int),
        valid_utf8(old(out)@),
    ensures
        final(out)@ == old(out)@ + src@.subrange(start as int, end as int),
        valid_utf8(final(out)@),
{
    let mut k = start;
    while k < end
        invariant
            start <= k <= end,
            end <= src@.len(),
            out@ == old(out)@ + src@.subrange(start as int, k as int),
        decreases end - k,
    {
        out.push(src[k]);
        assert(src@.subrange(start as int, k + 1) == src@.subrange(start as int, k as int).push(src@[k as int]));
        k = k + 1;
    }
    proof {
        crate::document::lemma_valid_cut(src@, start as int, end as int);
        valid_utf8_concat(old(out)@, src@.subrange(start as int, end as int));
    }
}

/// Append the delimiters that open (or close) a run of format `m`.
fn push_delims(out: &mut Vec<u8>, m: TextMark, open: bool)
    requires
        valid_utf8(old(out)@),
    ensures
        final(out)@ == old(out)@ + (if open { open_delims(m) } else { close_delims(m) }),
        valid_utf8(final(out)@),
{
    let ghost start = out@;
    if open {
        if m.bold {
            push_byte(out, 42u8);
            push_byte(out, 42u8);
        }
        if m.italic {
            push_byte(out, 42u8);
        }
        if m.strikethrough {
            push_byte(out, 126u8);
            push_byte(out, 126u8);
        }
        if m.code {
            push_byte(out, 96u8);
        }
    } else {
        if m.code {
            push_byte(out, 96u8);
        }
        if m.strikethrough {
            push_byte(out, 126u8);
            push_byte(out, 126u8);
        }
        if m.italic {
            push_byte(out, 42u8);
        }
        if m.bold {
            push_byte(out, 42u8);
            push_byte(out, 42u8);
        }
    }
    assert(out@ =~= start + (if open { open_delims(m) } else { close_delims(m) }));
}

/// Append the Markdown of a paragraph's text.
#[verifier::spinoff_prover]
#[verifier::rlimit(40)]
fn push_inline(out: &mut Vec<u8>, p: &Paragraph)
    requires
        p@.wf(),
        valid_utf8(old(out)@),
    ensures
        final(out)@ == old(out)@ + md_inline(p@),
        valid_utf8(final(out)@),
{
    let len = p.text.len();
    let mut i: usize = 0;
    proof {
        is_char_boundary_start_end_of_seq(p.text@);
    }
    while i < len
        invariant
            len == p.text@.len(),
            p@.wf(),
            i <= len,
            old(out)@ + inline_from(p.text@, p.marks@, 0) == out@ + inline_from(p.text@, p.marks@, i as int),
            valid_utf8(out@),
            is_char_boundary(p.text@, i as int),
        decreases len - i,
    {
        let m = p.marks[i];
        let mut j = i + 1;
        while j < len && ((p.text[j] >= 0x80 && p.text[j] <= 0xbf) || p.marks[j] == m)
            invariant
                len == p.text@.len(),
                len == p.marks@.len(),
                i < j <= len,
                run_stop(p.text@, p.marks@, m, i + 1) == run_stop(p.text@, p.marks@, m, j as int),
            decreases len - j,
        {
            j = j + 1;
        }
        proof {
            if j < len {
                is_char_boundary_iff_not_is_continuation_byte(p.text@, j as int);
            } else {
                is_char_boundary_start_end_of_seq(p.text@);
            }
            let t = p.text@;
            let ms = p.marks@;
            assert(inline_from(t, ms, i as int) == open_delims(m) + t.subrange(i as int, j as int) + close_delims(m)
                + inline_from(t, ms, j as int));
        }
        let ghost before = out@;
        push_delims(out, m, true);
        push_cut(out, &p.text, i, j);
        push_delims(out, m, false);
        proof {
            let t = p.text@;
            let ms = p.marks@;
            assert(out@ == before + (open_delims(m) + t.subrange(i as int, j as int) + close_delims(m)));
        }
        i = j;
    }
}

/// Append `b` with the ASCII `pre` after each of its line breaks.
fn push_indented(out: &mut Vec<u8>, b: &Vec<u8>, pre: &Vec<u8>)
    requires
        valid_utf8(b@),
        forall|i: int| 0 <= i < pre@.len() ==> pre@[i] < 0x80,
        valid_utf8(old(out)@),
    ensures
        final(out)@ == old(out)@ + indent_from(b@, pre@, 0),
        valid_utf8(final(out)@),
{
    let len = b.len();
    let mut i: usize = 0;
    proof {
        is_char_boundary_start_end_of_seq(b@);
        lemma_ascii_valid(pre@);
    }
    while i < len
        invariant
            len == b@.len(),
            valid_utf8(b@),
            forall|k: int| 0 <= k < pre@.len() ==> pre@[k] < 0x80,
            valid_utf8(pre@),
            i <= len,
            old(out)@ + indent_from(b@, pre@, 0) == out@ + indent_from(b@, pre@, i as int),
            valid_utf8(out@),
            is_char_boundary(b@, i as int),
        decreases len - i,
    {
        let mut j = i;
        while j < len && b[j] != 10u8
            invariant
                len == b@.len(),
                i <= j <= len,
                next_break(b@, i as int) == next_break(b@, j as int),
            decreases len - j,
        {
            j = j + 1;
        }
        let ghost before = out@;
        if j < len {
            proof {
                lemma_ascii_cut(b@, j as int);
            }
            push_cut(out, b, i, j);
            push_byte(out, 10u8);
            let ghost mid = out@;
            let n = pre.len();
            let mut k: usize = 0;
            while k < n
                invariant
                    n == pre@.len(),
                    k <= n,
                    forall|q: int| 0 <= q < pre@.len() ==> pre@[q] < 0x80,
                    out@ == mid + pre@.take(k as int),
                    valid_utf8(out@),
                decreases n - k,
            {
                push_byte(out, pre[k]);
                assert(pre@.take(k as int + 1) == pre@.take(k as int).push(pre@[k as int]));
                k = k + 1;
            }
            proof {
                assert(pre@.take(n as int) == pre@);
                assert(out@ == before + (b@.subrange(i as int, j as int) + seq![10u8] + pre@));
            }
            i = j + 1;
        } else {
            proof {
                is_char_boundary_start_end_of_seq(b@);
            }
            push_cut(out, b, i, len);
            i = len;
        }
    }
}

/// Append the decimal digits of `n`.
fn push_decimal(out: &mut Vec<u8>, n: usize)
    requires
        valid_utf8(old(out)@),
    ensures
        final(out)@ == old(out)@ + decimal(n as nat),
        valid_utf8(final(out)@),
    decreases n,
{
    if n >= 10 {
        push_decimal(out, n / 10);
    }
    let d = (n % 10) as u8;
    push_byte(out, 48u8 + d);
    proof {
        if n < 10 {
            assert(decimal(n as nat) == seq![(48 + n) as u8]);
        }
    }
}

/// Append a block's Markdown.
fn push_node(out: &mut Vec<u8>, n: &BlockNode)
    requires
        paras_ok(node_paras(*n)),
        valid_utf8(old(out)@),
    ensures
        final(out)@ == old(out)@ + md_node(*n),
        valid_utf8(final(out)@),
    decreases *n, 0int,
{
    match n {
        BlockNode::Paragraph(p) => {
            assert(node_paras(*n)[0] == p@);
            push_inline(out, p);
        },
        BlockNode::Heading { level, children } => {
            assert(node_paras(*n)[0] == children@);
            let ghost start = out@;
            let mut k: u8 = 0;
            while k < *level
                invariant
                    k <= *level,
                    out@ == start + Seq::new(k as nat, |_i: int| 35u8),
                    valid_utf8(out@),
                decreases *level - k,
            {
                push_byte(out, 35u8);
                assert(Seq::new(k as nat + 1, |_i: int| 35u8) == Seq::new(k as nat, |_i: int| 35u8).push(35u8));
                k = k + 1;
            }
            push_byte(out, 32u8);
            let ghost mid = out@;
            push_inline(out, children);
            assert(out@ == start + (hashes(*level) + seq![32u8] + md_inline(children@)));
        },
        BlockNode::List { children, ordered } => {
            assert(decreases_to!(*n => children));
            push_items(out, children, *ordered);
        },
        BlockNode::ListItem { children, checked, .. } => {
            assert(decreases_to!(*n => children));
            let ghost start = out@;
            push_byte(out, 45u8);
            push_byte(out, 32u8);
            push_task(out, *checked);
            let mut body: Vec<u8> = Vec::new();
            proof {
                lemma_ascii_valid(body@);
            }
            push_tight(&mut body, children);
            let mut pre: Vec<u8> = Vec::new();
            pre.push(32u8);
            pre.push(32u8);
            assert(pre@ == spaces(2));
            push_indented(out, &body, &pre);
            assert(out@ == start + (seq![45u8, 32u8] + task_box(*checked) + indent_from(md_tight(children@), spaces(2), 0)));
        },
        BlockNode::Blockquote { children } => {
            assert(decreases_to!(*n => children));
            let ghost start = out@;
            push_byte(out, 62u8);
            push_byte(out, 32u8);
            let mut body: Vec<u8> = Vec::new();
            proof {
                lemma_ascii_valid(body@);
            }
            push_blocks(&mut body, children);
            let mut pre: Vec<u8> = Vec::new();
            pre.push(62u8);
            pre.push(32u8);
            assert(pre@ =~= seq![62u8, 32u8]);
            push_indented(out, &body, &pre);
            assert(out@ == start + (seq![62u8, 32u8] + indent_from(md_blocks(children@), seq![62u8, 32u8], 0)));
        },
        BlockNode::Unsupported { source } => {
            let bytes = vstd::slice::slice_to_vec(source.as_str().as_bytes());
            let ghost start = out@;
            let len = bytes.len();
            let mut k: usize = 0;
            while k < len
                invariant
                    len == bytes@.len(),
                    k <= len,
                    out@ == start + bytes@.take(k as int),
                decreases len - k,
            {
                out.push(bytes[k]);
                assert(bytes@.take(k as int + 1) == bytes@.take(k as int).push(bytes@[k as int]));
                k = k + 1;
            }
            proof {
                assert(bytes@.take(len as int) == bytes@);
                valid_utf8_concat(start, bytes@);
            }
        },
    }
}

/// Append a task box.
fn push_task(out: &mut Vec<u8>, checked: Option<bool>)
    requires
        valid_utf8(old(out)@),
    ensures
        final(out)@ == old(out)@ + task_box(checked),
        valid_utf8(final(out)@),
{
    let ghost start = out@;
    match checked {
        Some(done) => {
            push_byte(out, 91u8);
            push_byte(out, if done { 120u8 } else { 32u8 });
            push_byte(out, 93u8);
            push_byte(out, 32u8);
        },
        None => {},
    }
    assert(out@ =~= start + task_box(checked));
}

/// Append the Markdown of blocks, a blank line between two.
fn push_blocks(out: &mut Vec<u8>, s: &Vec<BlockNode>)
    requires
        paras_ok(seq_paras(s@)),
        valid_utf8(old(out)@),
    ensures
        final(out)@ == old(out)@ + md_blocks(s@),
        valid_utf8(final(out)@),
    decreases s@, 0int,
{
    let n = s.len();
    let mut i: usize = 0;
    while i < n
        invariant
            n == s@.len(),
            i <= n,
            paras_ok(seq_paras(s@)),
            out@ == old(out)@ + md_blocks(s@.take(i as int)),
            valid_utf8(out@),
        decreases n - i,
    {
        proof {
            lemma_paras_ok_part(s@, i as int);
            assert(s@.take(i + 1).drop_last() == s@.take(i as int));
            assert(s@.take(i + 1).last() == s@[i as int]);
        }
        assert(decreases_to!(s@ => s@[i as int]));
        if i > 0 {
            push_byte(out, 10u8);
            push_byte(out, 10u8);
        }
        push_node(out, &s[i]);
        proof {
            if i == 0 {
                assert(s@.take(1)[0] == s@[0]);
            }
        }
        i = i + 1;
    }
    assert(s@.take(n as int) == s@);
}

/// Append the Markdown of the blocks of a list item, one after another.
fn push_tight(out: &mut Vec<u8>, s: &Vec<BlockNode>)
    requires
        paras_ok(seq_paras(s@)),
        valid_utf8(old(out)@),
    ensures
        final(out)@ == old(out)@ + md_tight(s@),
        valid_utf8(final(out)@),
    decreases s@, 0int,
{
    let n = s.len();
    let mut i: usize = 0;
    while i < n
        invariant
            n == s@.len(),
            i <= n,
            paras_ok(seq_paras(s@)),
            out@ == old(out)@ + md_tight(s@.take(i as int)),
            valid_utf8(out@),
        decreases n - i,
    {
        proof {
            lemma_paras_ok_part(s@, i as int);
            assert(s@.take(i + 1).drop_last() == s@.take(i as int));
            assert(s@.take(i + 1).last() == s@[i as int]);
        }
        assert(decreases_to!(s@ => s@[i as int]));
        if i > 0 {
            push_byte(out, 10u8);
        }
        push_node(out, &s[i]);
        proof {
            if i == 0 {
                assert(s@.take(1)[0] == s@[0]);
            }
        }
        i = i + 1;
    }
    assert(s@.take(n as int) == s@);
}

/// Append the Markdown of the items of a list, one per line.
fn push_items(out: &mut Vec<u8>, s: &Vec<BlockNode>, ordered: bool)
    requires
        paras_ok(seq_paras(s@)),
        valid_utf8(old(out)@),
    ensures
        final(out)@ == old(out)@ + md_items(s@, ordered),
        valid_utf8(final(out)@),
    decreases s@, 0int,
{
    let n = s.len();
    let mut i: usize = 0;
    while i < n
        invariant
            n == s@.len(),
            i <= n,
            paras_ok(seq_paras(s@)),
            out@ == old(out)@ + md_items(s@.take(i as int), ordered),
            valid_utf8(out@),
        decreases n - i,
    {
        proof {
            lemma_paras_ok_part(s@, i as int);
            assert(s@.take(i + 1).drop_last() == s@.take(i as int));
            assert(s@.take(i + 1).last() == s@[i as int]);
        }
        assert(decreases_to!(s@ => s@[i as int]));
        if i > 0 {
            push_byte(out, 10u8);
        }
        let mut mark: Vec<u8> = Vec::new();
        proof {
            lemma_ascii_valid(mark@);
        }
        if ordered {
            push_decimal(&mut mark, i + 1);
            push_byte(&mut mark, 46u8);
            push_byte(&mut mark, 32u8);
        } else {
            push_byte(&mut mark, 45u8);
            push_byte(&mut mark, 32u8);
        }
        assert(mark@ == marker(ordered, (i + 1) as nat));
        push_item(out, &s[i], &mark);
        proof {
            if i == 0 {
                assert(s@.take(1)[0] == s@[0]);
            }
        }
        i = i + 1;
    }
    assert(s@.take(n as int) == s@);
}

/// Append a list item after its marker `mark`.
fn push_item(out: &mut Vec<u8>, n: &BlockNode, mark: &Vec<u8>)
    requires
        paras_ok(node_paras(*n)),
        valid_utf8(mark@),
        valid_utf8(old(out)@),
    ensures
        final(out)@ == old(out)@ + md_item(*n, mark@),
        valid_utf8(final(out)@),
    decreases *n, 1int,
{
    let ghost start = out@;
    let ml = mark.len();
    let mut k: usize = 0;
    while k < ml
        invariant
            ml == mark@.len(),
            k <= ml,
            out@ == start + mark@.take(k as int),
        decreases ml - k,
    {
        out.push(mark[k]);
        assert(mark@.take(k as int + 1) == mark@.take(k as int).push(mark@[k as int]));
        k = k + 1;
    }
    proof {
        assert(mark@.take(ml as int) == mark@);
        valid_utf8_concat(start, mark@);
    }
    let mut pre: Vec<u8> = Vec::new();
    let mut q: usize = 0;
    while q < ml
        invariant
            q <= ml,
            pre@ == Seq::new(q as nat, |_i: int| 32u8),
        decreases ml - q,
    {
        pre.push(32u8);
        assert(Seq::new(q as nat + 1, |_i: int| 32u8) == Seq::new(q as nat, |_i: int| 32u8).push(32u8));
        q = q + 1;
    }
    assert(pre@ == spaces(mark@.len()));
    let mut body: Vec<u8> = Vec::new();
    proof {
        lemma_ascii_valid(body@);
    }
    match n {
        BlockNode::ListItem { children, checked, .. } => {
            assert(decreases_to!(*n => children));
            push_task(out, *checked);
            push_tight(&mut body, children);
            push_indented(out, &body, &pre);
            assert(out@ == start + (mark@ + task_box(*checked) + indent_from(md_tight(children@), spaces(mark@.len()), 0)));
        },
        _ => {
            push_node(&mut body, n);
            push_indented(out, &body, &pre);
            assert(out@ == start + (mark@ + indent_from(md_node(*n), spaces(mark@.len()), 0)));
        },
    }
}

/// The Markdown of a document's blocks.
pub fn markdown_of(blocks: &Vec<BlockNode>) -> (r: Vec<u8>)
    requires
        paras_ok(seq_paras(blocks@)),
    ensures
        r@ == md_blocks(blocks@),
        valid_utf8(r@),
{
    let mut out: Vec<u8> = Vec::new();
    proof {
        lemma_ascii_valid(out@);
    }
    push_blocks(&mut out, blocks);
    assert(out@ == md_blocks(blocks@));
    out
}

/// The number of spaces that open `src[s..e]`.
pub open spec fn lead(src: Seq<u8>, s: int, e: int) -> nat
    decreases e - s,
{
    if s < e && src[s] == 32u8 {
        1 + lead(src, s + 1, e)
    } else {
        0
    }
}

/// Whether `src[s..e]` holds only spaces.
pub open spec fn blank(src: Seq<u8>, s: int, e: int) -> bool {
    forall|q: int| s <= q < e ==> src[q] == 32u8
}

/// The number of ASCII digits that open `src[t..e]`.
pub open spec fn digit_run(src: Seq<u8>, t: int, e: int) -> nat
    decreases e - t,
{
    if t < e && 48u8 <= src[t] <= 57u8 {
        1 + digit_run(src, t + 1, e)
    } else {
        0
    }
}

/// The list marker that opens `src[t..e]`: `-`, `*` or `+` and a space, or
/// one to nine digits, a dot and a space; its length and whether it is
/// numbered.
pub open spec fn marker_of(src: Seq<u8>, t: int, e: int) -> Option<(usize, bool)> {
    if t < e && (src[t] == 45u8 || src[t] == 42u8 || src[t] == 43u8) {
        if t + 1 < e && src[t + 1] == 32u8 {
            Some((2usize, false))
        } else {
            None
        }
    } else {
        let d = digit_run(src, t, e);
        if 0 < d <= 9 && e - (t + d) >= 2 && src[t + d] == 46u8 && src[t + d + 1] == 32u8 {
            Some(((d + 2) as usize, true))
        } else {
            None
        }
    }
}

/// The number of `#`s that open `src[q..e]`, counting at most `cap`.
pub open spec fn hash_run(src: Seq<u8>, q: int, e: int, cap: nat) -> nat
    decreases cap,
{
    if cap > 0 && q < e && src[q] == 35u8 {
        1 + hash_run(src, q + 1, e, (cap - 1) as nat)
    } else {
        0
    }
}

/// The level of the heading that opens `src[t..e]`: one to six `#`s and a
/// space; zero when the line is no heading.
pub open spec fn level_of(src: Seq<u8>, t: int, e: int) -> u8 {
    let k = hash_run(src, t, e, 7);
    if 1 <= k <= 6 && t + k < e && src[t + k] == 32u8 {
        k as u8
    } else {
        0
    }
}

/// Whether a line whose text is `src[t..e]` opens a block other than a
/// paragraph: a heading, a quotation, a table, a code fence or a list item.
pub open spec fn opens_block(src: Seq<u8>, t: int, e: int) -> bool {
    t < e && (src[t] == 35u8 || src[t] == 62u8 || src[t] == 124u8 || (src[t] == 96u8 && e - t >= 2 && src[t + 1]
        == 96u8) || marker_of(src, t, e) is Some)
}

/// Whether `src[p..e]` holds `c` (twice in a row when `double`).
pub open spec fn ahead(src: Seq<u8>, p: int, e: int, c: u8, double: bool) -> bool {
    exists|q: int| p <= q < e && #[trigger] src[q] == c && (!double || (q + 1 < e && src[q + 1] == c))
}

/// The lines of `src[k..]`, after `acc` and the line begun at `start`:
/// byte ranges between line breaks.
pub open spec fn lines_from(src: Seq<u8>, k: int, start: int, acc: Seq<(usize, usize)>) -> Seq<(usize, usize)>
    decreases src.len() - k,
{
    if k < src.len() {
        if src[k] == 10u8 {
            lines_from(src, k + 1, k + 1, acc.push((start as usize, k as usize)))
        } else {
            lines_from(src, k + 1, start, acc)
        }
    } else {
        acc.push((start as usize, src.len() as usize))
    }
}

/// The lines of `src`: the byte ranges between its line breaks.
pub open spec fn lines_of(src: Seq<u8>) -> Seq<(usize, usize)> {
    lines_from(src, 0, 0, Seq::empty())
}

/// The marks a run of text gets in format state `st`.
pub open spec fn mark_of(st: InlineState) -> TextMark {
    TextMark { bold: st.bold, italic: st.italic, strikethrough: st.strike, code: st.code }
}

/// How many delimiter bytes at `p` open or close a format in state `st`:
/// a backtick with another ahead (or closing code), `**` or `~~` with a
/// pair ahead (or closing), a single `*` with another ahead (or closing);
/// no delimiter counts inside code but the backtick.
pub open spec fn skip_at(src: Seq<u8>, p: int, e: int, st: InlineState) -> int {
    let c = src[p];
    if c == 96u8 {
        if st.code || ahead(src, p + 1, e, 96u8, false) { 1 } else { 0 }
    } else if !st.code && c == 42u8 {
        if p + 1 < e && src[p + 1] == 42u8 {
            if st.bold || ahead(src, p + 2, e, 42u8, true) { 2 } else { 0 }
        } else if st.italic || ahead(src, p + 1, e, 42u8, false) {
            1
        } else {
            0
        }
    } else if !st.code && c == 126u8 && p + 1 < e && src[p + 1] == 126u8 {
        if st.strike || ahead(src, p + 2, e, 126u8, true) { 2 } else { 0 }
    } else {
        0
    }
}

/// The format state after the delimiter `c`, `skip` bytes long.
pub open spec fn toggled(st: InlineState, c: u8, skip: int) -> InlineState {
    if c == 96u8 {
        InlineState { code: !st.code, ..st }
    } else if c == 42u8 && skip == 2 {
        InlineState { bold: !st.bold, ..st }
    } else if c == 42u8 {
        InlineState { italic: !st.italic, ..st }
    } else {
        InlineState { strike: !st.strike, ..st }
    }
}

/// Reading `src[p..e]` as inline Markdown, the run since `a` still to be
/// written: the text and marks after `text` and `marks`, and the format
/// state at the end.
pub open spec fn inline_read(
    src: Seq<u8>,
    a: int,
    p: int,
    e: int,
    st: InlineState,
    text: Seq<u8>,
    marks: Seq<TextMark>,
) -> (Seq<u8>, Seq<TextMark>, InlineState)
    decreases e - p,
{
    if p < e {
        let skip = skip_at(src, p, e, st);
        if skip > 0 && p + skip <= e {
            inline_read(
                src,
                p + skip,
                p + skip,
                e,
                toggled(st, src[p], skip),
                text + src.subrange(a, p),
                marks + Seq::new((p - a) as nat, |_i: int| mark_of(st)),
            )
        } else {
            inline_read(src, a, p + 1, e, st, text, marks)
        }
    } else {
        (text + src.subrange(a, e), marks + Seq::new((e - a) as nat, |_i: int| mark_of(st)), st)
    }
}

/// Reading lines `k..hi` into a paragraph begun at line `lo`, the first
/// line from `cut` bytes on: line breaks join them, formats carry over.
pub open spec fn para_read(
    src: Seq<u8>,
    lines: Seq<(usize, usize)>,
    lo: int,
    k: int,
    hi: int,
    cut: int,
    st: InlineState,
    text: Seq<u8>,
    marks: Seq<TextMark>,
) -> (Seq<u8>, Seq<TextMark>)
    decreases hi - k,
{
    if k < hi {
        let text1 = if k > lo { text.push(10u8) } else { text };
        let marks1 = if k > lo { marks.push(mark_of(st)) } else { marks };
        let s2 = if k == lo { lines[k].0 + cut } else { lines[k].0 as int };
        let r = inline_read(src, s2, s2, lines[k].1 as int, st, text1, marks1);
        para_read(src, lines, lo, k + 1, hi, cut, r.2, r.0, r.1)
    } else {
        (text, marks)
    }
}

/// The format state a paragraph starts in.
pub open spec fn plain_state() -> InlineState {
    InlineState { bold: false, italic: false, strike: false, code: false }
}

/// The paragraph that lines `lo..hi` hold, the first from `cut` bytes on.
pub open spec fn paragraph_of(src: Seq<u8>, lines: Seq<(usize, usize)>, lo: int, hi: int, cut: int) -> ParaView {
    let r = para_read(src, lines, lo, lo, hi, cut, plain_state(), Seq::empty(), Seq::empty());
    ParaView { id: 0, text: r.0, marks: r.1 }
}

/// Lines `k..hi` of a run begun at `lo`, after `out`, joined with line
/// breaks.
pub open spec fn join_from(src: Seq<u8>, lines: Seq<(usize, usize)>, lo: int, k: int, hi: int, out: Seq<u8>) -> Seq<u8>
    decreases hi - k,
{
    if k < hi {
        let out1 = if k > lo { out.push(10u8) } else { out };
        join_from(src, lines, lo, k + 1, hi, out1 + src.subrange(lines[k].0 as int, lines[k].1 as int))
    } else {
        out
    }
}

/// Lines `lo..hi` joined with line breaks.
pub open spec fn joined(src: Seq<u8>, lines: Seq<(usize, usize)>, lo: int, hi: int) -> Seq<u8> {
    join_from(src, lines, lo, lo, hi, Seq::empty())
}

/// Where the text of line `l` starts, after its indentation.
pub open spec fn text_start(src: Seq<u8>, l: (usize, usize)) -> int {
    l.0 + lead(src, l.0 as int, l.1 as int)
}

/// Whether line `l` holds only spaces.
pub open spec fn line_is_blank(src: Seq<u8>, l: (usize, usize)) -> bool {
    blank(src, l.0 as int, l.1 as int)
}

/// Whether the text of line `l` opens with three backticks.
pub open spec fn is_fence(src: Seq<u8>, l: (usize, usize)) -> bool {
    let t = text_start(src, l);
    l.1 - t >= 3 && src[t] == 96u8 && src[t + 1] == 96u8 && src[t + 2] == 96u8
}

/// The first line from `j` on that is a code fence, or the number of lines.
pub open spec fn fence_from(src: Seq<u8>, lines: Seq<(usize, usize)>, j: int) -> int
    decreases lines.len() - j,
{
    if 0 <= j < lines.len() && !is_fence(src, lines[j]) {
        fence_from(src, lines, j + 1)
    } else {
        j
    }
}

/// The first blank line from `j` on, or the number of lines.
pub open spec fn blank_from(src: Seq<u8>, lines: Seq<(usize, usize)>, j: int) -> int
    decreases lines.len() - j,
{
    if 0 <= j < lines.len() && !line_is_blank(src, lines[j]) {
        blank_from(src, lines, j + 1)
    } else {
        j
    }
}

/// The first line from `j` on that is not blank, or the number of lines.
pub open spec fn nonblank_from(src: Seq<u8>, lines: Seq<(usize, usize)>, j: int) -> int
    decreases lines.len() - j,
{
    if 0 <= j < lines.len() && line_is_blank(src, lines[j]) {
        nonblank_from(src, lines, j + 1)
    } else {
        j
    }
}

/// The line from `j` on where a paragraph ends: the first blank line or
/// line that opens another block, or the number of lines.
pub open spec fn para_end(src: Seq<u8>, lines: Seq<(usize, usize)>, j: int) -> int
    decreases lines.len() - j,
{
    if 0 <= j < lines.len() && !line_is_blank(src, lines[j]) && !opens_block(
        src,
        text_start(src, lines[j]),
        lines[j].1 as int,
    ) {
        para_end(src, lines, j + 1)
    } else {
        j
    }
}

/// Whether the text of line `l` opens with `>`.
pub open spec fn quoted(src: Seq<u8>, l: (usize, usize)) -> bool {
    text_start(src, l) < l.1 && src[text_start(src, l)] == 62u8
}

/// A quoted line without its `>` and the space after it.
pub open spec fn quote_inner(src: Seq<u8>, l: (usize, usize)) -> (usize, usize) {
    let b = text_start(src, l) + 1;
    if b < l.1 && src[b] == 32u8 {
        ((b + 1) as usize, l.1)
    } else {
        (b as usize, l.1)
    }
}

/// The quoted lines from `j` on, without their `>`, up to the first line
/// that is not quoted.
pub open spec fn quote_run(src: Seq<u8>, lines: Seq<(usize, usize)>, j: int) -> Seq<(usize, usize)>
    decreases lines.len() - j,
{
    if 0 <= j < lines.len() && quoted(src, lines[j]) {
        seq![quote_inner(src, lines[j])] + quote_run(src, lines, j + 1)
    } else {
        seq![]
    }
}

/// The lines from `k` on that continue a list item, indented by at least
/// `width`: each from `width` bytes on, up to a blank or shallower line.
pub open spec fn item_run(src: Seq<u8>, lines: Seq<(usize, usize)>, k: int, width: int) -> Seq<(usize, usize)>
    decreases lines.len() - k,
{
    if 0 <= k < lines.len() && !line_is_blank(src, lines[k]) && lead(src, lines[k].0 as int, lines[k].1 as int)
        >= width {
        seq![((lines[k].0 + width) as usize, lines[k].1)] + item_run(src, lines, k + 1, width)
    } else {
        seq![]
    }
}

/// Whether line `l` holds another item of a list: a marker of the same
/// kind at indentation `base`.
pub open spec fn same_list(src: Seq<u8>, l: (usize, usize), ordered: bool, base: int) -> bool {
    &&& marker_of(src, text_start(src, l), l.1 as int) matches Some((_, o))
    &&& o == ordered
    &&& lead(src, l.0 as int, l.1 as int) == base
}

/// The line to go on from after a block that began at line `i` and ran up
/// to `j`: `j`, which lies past `i` and within the `n` lines, else the
/// line after `i`.
pub open spec fn after(i: int, j: int, n: int) -> int {
    if i < j <= n {
        j
    } else {
        i + 1
    }
}

/// An empty paragraph.
pub open spec fn empty_para() -> ParaView {
    ParaView { id: 0, text: Seq::empty(), marks: Seq::empty() }
}

/// Whether the text at `c` opens a task box `[ ] `, `[x] ` or `[X] `
/// before the end `e`.
pub open spec fn task_at(src: Seq<u8>, c: int, e: int) -> bool {
    e - c >= 4 && src[c] == 91u8 && (src[c + 1] == 32u8 || src[c + 1] == 120u8 || src[c + 1] == 88u8) && src[c
        + 2] == 93u8 && src[c + 3] == 32u8
}

/// Reading lines `i..` as Markdown blocks after `out`, with `fuel` levels
/// of lists and quotations left to nest.
pub open spec fn blocks_from(
    src: Seq<u8>,
    lines: Seq<(usize, usize)>,
    i: int,
    fuel: nat,
    out: Seq<BlockForm>,
) -> Seq<BlockForm>
    decreases fuel, 1int, lines.len() - i,
{
    if 0 <= i < lines.len() {
        let n = lines.len() as int;
        let l = lines[i];
        if line_is_blank(src, l) {
            blocks_from(src, lines, i + 1, fuel, out)
        } else {
            let e = l.1 as int;
            let ind = lead(src, l.0 as int, e) as int;
            let t = l.0 + ind;
            let c = if t < e { src[t] } else { 32u8 };
            let level = if c == 35u8 { level_of(src, t, e) } else { 0 };
            if c == 96u8 && e - t >= 3 && src[t + 1] == 96u8 && src[t + 2] == 96u8 {
                let j = fence_from(src, lines, i + 1);
                let end = if j < n { j + 1 } else { n };
                let source = decode_utf8(joined(src, lines, i, end));
                blocks_from(src, lines, after(i, end, n), fuel, out.push(BlockForm::Unsupported { source }))
            } else if c == 124u8 || (c == 33u8 && e - t >= 2 && src[t + 1] == 91u8) {
                let j = blank_from(src, lines, i + 1);
                let source = decode_utf8(joined(src, lines, i, j));
                blocks_from(src, lines, after(i, j, n), fuel, out.push(BlockForm::Unsupported { source }))
            } else if level > 0 {
                let p = paragraph_of(src, lines, i, i + 1, ind + level + 1);
                blocks_from(src, lines, i + 1, fuel, out.push(BlockForm::Heading { level, children: p }))
            } else if c == 62u8 && fuel > 0 {
                let inner = quote_run(src, lines, i);
                let children = blocks_from(src, inner, 0, (fuel - 1) as nat, seq![]);
                blocks_from(
                    src,
                    lines,
                    after(i, i + inner.len(), n),
                    fuel,
                    out.push(BlockForm::Blockquote { children }),
                )
            } else if fuel > 0 && marker_of(src, t, e) is Some {
                let ordered = marker_of(src, t, e)->Some_0.1;
                let r = items_from(src, lines, i, ind, ordered, fuel, seq![]);
                blocks_from(
                    src,
                    lines,
                    after(i, r.1, n),
                    fuel,
                    out.push(BlockForm::List { children: r.0, ordered }),
                )
            } else {
                let j = para_end(src, lines, i + 1);
                blocks_from(src, lines, after(i, j, n), fuel, out.push(BlockForm::Paragraph(paragraph_of(src, lines, i, j, ind))))
            }
        }
    } else {
        out
    }
}

/// Reading the items of a list from line `j` on after `items`: the items
/// and the line where the list stops.
pub open spec fn items_from(
    src: Seq<u8>,
    lines: Seq<(usize, usize)>,
    j: int,
    base: int,
    ordered: bool,
    fuel: nat,
    items: Seq<BlockForm>,
) -> (Seq<BlockForm>, int)
    decreases fuel, 0int, lines.len() - j,
{
    if fuel > 0 && 0 <= j < lines.len() {
        let n = lines.len() as int;
        let gap = line_is_blank(src, lines[j]);
        let j2 = if gap { nonblank_from(src, lines, j + 1) } else { j };
        if gap && !(j2 < n && same_list(src, lines[j2], ordered, base)) {
            (items, j)
        } else if !(0 <= j2 < n) {
            (items, j2)
        } else {
            let l = lines[j2];
            let e = l.1 as int;
            let ind = lead(src, l.0 as int, e) as int;
            let t = l.0 + ind;
            if ind != base || !(marker_of(src, t, e) matches Some((_, o)) && o == ordered) {
                (items, j2)
            } else {
                let ml = marker_of(src, t, e)->Some_0.0 as int;
                let task = task_at(src, t + ml, e);
                let checked = if task { Some(src[t + ml + 1] != 32u8) } else { None };
                let c = if task { t + ml + 4 } else { t + ml };
                let rest = item_run(src, lines, j2 + 1, ind + ml);
                let children = blocks_from(src, seq![(c as usize, l.1)] + rest, 0, (fuel - 1) as nat, seq![]);
                let kids = if children.len() == 0 { seq![BlockForm::Paragraph(empty_para())] } else { children };
                items_from(
                    src,
                    lines,
                    after(j, j2 + 1 + rest.len(), n),
                    base,
                    ordered,
                    fuel,
                    items.push(BlockForm::ListItem { children: kids, checked, spread: false }),
                )
            }
        }
    } else {
        (items, j)
    }
}

/// The blocks of the Markdown text `src`.
pub open spec fn parse_form(src: Seq<u8>) -> Seq<BlockForm> {
    blocks_from(src, lines_of(src), 0, src.len(), seq![])
}

/// Whether `text` is one line of plain text that reads back as itself: not
/// empty, without line breaks or format delimiters, and opening with a
/// character that starts no other block (no space, `#`, `>`, `|`, `!`, or
/// list marker).
pub open spec fn plain_line(text: Seq<u8>) -> bool {
    &&& text.len() > 0
    &&& forall|i: int| 0 <= i < text.len() ==> #[trigger] text[i] != 10u8 && text[i] != 42u8 && text[i] != 96u8
        && text[i] != 126u8
    &&& text[0] != 32u8 && text[0] != 35u8 && text[0] != 62u8 && text[0] != 124u8 && text[0] != 33u8
    &&& marker_of(text, 0, text.len() as int) is None
}

/// Runs of one format reach to the end of a text whose marks are all `m`.
pub(crate) proof fn lemma_run_stop_uniform(text: Seq<u8>, marks: Seq<TextMark>, m: TextMark, j: int)
    requires
        0 <= j <= text.len(),
        marks.len() == text.len(),
        forall|i: int| 0 <= i < marks.len() ==> #[trigger] marks[i] == m,
    ensures
        run_stop(text, marks, m, j) == text.len(),
    decreases text.len() - j,
{
    if j < text.len() {
        lemma_run_stop_uniform(text, marks, m, j + 1);
    }
}

/// A text without line breaks from `k` on ends in one line begun at `start`.
pub(crate) proof fn lemma_lines_one(src: Seq<u8>, k: int, start: int, acc: Seq<(usize, usize)>)
    requires
        0 <= k <= src.len(),
        forall|i: int| k <= i < src.len() ==> #[trigger] src[i] != 10u8,
    ensures
        lines_from(src, k, start, acc) == acc.push((start as usize, src.len() as usize)),
    decreases src.len() - k,
{
    if k < src.len() {
        lemma_lines_one(src, k + 1, start, acc);
    }
}

/// Inline text without delimiters reads as itself, in the format it
/// starts in.
pub(crate) proof fn lemma_inline_plain(
    src: Seq<u8>,
    a: int,
    p: int,
    e: int,
    st: InlineState,
    text: Seq<u8>,
    marks: Seq<TextMark>,
)
    requires
        0 <= a <= p <= e <= src.len(),
        forall|i: int| p <= i < e ==> #[trigger] src[i] != 42u8 && src[i] != 96u8 && src[i] != 126u8,
    ensures
        inline_read(src, a, p, e, st, text, marks) == (
            text + src.subrange(a, e),
            marks + Seq::new((e - a) as nat, |_i: int| mark_of(st)),
            st,
        ),
    decreases e - p,
{
    if p < e {
        assert(src[p] != 42u8 && src[p] != 96u8 && src[p] != 126u8);
        assert(skip_at(src, p, e, st) == 0);
        lemma_inline_plain(src, a, p + 1, e, st, text, marks);
    }
}

/// A line of the source: a byte range between two character boundaries.
pub open spec fn line_ok(src: Seq<u8>, l: (usize, usize)) -> bool {
    &&& l.0 <= l.1 <= src.len()
    &&& is_char_boundary(src, l.0 as int)
    &&& is_char_boundary(src, l.1 as int)
}

/// Every line is a range between character boundaries.
pub open spec fn lines_ok(src: Seq<u8>, ls: Seq<(usize, usize)>) -> bool {
    forall|i: int| 0 <= i < ls.len() ==> line_ok(src, #[trigger] ls[i])
}

/// Skip the ASCII byte at `p`: the position after it is a boundary too.
proof fn lemma_skip(src: Seq<u8>, p: int)
    requires
        valid_utf8(src),
        0 <= p < src.len(),
        src[p] < 0x80,
    ensures
        is_char_boundary(src, p + 1),
        is_char_boundary(src, p),
{
    lemma_ascii_cut(src, p);
}

/// The lines of `src`, split at line breaks.
pub fn split_lines_of(src: &Vec<u8>) -> (r: Vec<(usize, usize)>)
    requires
        valid_utf8(src@),
    ensures
        r@ == lines_of(src@),
        lines_ok(src@, r@),
        r@.len() <= src@.len() + 1,
{
    let mut r: Vec<(usize, usize)> = Vec::new();
    let n = src.len();
    let mut start: usize = 0;
    let mut k: usize = 0;
    proof {
        is_char_boundary_start_end_of_seq(src@);
    }
    while k < n
        invariant
            n == src@.len(),
            valid_utf8(src@),
            start <= k <= n,
            is_char_boundary(src@, start as int),
            lines_ok(src@, r@),
            r@.len() <= k,
            lines_of(src@) == lines_from(src@, k as int, start as int, r@),
        decreases n - k,
    {
        if src[k] == 10u8 {
            proof {
                lemma_skip(src@, k as int);
            }
            r.push((start, k));
            start = k + 1;
        }
        k = k + 1;
    }
    proof {
        is_char_boundary_start_end_of_seq(src@);
    }
    r.push((start, n));
    r
}

/// The number of spaces that start `src[s..e]`.
fn indent_of(src: &Vec<u8>, s: usize, e: usize) -> (r: usize)
    requires
        valid_utf8(src@),
        line_ok(src@, (s, e)),
    ensures
        s + r <= e,
        r == lead(src@, s as int, e as int),
        line_ok(src@, ((s + r) as usize, e)),
        forall|q: int| s <= q < s + r ==> src@[q] == 32u8,
{
    let mut p = s;
    while p < e && src[p] == 32u8
        invariant
            s <= p <= e,
            e <= src@.len(),
            valid_utf8(src@),
            is_char_boundary(src@, p as int),
            forall|q: int| s <= q < p ==> src@[q] == 32u8,
            lead(src@, s as int, e as int) == (p - s) + lead(src@, p as int, e as int),
        decreases e - p,
    {
        proof {
            lemma_skip(src@, p as int);
        }
        p = p + 1;
    }
    p - s
}

/// Whether `src[s..e]` holds only spaces.
fn is_blank(src: &Vec<u8>, s: usize, e: usize) -> (r: bool)
    requires
        s <= e <= src@.len(),
    ensures
        r == blank(src@, s as int, e as int),
{
    let mut p = s;
    while p < e
        invariant
            s <= p <= e,
            e <= src@.len(),
            blank(src@, s as int, p as int),
        decreases e - p,
    {
        if src[p] != 32u8 {
            return false;
        }
        p = p + 1;
    }
    true
}

/// Whether `src[t..e]` starts with `a` then `b`.
fn starts2(src: &Vec<u8>, t: usize, e: usize, a: u8, b: u8) -> (r: bool)
    requires
        t <= e <= src@.len(),
    ensures
        r == (e - t >= 2 && src@[t as int] == a && src@[t + 1] == b),
{
    e - t >= 2 && src[t] == a && src[t + 1] == b
}

/// The list marker that starts `src[t..e]`, if any: its length and
/// whether it is numbered.
fn list_marker(src: &Vec<u8>, t: usize, e: usize) -> (r: Option<(usize, bool)>)
    requires
        valid_utf8(src@),
        line_ok(src@, (t, e)),
    ensures
        r == marker_of(src@, t as int, e as int),
        r matches Some((len, _)) ==> len >= 2 && t + len <= e && line_ok(src@, ((t + len) as usize, e)),
{
    if t < e && (src[t] == 45u8 || src[t] == 42u8 || src[t] == 43u8) {
        if t + 1 < e && src[t + 1] == 32u8 {
            proof {
                lemma_skip(src@, t as int);
                lemma_skip(src@, t + 1);
            }
            return Some((2, false));
        }
        return None;
    }
    let mut p = t;
    while p < e && src[p] >= 48u8 && src[p] <= 57u8
        invariant
            t <= p <= e,
            e <= src@.len(),
            valid_utf8(src@),
            is_char_boundary(src@, p as int),
            digit_run(src@, t as int, e as int) == (p - t) + digit_run(src@, p as int, e as int),
        decreases e - p,
    {
        proof {
            lemma_skip(src@, p as int);
        }
        p = p + 1;
    }
    if p > t && p - t <= 9 && e - p >= 2 && src[p] == 46u8 && src[p + 1] == 32u8 {
        proof {
            lemma_skip(src@, p as int);
            lemma_skip(src@, p + 1);
        }
        return Some((p + 2 - t, true));
    }
    None
}

/// Whether a line opens a block other than a paragraph.
fn starts_block(src: &Vec<u8>, t: usize, e: usize) -> (r: bool)
    requires
        valid_utf8(src@),
        line_ok(src@, (t, e)),
    ensures
        r == opens_block(src@, t as int, e as int),
{
    if t >= e {
        return false;
    }
    let c = src[t];
    c == 35u8 || c == 62u8 || c == 124u8 || (c == 96u8 && starts2(src, t, e, 96u8, 96u8)) || list_marker(src, t, e).is_some()
}

/// The bytes of lines `lo..hi`, each from `cut` bytes on where it has
/// them, joined with line breaks.
fn join_lines_from(src: &Vec<u8>, lines: &Vec<(usize, usize)>, lo: usize, hi: usize) -> (r: Vec<u8>)
    requires
        valid_utf8(src@),
        lines_ok(src@, lines@),
        lo <= hi <= lines@.len(),
    ensures
        valid_utf8(r@),
        r@ == joined(src@, lines@, lo as int, hi as int),
{
    let mut out: Vec<u8> = Vec::new();
    proof {
        lemma_ascii_valid(out@);
    }
    let mut k = lo;
    while k < hi
        invariant
            lo <= k <= hi,
            hi <= lines@.len(),
            valid_utf8(src@),
            lines_ok(src@, lines@),
            valid_utf8(out@),
            joined(src@, lines@, lo as int, hi as int) == join_from(src@, lines@, lo as int, k as int, hi as int, out@),
        decreases hi - k,
    {
        if k > lo {
            push_byte(&mut out, 10u8);
        }
        let (s, e) = lines[k];
        assert(line_ok(src@, lines@[k as int]));
        push_cut(&mut out, src, s, e);
        k = k + 1;
    }
    out
}

/// The state of the inline formats while reading a paragraph.
pub struct InlineState {
    pub bold: bool,
    pub italic: bool,
    pub strike: bool,
    pub code: bool,
}

/// Whether `src[p..e]` holds `c` (twice in a row when `double`).
fn has_ahead(src: &Vec<u8>, p: usize, e: usize, c: u8, double: bool) -> (r: bool)
    requires
        p <= e <= src@.len(),
    ensures
        r == ahead(src@, p as int, e as int, c, double),
{
    let mut q = p;
    while q < e
        invariant
            p <= q <= e,
            e <= src@.len(),
            forall|x: int| p <= x < q ==> !(#[trigger] src@[x] == c && (!double || (x + 1 < e && src@[x + 1] == c))),
        decreases e - q,
    {
        if src[q] == c && (!double || (q + 1 < e && src[q + 1] == c)) {
            return true;
        }
        q = q + 1;
    }
    false
}

/// Read one line of inline Markdown into text and marks.
fn read_inline_line(
    src: &Vec<u8>,
    s: usize,
    e: usize,
    st: &mut InlineState,
    text: &mut Vec<u8>,
    marks: &mut Vec<TextMark>,
)
    requires
        valid_utf8(src@),
        line_ok(src@, (s, e)),
        valid_utf8(old(text)@),
        old(text)@.len() == old(marks)@.len(),
    ensures
        valid_utf8(final(text)@),
        final(text)@.len() == final(marks)@.len(),
        (final(text)@, final(marks)@, *final(st)) == inline_read(src@, s as int, s as int, e as int, *old(st), old(text)@, old(marks)@),
{
    let mut a = s;
    let mut p = s;
    while p < e
        invariant
            s <= a <= p <= e,
            e <= src@.len(),
            valid_utf8(src@),
            is_char_boundary(src@, a as int),
            is_char_boundary(src@, e as int),
            valid_utf8(text@),
            text@.len() == marks@.len(),
            inline_read(src@, s as int, s as int, e as int, *old(st), old(text)@, old(marks)@)
                == inline_read(src@, a as int, p as int, e as int, *st, text@, marks@),
        decreases e - p,
    {
        let c = src[p];
        let mut skip: usize = 0;
        if c == 96u8 {
            if st.code || has_ahead(src, p + 1, e, 96u8, false) {
                skip = 1;
            }
        } else if !st.code && c == 42u8 {
            if p + 1 < e && src[p + 1] == 42u8 {
                if st.bold || has_ahead(src, p + 2, e, 42u8, true) {
                    skip = 2;
                }
            } else if st.italic || has_ahead(src, p + 1, e, 42u8, false) {
                skip = 1;
            }
        } else if !st.code && c == 126u8 && p + 1 < e && src[p + 1] == 126u8 {
            if st.strike || has_ahead(src, p + 2, e, 126u8, true) {
                skip = 2;
            }
        }
        if skip > 0 {
            proof {
                lemma_skip(src@, p as int);
                if skip == 2 {
                    lemma_skip(src@, p + 1);
                }
            }
            let m = TextMark { bold: st.bold, italic: st.italic, strikethrough: st.strike, code: st.code };
            let before = text.len();
            push_cut(text, src, a, p);
            push_marks(marks, m, p - a);
            if c == 96u8 {
                st.code = !st.code;
            } else if c == 42u8 && skip == 2 {
                st.bold = !st.bold;
            } else if c == 42u8 {
                st.italic = !st.italic;
            } else {
                st.strike = !st.strike;
            }
            p = p + skip;
            a = p;
        } else {
            p = p + 1;
        }
    }
    let m = TextMark { bold: st.bold, italic: st.italic, strikethrough: st.strike, code: st.code };
    push_cut(text, src, a, e);
    push_marks(marks, m, e - a);
}

/// A paragraph of lines `lo..hi`, each from `cut` bytes on; its identity
/// is given later.
fn read_paragraph(src: &Vec<u8>, lines: &Vec<(usize, usize)>, lo: usize, hi: usize, cut: usize) -> (r: Paragraph)
    requires
        valid_utf8(src@),
        lines_ok(src@, lines@),
        lo <= hi <= lines@.len(),
        lo < hi ==> lines@[lo as int].0 + cut <= lines@[lo as int].1 && is_char_boundary(
            src@,
            lines@[lo as int].0 + cut,
        ),
    ensures
        r@.wf(),
        r@ == paragraph_of(src@, lines@, lo as int, hi as int, cut as int),
{
    let mut text: Vec<u8> = Vec::new();
    let mut marks: Vec<TextMark> = Vec::new();
    let mut st = InlineState { bold: false, italic: false, strike: false, code: false };
    proof {
        lemma_ascii_valid(text@);
    }
    let mut k = lo;
    while k < hi
        invariant
            lo <= k <= hi,
            hi <= lines@.len(),
            valid_utf8(src@),
            lines_ok(src@, lines@),
            lo < hi ==> lines@[lo as int].0 + cut <= lines@[lo as int].1 && is_char_boundary(src@, lines@[lo as int].0 + cut),
            valid_utf8(text@),
            text@.len() == marks@.len(),
            para_read(src@, lines@, lo as int, lo as int, hi as int, cut as int, plain_state(), Seq::empty(), Seq::empty())
                == para_read(src@, lines@, lo as int, k as int, hi as int, cut as int, st, text@, marks@),
        decreases hi - k,
    {
        if k > lo {
            let m = TextMark { bold: st.bold, italic: st.italic, strikethrough: st.strike, code: st.code };
            push_byte(&mut text, 10u8);
            marks.push(m);
        }
        let (s, e) = lines[k];
        assert(line_ok(src@, lines@[k as int]));
        let s2 = if k == lo { s + cut } else { s };
        read_inline_line(src, s2, e, &mut st, &mut text, &mut marks);
        k = k + 1;
    }
    Paragraph { id: 0, text, marks }
}

/// Append a block, keeping every paragraph well formed.
fn push_block(out: &mut Vec<BlockNode>, n: BlockNode)
    requires
        paras_ok(seq_paras(old(out)@)),
        paras_ok(node_paras(n)),
    ensures
        final(out)@ == old(out)@.push(n),
        paras_ok(seq_paras(final(out)@)),
{
    let ghost before = out@;
    out.push(n);
    proof {
        lemma_seq_paras_push(before, n);
        let a = seq_paras(before);
        let b = node_paras(n);
        assert forall|i: int| 0 <= i < (a + b).len() implies (#[trigger] (a + b)[i]).wf() by {
            if i < a.len() {
                assert((a + b)[i] == a[i]);
            } else {
                assert((a + b)[i] == b[i - a.len()]);
            }
        }
    }
}

/// Whether the line at `k` is blank.
fn line_blank(src: &Vec<u8>, lines: &Vec<(usize, usize)>, k: usize) -> (r: bool)
    requires
        lines_ok(src@, lines@),
        k < lines@.len(),
    ensures
        r == line_is_blank(src@, lines@[k as int]),
{
    let (s, e) = lines[k];
    assert(line_ok(src@, lines@[k as int]));
    is_blank(src, s, e)
}

/// Where the text of the line at `k` starts, after its indentation.
fn line_text(src: &Vec<u8>, lines: &Vec<(usize, usize)>, k: usize) -> (r: (usize, usize))
    requires
        valid_utf8(src@),
        lines_ok(src@, lines@),
        k < lines@.len(),
    ensures
        r.0 == lines@[k as int].0 + r.1,
        r.1 == lead(src@, lines@[k as int].0 as int, lines@[k as int].1 as int),
        r.0 == text_start(src@, lines@[k as int]),
        line_ok(src@, (r.0, lines@[k as int].1)),
        forall|q: int| lines@[k as int].0 <= q < r.0 ==> src@[q] == 32u8,
{
    let (s, e) = lines[k];
    assert(line_ok(src@, lines@[k as int]));
    let ind = indent_of(src, s, e);
    (s + ind, ind)
}

/// Read the blocks of `lines`; lists and quotations nest while `fuel`
/// lasts. Paragraphs get their identities later.
pub fn parse_lines(src: &Vec<u8>, lines: &Vec<(usize, usize)>, fuel: usize) -> (r: Vec<BlockNode>)
    requires
        valid_utf8(src@),
        lines_ok(src@, lines@),
    ensures
        paras_ok(seq_paras(r@)),
        seq_paras(r@).len() <= lines@.len(),
        seq_form(r@) == blocks_from(src@, lines@, 0, fuel as nat, seq![]),
    decreases fuel,
{
    let mut out: Vec<BlockNode> = Vec::new();
    let n = lines.len();
    let mut i: usize = 0;
    let ghost whole = blocks_from(src@, lines@, 0, fuel as nat, seq![]);
    while i < n
        invariant
            n == lines@.len(),
            i <= n,
            valid_utf8(src@),
            lines_ok(src@, lines@),
            paras_ok(seq_paras(out@)),
            seq_paras(out@).len() <= i,
            whole == blocks_from(src@, lines@, 0, fuel as nat, seq![]),
            whole == blocks_from(src@, lines@, i as int, fuel as nat, seq_form(out@)),
        decreases n - i,
    {
        let ghost i0 = i as int;
        let ghost f0 = seq_form(out@);
        let ghost o0 = out@;
        if line_blank(src, lines, i) {
            i = i + 1;
            continue;
        }
        let (s, e) = lines[i];
        assert(line_ok(src@, lines@[i as int]));
        let (t, ind) = line_text(src, lines, i);
        let c = if t < e { src[t] } else { 32u8 };
        let level = if c == 35u8 { heading_level(src, t, e) } else { 0 };
        if c == 96u8 && e - t >= 3 && src[t + 1] == 96u8 && src[t + 2] == 96u8 {
            // A code fence, kept as source up to its closing fence.
            let mut j = i + 1;
            while j < n
                invariant
                    i < j <= n,
                    n == lines@.len(),
                    valid_utf8(src@),
                    lines_ok(src@, lines@),
                    fence_from(src@, lines@, i + 1) == fence_from(src@, lines@, j as int),
                ensures
                    i < j <= n,
                    fence_from(src@, lines@, i + 1) == j,
                decreases n - j,
            {
                let (t2, _) = line_text(src, lines, j);
                let e2 = lines[j].1;
                if e2 - t2 >= 3 && src[t2] == 96u8 && src[t2 + 1] == 96u8 && src[t2 + 2] == 96u8 {
                    break;
                }
                j = j + 1;
            }
            let end = if j < n { j + 1 } else { n };
            let bytes = join_lines_from(src, lines, i, end);
            let block = BlockNode::Unsupported { source: string_from_utf8(bytes) };
            push_block(&mut out, block);
            proof {
                lemma_seq_paras_push(o0, block);
                lemma_seq_form_push(o0, block);
            }
            i = end;
        } else if c == 124u8 || (c == 33u8 && e - t >= 2 && src[t + 1] == 91u8) {
            // A table or an image, kept as source up to a blank line.
            let mut j = i + 1;
            while j < n && !line_blank(src, lines, j)
                invariant
                    i < j <= n,
                    n == lines@.len(),
                    lines_ok(src@, lines@),
                    blank_from(src@, lines@, i + 1) == blank_from(src@, lines@, j as int),
                decreases n - j,
            {
                j = j + 1;
            }
            let bytes = join_lines_from(src, lines, i, j);
            let block = BlockNode::Unsupported { source: string_from_utf8(bytes) };
            push_block(&mut out, block);
            proof {
                lemma_seq_paras_push(o0, block);
                lemma_seq_form_push(o0, block);
            }
            i = j;
        } else if level > 0 {
            let p = read_paragraph(src, lines, i, i + 1, ind + level as usize + 1);
            proof {
                lemma_seq_paras_one(BlockNode::Heading { level, children: p });
                assert(node_paras(BlockNode::Heading { level, children: p })[0] == p@);
            }
            let block = BlockNode::Heading { level, children: p };
            push_block(&mut out, block);
            proof {
                lemma_seq_paras_push(o0, block);
                lemma_seq_form_push(o0, block);
            }
            i = i + 1;
        } else if c == 62u8 && fuel > 0 {
            // A quotation: its lines without their `>`.
            let mut inner: Vec<(usize, usize)> = Vec::new();
            let mut j = i;
            while j < n
                invariant
                    i <= j <= n,
                    n == lines@.len(),
                    valid_utf8(src@),
                    lines_ok(src@, lines@),
                    lines_ok(src@, inner@),
                    inner@.len() == j - i,
                    inner@ + quote_run(src@, lines@, j as int) == quote_run(src@, lines@, i as int),
                ensures
                    i <= j <= n,
                    lines_ok(src@, inner@),
                    inner@.len() == j - i,
                    inner@ == quote_run(src@, lines@, i as int),
                decreases n - j,
            {
                let (t2, _) = line_text(src, lines, j);
                let e2 = lines[j].1;
                if t2 >= e2 || src[t2] != 62u8 {
                    assert(inner@ + Seq::<(usize, usize)>::empty() == inner@);
                    break;
                }
                proof {
                    lemma_skip(src@, t2 as int);
                }
                let mut b = t2 + 1;
                if b < e2 && src[b] == 32u8 {
                    proof {
                        lemma_skip(src@, b as int);
                    }
                    b = b + 1;
                }
                let ghost before = inner@;
                inner.push((b, e2));
                proof {
                    let x = quote_inner(src@, lines@[j as int]);
                    assert(x == (b, e2));
                    assert(before.push(x) + quote_run(src@, lines@, j + 1) == before + (seq![x] + quote_run(
                        src@,
                        lines@,
                        j + 1,
                    )));
                }
                j = j + 1;
            }
            proof {
                if j == n {
                    assert(inner@ + Seq::<(usize, usize)>::empty() == inner@);
                }
            }
            let children = parse_lines(src, &inner, fuel - 1);
            let block = BlockNode::Blockquote { children };
            push_block(&mut out, block);
            proof {
                lemma_seq_paras_push(o0, block);
                lemma_seq_form_push(o0, block);
            }
            i = if j > i { j } else { i + 1 };
        } else if fuel > 0 && list_marker(src, t, e).is_some() {
            let (items, ordered, next) = parse_list(src, lines, i, fuel);
            let block = BlockNode::List { children: items, ordered };
            push_block(&mut out, block);
            proof {
                lemma_seq_paras_push(o0, block);
                lemma_seq_form_push(o0, block);
            }
            i = next;
        } else {
            // A paragraph: lines up to a blank line or another block.
            let mut j = i + 1;
            while j < n
                invariant
                    i < j <= n,
                    n == lines@.len(),
                    valid_utf8(src@),
                    lines_ok(src@, lines@),
                    para_end(src@, lines@, i + 1) == para_end(src@, lines@, j as int),
                ensures
                    i < j <= n,
                    para_end(src@, lines@, i + 1) == j,
                decreases n - j,
            {
                if line_blank(src, lines, j) {
                    break;
                }
                let (t2, _) = line_text(src, lines, j);
                let e2 = lines[j].1;
                if starts_block(src, t2, e2) {
                    break;
                }
                j = j + 1;
            }
            let p = read_paragraph(src, lines, i, j, ind);
            proof {
                assert(node_paras(BlockNode::Paragraph(p))[0] == p@);
            }
            let block = BlockNode::Paragraph(p);
            push_block(&mut out, block);
            proof {
                lemma_seq_paras_push(o0, block);
                lemma_seq_form_push(o0, block);
            }
            i = j;
        }
    }
    out
}

/// The level of the heading that starts `src[t..e]`: one to six `#`s and a
/// space (or the end of the line); zero when it is no heading.
fn heading_level(src: &Vec<u8>, t: usize, e: usize) -> (r: u8)
    requires
        valid_utf8(src@),
        line_ok(src@, (t, e)),
    ensures
        r == level_of(src@, t as int, e as int),
        r <= 6,
        r > 0 ==> t + r + 1 <= e && is_char_boundary(src@, t + r + 1),
{
    let mut k: usize = 0;
    while t + k < e && k < 7 && src[t + k] == 35u8
        invariant
            k <= 7,
            t + k <= e,
            e <= src@.len(),
            valid_utf8(src@),
            forall|q: int| t <= q < t + k ==> src@[q] == 35u8,
            hash_run(src@, t as int, e as int, 7) == k + hash_run(src@, t + k, e as int, (7 - k) as nat),
        decreases 7 - k,
    {
        k = k + 1;
    }
    if k >= 1 && k <= 6 && t + k < e && src[t + k] == 32u8 {
        proof {
            lemma_skip(src@, t + k);
        }
        k as u8
    } else {
        0
    }
}

/// Read the list that starts at line `i`: its items, whether it is
/// numbered, and the line after it.
fn parse_list(src: &Vec<u8>, lines: &Vec<(usize, usize)>, i: usize, fuel: usize) -> (r: (Vec<BlockNode>, bool, usize))
    requires
        valid_utf8(src@),
        lines_ok(src@, lines@),
        i < lines@.len(),
        fuel > 0,
        marker_of(src@, text_start(src@, lines@[i as int]), lines@[i as int].1 as int) is Some,
    ensures
        paras_ok(seq_paras(r.0@)),
        i < r.2 <= lines@.len(),
        seq_paras(r.0@).len() <= r.2 - i,
        r.1 == marker_of(src@, text_start(src@, lines@[i as int]), lines@[i as int].1 as int)->Some_0.1,
        ({
            let f = items_from(
                src@,
                lines@,
                i as int,
                lead(src@, lines@[i as int].0 as int, lines@[i as int].1 as int) as int,
                r.1,
                fuel as nat,
                seq![],
            );
            &&& seq_form(r.0@) == f.0
            &&& r.2 == after(i as int, f.1, lines@.len() as int)
        }),
    decreases fuel, 0int,
{
    let n = lines.len();
    let (t0, base) = line_text(src, lines, i);
    let e0 = lines[i].1;
    let ordered = match list_marker(src, t0, e0) {
        Some((_, o)) => o,
        None => false,
    };
    let ghost whole = items_from(src@, lines@, i as int, base as int, ordered, fuel as nat, seq![]);
    let mut items: Vec<BlockNode> = Vec::new();
    let mut j = i;
    while j < n
        invariant
            i <= j <= n,
            n == lines@.len(),
            valid_utf8(src@),
            lines_ok(src@, lines@),
            paras_ok(seq_paras(items@)),
            seq_paras(items@).len() <= j - i,
            fuel > 0,
            whole == items_from(src@, lines@, j as int, base as int, ordered, fuel as nat, seq_form(items@)),
        ensures
            i <= j <= n,
            paras_ok(seq_paras(items@)),
            seq_paras(items@).len() <= j - i,
            whole == (seq_form(items@), j as int),
        decreases n - j,
    {
        let ghost j0 = j as int;
        let ghost f0 = seq_form(items@);
        let ghost o0 = items@;
        if line_blank(src, lines, j) {
            // A blank line ends the list unless another item follows.
            let mut k = j + 1;
            while k < n && line_blank(src, lines, k)
                invariant
                    j < k <= n,
                    n == lines@.len(),
                    lines_ok(src@, lines@),
                    nonblank_from(src@, lines@, j + 1) == nonblank_from(src@, lines@, k as int),
                decreases n - k,
            {
                k = k + 1;
            }
            if k >= n {
                break;
            }
            let (tk, indk) = line_text(src, lines, k);
            let ek = lines[k].1;
            let same = match list_marker(src, tk, ek) {
                Some((_, o)) => o == ordered && indk == base,
                None => false,
            };
            if !same {
                break;
            }
            j = k;
        }
        let (s, e) = lines[j];
        assert(line_ok(src@, lines@[j as int]));
        let (t, ind) = line_text(src, lines, j);
        if ind != base {
            break;
        }
        let ml = match list_marker(src, t, e) {
            Some((ml, o)) => {
                if o != ordered {
                    break;
                }
                ml
            },
            None => {
                break;
            },
        };
        let mut c = t + ml;
        let mut checked: Option<bool> = None;
        if e - c >= 4 && src[c] == 91u8 && (src[c + 1] == 32u8 || src[c + 1] == 120u8 || src[c + 1] == 88u8)
            && src[c + 2] == 93u8 && src[c + 3] == 32u8 {
            proof {
                lemma_skip(src@, c + 3);
            }
            checked = Some(src[c + 1] != 32u8);
            c = c + 4;
        }
        let width = ind + ml;
        let mut item_lines: Vec<(usize, usize)> = Vec::new();
        item_lines.push((c, e));
        let mut k = j + 1;
        while k < n
            invariant
                j < k <= n,
                n == lines@.len(),
                valid_utf8(src@),
                lines_ok(src@, lines@),
                lines_ok(src@, item_lines@),
                item_lines@.len() == k - j,
                width >= 2,
                item_lines@ + item_run(src@, lines@, k as int, width as int) == seq![(c, e)] + item_run(
                    src@,
                    lines@,
                    j + 1,
                    width as int,
                ),
            ensures
                j < k <= n,
                lines_ok(src@, item_lines@),
                item_lines@.len() == k - j,
                item_lines@ == seq![(c, e)] + item_run(src@, lines@, j + 1, width as int),
            decreases n - k,
        {
            if line_blank(src, lines, k) {
                assert(item_lines@ + Seq::<(usize, usize)>::empty() == item_lines@);
                break;
            }
            let (s3, e3) = lines[k];
            let (t3, ind3) = line_text(src, lines, k);
            if ind3 < width {
                assert(item_lines@ + Seq::<(usize, usize)>::empty() == item_lines@);
                break;
            }
            proof {
                assert(src@[s3 + width - 1] == 32u8);
                lemma_skip(src@, s3 + width - 1);
            }
            let ghost before = item_lines@;
            item_lines.push((s3 + width, e3));
            proof {
                let x = ((s3 + width) as usize, e3);
                assert(before.push(x) + item_run(src@, lines@, k + 1, width as int) == before + (seq![x] + item_run(
                    src@,
                    lines@,
                    k + 1,
                    width as int,
                )));
            }
            k = k + 1;
        }
        proof {
            if k == n {
                assert(item_lines@ + Seq::<(usize, usize)>::empty() == item_lines@);
            }
        }
        let mut children = parse_lines(src, &item_lines, fuel - 1);
        if children.len() == 0 {
            let empty = Paragraph { id: 0, text: Vec::new(), marks: Vec::new() };
            proof {
                lemma_ascii_valid(Seq::<u8>::empty());
                assert(node_paras(BlockNode::Paragraph(empty))[0] == empty@);
            }
            let ghost before = children@;
            let block = BlockNode::Paragraph(empty);
            push_block(&mut children, block);
            proof {
                lemma_seq_paras_push(before, block);
                lemma_seq_form_push(before, block);
                assert(before == Seq::<BlockNode>::empty());
            }
        }
        let item = BlockNode::ListItem { children, checked, spread: false };
        push_block(&mut items, item);
        proof {
            lemma_seq_paras_push(o0, item);
            lemma_seq_form_push(o0, item);
        }
        j = k;
    }
    let next = if j > i { j } else { i + 1 };
    (items, ordered, next)
}

} // verus!
