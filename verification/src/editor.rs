//! The editing commands of the rich text editor: a document with a
//! selection (an anchor and a caret) and the mark that typing will use.
//!
//! Each command keeps the document well formed and both ends of the
//! selection on positions of it. Commands that edit report whether they
//! ran: none do in a read-only editor.

use vstd::prelude::*;
use vstd::utf8::*;
use crate::document::{
    Document, Position, TextMark, ParaView, replaced_paras, replaced_pos, typed_mark, spec_ordered, index_of, merged,
    spec_mark_at, lemma_swapped_pos, lemma_index_of, str_bytes, string_from_utf8, lemma_valid_cut, seq_retagged,
    list_toggled, outdented, moved_blocks, spec_adjacent, list_made, task_made,
};
use crate::edit_rules::spells;
use crate::list_edit::{can_indent_of, seq_has_item, seq_item_pos, can_indent, is_nested, indented, para_index};
use crate::markdown::lemma_ascii_cut;
use crate::utf16::{chars_of, byte_offset, utf16_offset, byte_at_units, units_before, lemma_byte_at_units_boundary};

verus! {

broadcast use {encode_utf8_valid_utf8, encode_utf8_decode_utf8};

/// What typing a space after a Markdown prefix turns the paragraph into.
#[derive(Clone, Copy, Debug, PartialEq, Eq, Structural)]
pub enum Shortcut {
    /// A task, done when `checked`; `require_list` when the prefix had no
    /// bullet of its own.
    Task { checked: bool, require_list: bool },
    /// A heading of this level.
    Heading(u8),
    /// A list, numbered when `true`.
    List(bool),
    /// Nothing: the text stays as typed.
    Plain,
}

/// The shortcut that a paragraph reading `p` right after a typed space
/// stands for.
pub open spec fn spec_shortcut(p: Seq<char>) -> Shortcut {
    if p == "-[] "@ || p == "-[ ] "@ || p == "- [] "@ || p == "- [ ] "@ {
        Shortcut::Task { checked: false, require_list: false }
    } else if p == "-[x] "@ || p == "-[X] "@ || p == "- [x] "@ || p == "- [X] "@ {
        Shortcut::Task { checked: true, require_list: false }
    } else if p == "[] "@ || p == "[ ] "@ {
        Shortcut::Task { checked: false, require_list: true }
    } else if p == "[x] "@ || p == "[X] "@ {
        Shortcut::Task { checked: true, require_list: true }
    } else if p == "# "@ {
        Shortcut::Heading(1)
    } else if p == "## "@ {
        Shortcut::Heading(2)
    } else if p == "### "@ {
        Shortcut::Heading(3)
    } else if p == "- "@ || p == "* "@ {
        Shortcut::List(false)
    } else if p == "1. "@ {
        Shortcut::List(true)
    } else {
        Shortcut::Plain
    }
}

/// The shortcut a paragraph's text stands for once a space is typed.
pub fn shortcut_for(prefix: &str) -> (r: Shortcut)
    ensures
        r == spec_shortcut(prefix@),
{
    let cs = chars_of(prefix);
    if spells(&cs, "-[] ") || spells(&cs, "-[ ] ") || spells(&cs, "- [] ") || spells(&cs, "- [ ] ") {
        Shortcut::Task { checked: false, require_list: false }
    } else if spells(&cs, "-[x] ") || spells(&cs, "-[X] ") || spells(&cs, "- [x] ") || spells(&cs, "- [X] ") {
        Shortcut::Task { checked: true, require_list: false }
    } else if spells(&cs, "[] ") || spells(&cs, "[ ] ") {
        Shortcut::Task { checked: false, require_list: true }
    } else if spells(&cs, "[x] ") || spells(&cs, "[X] ") {
        Shortcut::Task { checked: true, require_list: true }
    } else if spells(&cs, "# ") {
        Shortcut::Heading(1)
    } else if spells(&cs, "## ") {
        Shortcut::Heading(2)
    } else if spells(&cs, "### ") {
        Shortcut::Heading(3)
    } else if spells(&cs, "- ") || spells(&cs, "* ") {
        Shortcut::List(false)
    } else if spells(&cs, "1. ") {
        Shortcut::List(true)
    } else {
        Shortcut::Plain
    }
}

/// Whether typing the line `line` at `at` in document `d` gives `new` with
/// the caret at `end`: the paragraph splits at `at` and the line goes at
/// the start of the new paragraph, marked `stored`, else as the text there.
/// Once identities run out, nothing changes.
pub open spec fn typed_line(d: Document, at: Position, line: Seq<u8>, stored: Option<TextMark>, new: Document, end: Position) -> bool {
    if d.next() < u64::MAX {
        let p = Position { block: d.next(), offset: 0 };
        let m = match stored {
            Some(m) => Some(&m),
            None => None,
        };
        exists|d1: Document| #[trigger] d.split_into(d1, at) && d1.replaced_into(new, p, p, line, typed_mark(d1.paras(), p, p, m))
            && end == replaced_pos(d1.paras(), p, p, line)
    } else {
        &&& new.blocks() == d.blocks()
        &&& new.next() == d.next()
        &&& end == at
    }
}

/// Whether `trace` steps through typing the lines `lines` one after
/// another (see `typed_line`): it holds the document and caret before each
/// line and after the last.
pub open spec fn typed_trace(lines: Seq<Seq<u8>>, stored: Option<TextMark>, trace: Seq<(Document, Position)>) -> bool {
    &&& trace.len() == lines.len() + 1
    &&& forall|i: int|
        #![trigger lines[i]]
        0 <= i < lines.len() ==> typed_line(trace[i].0, trace[i].1, lines[i], stored, trace[i + 1].0, trace[i + 1].1)
}

/// Whether typing the lines `lines` over the selection from `a` to `c` in
/// document `d` gives `new` with the caret at `end`: the first line
/// replaces the selection, and each later line is typed into a new
/// paragraph split off at the caret (see `typed_trace`, whose first step
/// starts from the replaced document). Typed text is
/// marked `stored`, else as the text where it goes.
pub open spec fn typed_text(d: Document, a: Position, c: Position, lines: Seq<Seq<u8>>, stored: Option<TextMark>, new: Document, end: Position) -> bool {
    let ps = d.paras();
    let m = match stored {
        Some(m) => Some(&m),
        None => None,
    };
    exists|trace: Seq<(Document, Position)>|
        {
            &&& #[trigger] typed_trace(lines.skip(1), stored, trace)
            &&& d.replaced_into(trace[0].0, a, c, lines[0], typed_mark(ps, a, c, m))
            &&& trace[0].1 == replaced_pos(ps, a, c, lines[0])
            &&& trace.last() == (new, end)
        }
}

/// Whether document `new`, with the caret at `end`, is what a space typed
/// at the collapsed caret `c` of `d` turns into: the paragraph's text up to
/// there reads a Markdown prefix (see `spec_shortcut`), the prefix is
/// deleted, and the paragraph becomes a task item, a heading or a list; a
/// task prefix that finds no item to make a task of, and plain text, change
/// nothing.
pub open spec fn shortcut_applied(d: Document, c: Position, new: Document, end: Position) -> bool {
    let id = c.block;
    let start = Position { block: id, offset: 0 };
    let ps = d.paras();
    match spec_shortcut(decode_utf8(ps[index_of(ps, id)].text)) {
        Shortcut::Task { checked, require_list } => if seq_has_item(d.blocks(), id) || (!require_list && para_index(
            d.blocks(),
            id,
        ) >= 0) {
            exists|d1: Document| #[trigger]
                d1.replaced_into(new, start, c, Seq::empty(), typed_mark(d1.paras(), start, c, None)) && task_made(
                    d.blocks(),
                    d1.blocks(),
                    id,
                    checked,
                    require_list,
                ) && d1.next() == d.next() && end == start
        } else {
            &&& new.blocks() == d.blocks()
            &&& new.next() == d.next()
            &&& end == c
        },
        Shortcut::Heading(level) => exists|d1: Document| #[trigger]
            d.replaced_into(d1, start, c, Seq::empty(), typed_mark(ps, start, c, None)) && seq_retagged(
                d1.blocks(),
                new.blocks(),
                id,
                level,
            ) && new.next() == d1.next() && end == start,
        Shortcut::List(ordered) => exists|d1: Document| #[trigger]
            d.replaced_into(d1, start, c, Seq::empty(), typed_mark(ps, start, c, None)) && list_made(
                d1.blocks(),
                new.blocks(),
                id,
                ordered,
            ) && new.next() == d1.next() && end == start,
        Shortcut::Plain => {
            &&& new.blocks() == d.blocks()
            &&& new.next() == d.next()
            &&& end == c
        },
    }
}

/// Whether a text has no line break.
pub open spec fn single_line(text: Seq<char>) -> bool {
    forall|i: int| 0 <= i < text.len() ==> text[i] != '\n' && text[i] != '\r'
}

/// Whether `text` has no line break.
fn is_single_line(text: &str) -> (r: bool)
    ensures
        r == single_line(text@),
{
    let cs = chars_of(text);
    let n = cs.len();
    let mut i: usize = 0;
    while i < n
        invariant
            n == cs@.len(),
            cs@ == text@,
            i <= n,
            forall|j: int| 0 <= j < i ==> cs@[j] != '\n' && cs@[j] != '\r',
        decreases n - i,
    {
        if cs[i] == '\n' || cs[i] == '\r' {
            return false;
        }
        i = i + 1;
    }
    true
}

/// Whether a byte ends a line: a line feed or a carriage return.
pub open spec fn is_break(c: u8) -> bool {
    c == 10 || c == 13
}

/// The index of the first line break of `b`, or its length.
pub open spec fn first_break(b: Seq<u8>) -> int
    decreases b.len(),
{
    if b.len() == 0 {
        0
    } else if is_break(b[0]) {
        0
    } else {
        1 + first_break(b.drop_first())
    }
}

/// The lines of `b`, split at `\r\n`, `\r` and `\n`.
pub open spec fn lines_of(b: Seq<u8>) -> Seq<Seq<u8>>
    decreases b.len(),
{
    let i = first_break(b);
    if 0 <= i < b.len() {
        let w: int = if b[i] == 13 && i + 1 < b.len() && b[i + 1] == 10 { 2 } else { 1 };
        seq![b.take(i)] + lines_of(b.skip(i + w))
    } else {
        seq![b]
    }
}

proof fn lemma_first_break(b: Seq<u8>, k: int)
    requires
        0 <= k <= b.len(),
        forall|j: int| 0 <= j < k ==> !is_break(#[trigger] b[j]),
        k < b.len() ==> is_break(b[k]),
    ensures
        first_break(b) == k,
    decreases k,
{
    if k > 0 {
        assert(!is_break(b[0]));
        assert forall|j: int| 0 <= j < k - 1 implies !is_break(#[trigger] b.drop_first()[j]) by {
            assert(b.drop_first()[j] == b[j + 1]);
        }
        if k < b.len() {
            assert(b.drop_first()[k - 1] == b[k]);
        }
        lemma_first_break(b.drop_first(), k - 1);
    }
}

/// The lines of `b` from `start`, where the next break is at `k`.
proof fn lemma_lines_at(b: Seq<u8>, start: int, k: int)
    requires
        0 <= start <= k <= b.len(),
        forall|j: int| start <= j < k ==> !is_break(#[trigger] b[j]),
    ensures
        k < b.len() && is_break(b[k]) ==> {
            let w: int = if b[k] == 13 && k + 1 < b.len() && b[k + 1] == 10 { 2 } else { 1 };
            lines_of(b.skip(start)) == seq![b.subrange(start, k)] + lines_of(b.skip(k + w))
        },
        k == b.len() ==> lines_of(b.skip(start)) == seq![b.subrange(start, k)],
{
    let t = b.skip(start);
    assert forall|j: int| 0 <= j < k - start implies !is_break(#[trigger] t[j]) by {
        assert(t[j] == b[start + j]);
    }
    if k < b.len() && is_break(b[k]) {
        assert(t[k - start] == b[k]);
        lemma_first_break(t, k - start);
        assert(t.take(k - start) == b.subrange(start, k));
        if k + 1 < b.len() {
            assert(t[k - start + 1] == b[k + 1]);
        }
        let w: int = if b[k] == 13 && k + 1 < b.len() && b[k + 1] == 10 { 2 } else { 1 };
        assert(t.skip(k - start + w) == b.skip(k + w));
    }
    if k == b.len() {
        lemma_first_break(t, k - start);
        assert(t == b.subrange(start, k));
    }
}

/// The lines of `bytes`, split at `\r\n`, `\r` and `\n`, each a byte range
/// between character boundaries.
fn break_lines(bytes: &Vec<u8>) -> (r: Vec<(usize, usize)>)
    requires
        valid_utf8(bytes@),
    ensures
        r@.len() > 0,
        forall|i: int| 0 <= i < r@.len() ==> {
            let (s, e) = #[trigger] r@[i];
            &&& s <= e <= bytes@.len()
            &&& is_char_boundary(bytes@, s as int)
            &&& is_char_boundary(bytes@, e as int)
        },
        r@.len() == lines_of(bytes@).len(),
        forall|i: int| 0 <= i < r@.len() ==> {
            let (s, e) = #[trigger] r@[i];
            bytes@.subrange(s as int, e as int) == lines_of(bytes@)[i]
        },
{
    let mut r: Vec<(usize, usize)> = Vec::new();
    let n = bytes.len();
    let mut start: usize = 0;
    let mut k: usize = 0;
    proof {
        is_char_boundary_start_end_of_seq(bytes@);
        assert(bytes@.skip(0) == bytes@);
        let empty = Seq::new(0, |i: int| bytes@.subrange(r@[i].0 as int, r@[i].1 as int));
        assert(empty + lines_of(bytes@) == lines_of(bytes@));
    }
    while k < n
        invariant
            n == bytes@.len(),
            valid_utf8(bytes@),
            start <= k <= n,
            is_char_boundary(bytes@, start as int),
            forall|i: int| 0 <= i < r@.len() ==> {
                let (s, e) = #[trigger] r@[i];
                &&& s <= e <= bytes@.len()
                &&& is_char_boundary(bytes@, s as int)
                &&& is_char_boundary(bytes@, e as int)
            },
            forall|j: int| start <= j < k ==> !is_break(#[trigger] bytes@[j]),
            lines_of(bytes@) == Seq::new(r@.len(), |i: int| bytes@.subrange(r@[i].0 as int, r@[i].1 as int)) + lines_of(
                bytes@.skip(start as int),
            ),
        decreases n - k,
    {
        let c = bytes[k];
        if c == 10u8 || c == 13u8 {
            proof {
                lemma_ascii_cut(bytes@, k as int);
                lemma_lines_at(bytes@, start as int, k as int);
            }
            let ghost before = r@;
            r.push((start, k));
            let ghost w: int = if c == 13u8 && k + 1 < n && bytes@[k + 1] == 10u8 { 2 } else { 1 };
            if c == 13u8 && k + 1 < n && bytes[k + 1] == 10u8 {
                proof {
                    lemma_ascii_cut(bytes@, k + 1);
                }
                k = k + 1;
            }
            start = k + 1;
            proof {
                let old_part = Seq::new(before.len(), |i: int| bytes@.subrange(before[i].0 as int, before[i].1 as int));
                let new_part = Seq::new(r@.len(), |i: int| bytes@.subrange(r@[i].0 as int, r@[i].1 as int));
                assert(new_part == old_part + seq![bytes@.subrange(r@.last().0 as int, r@.last().1 as int)]);
            }
        }
        k = k + 1;
    }
    proof {
        is_char_boundary_start_end_of_seq(bytes@);
        lemma_lines_at(bytes@, start as int, n as int);
    }
    let ghost before = r@;
    r.push((start, n));
    proof {
        let old_part = Seq::new(before.len(), |i: int| bytes@.subrange(before[i].0 as int, before[i].1 as int));
        let new_part = Seq::new(r@.len(), |i: int| bytes@.subrange(r@[i].0 as int, r@[i].1 as int));
        assert(new_part == old_part + seq![bytes@.subrange(start as int, n as int)]);
        assert forall|i: int| 0 <= i < r@.len() implies {
            let (s, e) = #[trigger] r@[i];
            bytes@.subrange(s as int, e as int) == lines_of(bytes@)[i]
        } by {
            assert(new_part[i] == bytes@.subrange(r@[i].0 as int, r@[i].1 as int));
        }
    }
    r
}

/// The text of `bytes[s..e]`, a cut between character boundaries.
fn cut_string(bytes: &Vec<u8>, s: usize, e: usize) -> (r: String)
    requires
        valid_utf8(bytes@),
        s <= e <= bytes@.len(),
        is_char_boundary(bytes@, s as int),
        is_char_boundary(bytes@, e as int),
    ensures
        encode_utf8(r@) == bytes@.subrange(s as int, e as int),
{
    let mut v: Vec<u8> = Vec::new();
    let mut k = s;
    while k < e
        invariant
            s <= k <= e,
            e <= bytes@.len(),
            v@ == bytes@.subrange(s as int, k as int),
        decreases e - k,
    {
        v.push(bytes[k]);
        assert(bytes@.subrange(s as int, k + 1) == bytes@.subrange(s as int, k as int).push(bytes@[k as int]));
        k = k + 1;
    }
    proof {
        lemma_valid_cut(bytes@, s as int, e as int);
        decode_utf8_encode_utf8(v@);
    }
    string_from_utf8(v)
}

/// A mark with bold (or italic) switched.
pub open spec fn switched(m: TextMark, bold: bool) -> TextMark {
    if bold {
        TextMark { bold: !m.bold, ..m }
    } else {
        TextMark { italic: !m.italic, ..m }
    }
}

/// The position in the paragraph of caret `c` at UTF-16 offset `u` of its
/// text: the start of the character the offset falls in, or the end.
pub open spec fn native_pos(d: Document, c: Position, u: int) -> Position {
    let ps = d.paras();
    Position { block: c.block, offset: byte_at_units(decode_utf8(ps[index_of(ps, c.block)].text), u) as usize }
}

/// In a text that holds `ins` right after `head`, each character boundary
/// of `ins` is one of the text, when the end of `ins` is.
proof fn lemma_inner_boundary(t: Seq<u8>, head: Seq<u8>, ins: Seq<u8>, k: int)
    requires
        valid_utf8(t),
        valid_utf8(ins),
        t.len() >= head.len() + ins.len(),
        t.subrange(head.len() as int, (head.len() + ins.len()) as int) == ins,
        0 <= k <= ins.len(),
        is_char_boundary(ins, k),
        is_char_boundary(t, (head.len() + ins.len()) as int),
    ensures
        is_char_boundary(t, head.len() + k),
{
    if k < ins.len() {
        assert(t[head.len() + k] == ins[k]);
        is_char_boundary_iff_not_is_continuation_byte(ins, k);
        is_char_boundary_iff_not_is_continuation_byte(t, head.len() + k);
    }
}

/// After `ins` replaced the selection from `a` to `b`, each character
/// boundary of `ins` is a position of the document, counted from where the
/// selection started.
proof fn lemma_inserted_boundary(d: Document, nd: Document, a: Position, b: Position, ins: Seq<u8>, mark: TextMark, k: int)
    requires
        d.wf(),
        nd.wf(),
        d.valid_pos(a),
        d.valid_pos(b),
        d.replaced_into(nd, a, b, ins, mark),
        nd.valid_pos(replaced_pos(d.paras(), a, b, ins)),
        spec_ordered(d.paras(), a, b).0.offset + ins.len() <= usize::MAX,
        valid_utf8(ins),
        0 <= k <= ins.len(),
        is_char_boundary(ins, k),
    ensures
        ({
            let start = spec_ordered(d.paras(), a, b).0;
            nd.valid_pos(Position { block: start.block, offset: (start.offset + k) as usize })
        }),
{
    let ps = d.paras();
    let np = nd.paras();
    let (x, y) = spec_ordered(ps, a, b);
    let i = index_of(ps, x.block);
    let ib = index_of(ps, y.block);
    lemma_index_of(ps, x.block);
    lemma_index_of(ps, y.block);
    assert(np[i].id == x.block);
    crate::document::lemma_index_of_distinct(np, i);
    let head = ps[i].text.take(x.offset as int);
    assert(np[i].text == head + ins + ps[ib].text.skip(y.offset as int));
    assert(head.len() == x.offset);
    assert(np[i].text.subrange(head.len() as int, (head.len() + ins.len()) as int) == ins);
    lemma_inner_boundary(np[i].text, head, ins, k);
}

/// A document with a selection, the mark that typing will use, and the
/// text an input method is composing.
#[derive(Debug)]
pub struct EditorCore {
    document: Document,
    anchor: Position,
    cursor: Position,
    stored: Option<TextMark>,
    readonly: bool,
    composition: Option<(Position, Position)>,
}

impl EditorCore {
    /// The document.
    pub closed spec fn doc(self) -> Document {
        self.document
    }

    /// The end of the selection that stays put.
    pub closed spec fn anchor_at(self) -> Position {
        self.anchor
    }

    /// The caret: the end of the selection that moves.
    pub closed spec fn cursor_at(self) -> Position {
        self.cursor
    }

    /// The mark typing will use, when one was chosen at a collapsed caret.
    pub closed spec fn stored_mark(self) -> Option<TextMark> {
        self.stored
    }

    /// Whether edits are refused.
    pub closed spec fn readonly_flag(self) -> bool {
        self.readonly
    }

    /// The text being composed by an input method, from its start to its
    /// end, when there is any.
    pub closed spec fn marked(self) -> Option<(Position, Position)> {
        self.composition
    }

    /// This editor with the selection from `a` to `c`.
    pub closed spec fn with_selection(self, a: Position, c: Position) -> EditorCore {
        EditorCore { anchor: a, cursor: c, ..self }
    }

    /// Whether `new` is this editor after `text` was typed over the
    /// selection: a line without breaks replaces it, marked with the stored
    /// mark or else as the text where it goes; a space may then turn a
    /// Markdown prefix into its block (see `shortcut_applied`); text with
    /// line breaks is typed line by line (see `typed_text`). The caret ends
    /// after the text with nothing selected, and nothing is being composed.
    pub open spec fn typed(self, text: Seq<char>, new: EditorCore) -> bool {
        let d = self.doc();
        let ps = d.paras();
        let (a, c) = (self.anchor_at(), self.cursor_at());
        let ins = encode_utf8(text);
        let stored = match self.stored_mark() {
            Some(m) => Some(&m),
            None => None,
        };
        &&& new.anchor_at() == new.cursor_at()
        &&& new.marked() is None
        &&& new.stored_mark() == self.stored_mark()
        &&& new.readonly_flag() == self.readonly_flag()
        &&& single_line(text) && text != " "@ ==> {
            &&& d.replaced_into(new.doc(), a, c, ins, typed_mark(ps, a, c, stored))
            &&& new.cursor_at() == replaced_pos(ps, a, c, ins)
        }
        &&& text == " "@ ==> exists|d1: Document|
            #[trigger] shortcut_applied(d1, replaced_pos(ps, a, c, ins), new.doc(), new.cursor_at()) && d.replaced_into(
                d1,
                a,
                c,
                ins,
                typed_mark(ps, a, c, stored),
            )
        &&& !single_line(text) ==> typed_text(d, a, c, lines_of(ins), self.stored_mark(), new.doc(), new.cursor_at())
    }

    /// The document is well formed, both ends of the selection are
    /// positions of it, and so are both ends of the text being composed,
    /// which lie in one paragraph.
    pub open spec fn wf(self) -> bool {
        &&& self.doc().wf()
        &&& self.doc().valid_pos(self.anchor_at())
        &&& self.doc().valid_pos(self.cursor_at())
        &&& match self.marked() {
            Some((a, b)) => a.block == b.block && self.doc().valid_pos(a) && self.doc().valid_pos(b),
            None => true,
        }
    }

    /// An editor of the Markdown `source`, with the caret at the start.
    pub fn new(source: &str) -> (r: Result<EditorCore, String>)
        ensures
            r is Ok <==> crate::document::readable(source@),
            r matches Ok(e) ==> {
                &&& e.wf()
                &&& crate::document::read_from(e.doc(), source@)
                &&& e.anchor_at() == e.cursor_at()
                &&& e.cursor_at() == (Position { block: e.doc().paras()[0].id, offset: 0 })
                &&& e.stored_mark() is None
                &&& !e.readonly_flag()
                &&& e.marked() is None
            },
            r is Err ==> encode_utf8(source@).len() + 2 >= u64::MAX,
    {
        match Document::parse(source) {
            Ok(document) => {
                let cursor = document.first();
                proof {
                    crate::document::lemma_index_of_distinct(document.paras(), 0);
                    assert(is_char_boundary(document.paras()[0].text, 0));
                }
                Ok(EditorCore { document, anchor: cursor, cursor, stored: None, readonly: false, composition: None })
            },
            Err(e) => Err(e),
        }
    }

    /// Replace the document with one read from `source`, with the caret at
    /// the start; nothing changes when it cannot be read.
    pub fn set_source(&mut self, source: &str) -> (r: Result<(), String>)
        requires
            old(self).wf(),
        ensures
            final(self).wf(),
            r is Err ==> *final(self) == *old(self),
            r is Ok <==> crate::document::readable(source@),
            r is Ok ==> crate::document::read_from(final(self).doc(), source@),
            r is Ok ==> final(self).anchor_at() == final(self).cursor_at() && final(self).cursor_at() == (Position {
                block: final(self).doc().paras()[0].id,
                offset: 0,
            }) && final(self).readonly_flag() == old(self).readonly_flag(),
            r is Ok ==> final(self).marked() is None && final(self).stored_mark() == old(self).stored_mark(),
            r is Err ==> encode_utf8(source@).len() + 2 >= u64::MAX,
    {
        match Document::parse(source) {
            Ok(document) => {
                let cursor = document.first();
                proof {
                    crate::document::lemma_index_of_distinct(document.paras(), 0);
                    assert(is_char_boundary(document.paras()[0].text, 0));
                }
                self.document = document;
                self.cursor = cursor;
                self.anchor = cursor;
                self.composition = None;
                Ok(())
            },
            Err(e) => Err(e),
        }
    }

    /// The document.
    pub fn document(&self) -> (r: &Document)
        ensures
            *r == self.doc(),
    {
        &self.document
    }

    /// The end of the selection that stays put.
    pub fn anchor(&self) -> (r: Position)
        ensures
            r == self.anchor_at(),
    {
        self.anchor
    }

    /// The caret.
    pub fn cursor(&self) -> (r: Position)
        ensures
            r == self.cursor_at(),
    {
        self.cursor
    }

    /// Whether edits are refused.
    pub fn is_readonly(&self) -> (r: bool)
        ensures
            r == self.readonly_flag(),
    {
        self.readonly
    }

    /// Refuse (or allow) edits. A change settles the text being composed.
    pub fn set_readonly(&mut self, readonly: bool)
        requires
            old(self).wf(),
        ensures
            final(self).wf(),
            final(self).readonly_flag() == readonly,
            final(self).doc() == old(self).doc(),
            final(self).anchor_at() == old(self).anchor_at(),
            final(self).cursor_at() == old(self).cursor_at(),
            final(self).stored_mark() == old(self).stored_mark(),
            final(self).marked() == (if readonly == old(self).readonly_flag() {
                old(self).marked()
            } else {
                None
            }),
    {
        if self.readonly == readonly {
            return;
        }
        self.composition = None;
        self.readonly = readonly;
    }

    /// The document as Markdown.
    pub fn source(&self) -> (r: String)
        requires
            self.wf(),
        ensures
            r@ == decode_utf8(crate::markdown::md_blocks(self.doc().blocks())),
    {
        self.document.source()
    }

    /// The selected text, one line per paragraph.
    pub fn selected_text(&self) -> (r: String)
        requires
            self.wf(),
        ensures
            r@ == decode_utf8(crate::document::join_lines(crate::document::selected_pieces(
                self.doc().paras(),
                self.anchor_at(),
                self.cursor_at(),
            ))),
    {
        self.document.selected(self.anchor, self.cursor)
    }

    /// Move the caret to `position`, taking the anchor along unless
    /// `extend`; typing forgets any chosen mark.
    pub fn place(&mut self, position: Position, extend: bool)
        requires
            old(self).wf(),
            old(self).doc().valid_pos(position),
        ensures
            final(self).wf(),
            final(self).doc() == old(self).doc(),
            final(self).cursor_at() == position,
            final(self).anchor_at() == (if extend { old(self).anchor_at() } else { position }),
            final(self).stored_mark() is None,
            final(self).readonly_flag() == old(self).readonly_flag(),
    {
        self.cursor = position;
        if !extend {
            self.anchor = position;
        }
        self.stored = None;
    }

    /// Drag a selection begun over `start..end` (a word, after a double
    /// click, or one place) to `position`: dragging before the start selects
    /// back to the end, dragging past the end selects on from the start,
    /// and dragging inside keeps the whole of it selected.
    pub fn drag_select(&mut self, start: Position, end: Position, position: Position)
        requires
            old(self).wf(),
            old(self).doc().valid_pos(start),
            old(self).doc().valid_pos(end),
            old(self).doc().valid_pos(position),
        ensures
            final(self).wf(),
            final(self).doc() == old(self).doc(),
            final(self).stored_mark() is None,
            final(self).readonly_flag() == old(self).readonly_flag(),
            ({
                let ps = old(self).doc().paras();
                if spec_ordered(ps, position, start).0 == position {
                    final(self).anchor_at() == end && final(self).cursor_at() == position
                } else if spec_ordered(ps, end, position).0 == end {
                    final(self).anchor_at() == start && final(self).cursor_at() == position
                } else {
                    final(self).anchor_at() == start && final(self).cursor_at() == end
                }
            }),
    {
        if self.document.ordered(position, start).0 == position {
            self.anchor = end;
            self.place(position, true);
        } else if self.document.ordered(end, position).0 == end {
            self.anchor = start;
            self.place(position, true);
        } else {
            self.anchor = start;
            self.place(end, true);
        }
    }

    /// Move the caret one grapheme forward (or back). Without `extend`, a
    /// selection collapses to its end in that direction instead.
    pub fn horizontal(&mut self, forward: bool, extend: bool)
        requires
            old(self).wf(),
        ensures
            final(self).wf(),
            final(self).doc() == old(self).doc(),
            ({
                let (a, b) = spec_ordered(old(self).doc().paras(), old(self).anchor_at(), old(self).cursor_at());
                let next = if !extend && a != b {
                    if forward { b } else { a }
                } else {
                    crate::document::spec_adjacent(old(self).doc().paras(), old(self).cursor_at(), forward)
                };
                &&& final(self).cursor_at() == next
                &&& final(self).anchor_at() == (if extend { old(self).anchor_at() } else { next })
            }),
    {
        let (a, b) = self.document.ordered(self.anchor, self.cursor);
        let next = if !extend && a != b {
            if forward { b } else { a }
        } else {
            self.document.adjacent(self.cursor, forward)
        };
        self.place(next, extend);
    }

    /// Type `text` over the selection. Line breaks (`\r\n`, `\r` or `\n`)
    /// split the paragraph. A space typed right after a Markdown prefix (a
    /// bullet, a number, `#`s or a task box) turns the paragraph into that
    /// block and drops the prefix. Returns whether the edit ran.
    pub fn insert(&mut self, text: &str) -> (r: bool)
        requires
            old(self).wf(),
        ensures
            final(self).wf(),
            r == !old(self).readonly_flag(),
            !r ==> *final(self) == *old(self),
            r ==> old(self).typed(text@, *final(self)),
    {
        if self.readonly {
            return false;
        }
        self.composition = None;
        proof {
            reveal_strlit(" ");
        }
        if is_single_line(text) {
            let stored = self.stored;
            let ghost d0 = self.document;
            let ghost (a0, c0) = (self.anchor, self.cursor);
            let sref = stored.as_ref();
            self.cursor = self.document.replace(self.anchor, self.cursor, text, sref);
            self.anchor = self.cursor;
            let ghost d1 = self.document;
            let ghost p1 = self.cursor;
            if spells(&chars_of(text), " ") {
                self.apply_shortcut();
                proof {
                    let sr = match stored {
                        Some(m) => Some(&m),
                        None => None,
                    };
                    assert(sref == sr);
                    assert(d0.replaced_into(d1, a0, c0, encode_utf8(text@), typed_mark(d0.paras(), a0, c0, sr)));
                    assert(shortcut_applied(d1, p1, self.document, self.cursor));
                }
            }
            return true;
        }
        let bytes = str_bytes(text);
        let lines = break_lines(&bytes);
        let ghost ls = lines_of(bytes@);
        let (s0, e0) = lines[0];
        assert({
            let (s, e) = lines@[0];
            s <= e
        });
        let first = cut_string(&bytes, s0, e0);
        let stored = self.stored;
        let ghost d0 = self.document;
        let ghost (a0, c0) = (self.anchor, self.cursor);
        let sref = stored.as_ref();
        self.cursor = self.document.replace(self.anchor, self.cursor, first.as_str(), sref);
        let ghost d1 = self.document;
        let ghost p1 = self.cursor;
        assert(encode_utf8(first@) == ls[0]);
        let ghost mut trace: Seq<(Document, Position)> = seq![(d1, p1)];
        proof {
            assert(ls.subrange(1, 1) =~= Seq::<Seq<u8>>::empty());
        }
        let n = lines.len();
        let mut k: usize = 1;
        while k < n
            invariant
                n == lines@.len(),
                n == ls.len(),
                ls == lines_of(bytes@),
                1 <= k <= n,
                valid_utf8(bytes@),
                forall|i: int| 0 <= i < lines@.len() ==> {
                    let (s, e) = #[trigger] lines@[i];
                    &&& s <= e <= bytes@.len()
                    &&& is_char_boundary(bytes@, s as int)
                    &&& is_char_boundary(bytes@, e as int)
                    &&& bytes@.subrange(s as int, e as int) == ls[i]
                },
                self.document.wf(),
                self.document.valid_pos(self.cursor),
                !self.readonly,
                self.stored == stored,
                self.composition is None,
                typed_trace(ls.subrange(1, k as int), stored, trace),
                trace[0] == (d1, p1),
                trace.last() == (self.document, self.cursor),
            decreases n - k,
        {
            let ghost mid = self.document;
            let ghost m = self.cursor;
            let (s, e) = lines[k];
            assert(lines@[k as int] == (s, e));
            assert(bytes@.subrange(s as int, e as int) == ls[k as int]);
            self.type_line(&bytes, s, e, stored);
            proof {
                let t = ls.subrange(1, k + 1);
                let old_trace = trace;
                trace = trace.push((self.document, self.cursor));
                assert(typed_line(mid, m, ls[k as int], stored, self.document, self.cursor));
                assert forall|i: int| 0 <= i < t.len() implies typed_line(trace[i].0, trace[i].1, #[trigger] t[i], stored, trace[i + 1].0, trace[i + 1].1) by {
                    if i < t.len() - 1 {
                        assert(t[i] == ls.subrange(1, k as int)[i]);
                        assert(trace[i] == old_trace[i] && trace[i + 1] == old_trace[i + 1]);
                    } else {
                        assert(t[i] == ls[k as int]);
                        assert(trace[i] == old_trace.last());
                    }
                }
            }
            k = k + 1;
        }
        proof {
            assert(ls.subrange(1, n as int) == ls.skip(1));
            let sr = match stored {
                Some(m) => Some(&m),
                None => None,
            };
            assert(sref == sr);
            assert(d0.replaced_into(d1, a0, c0, ls[0], typed_mark(d0.paras(), a0, c0, sr)));
        }
        self.anchor = self.cursor;
        assert(typed_text(d0, a0, c0, ls, stored, self.document, self.cursor));
        true
    }

    /// Split the paragraph at the caret and type the line `bytes[s..e]` at
    /// the start of the new one (see `typed_line`).
    fn type_line(&mut self, bytes: &Vec<u8>, s: usize, e: usize, stored: Option<TextMark>)
        requires
            old(self).document.wf(),
            old(self).document.valid_pos(old(self).cursor),
            valid_utf8(bytes@),
            s <= e <= bytes@.len(),
            is_char_boundary(bytes@, s as int),
            is_char_boundary(bytes@, e as int),
        ensures
            final(self).document.wf(),
            final(self).document.valid_pos(final(self).cursor),
            final(self).readonly == old(self).readonly,
            final(self).stored == old(self).stored,
            final(self).composition == old(self).composition,
            typed_line(old(self).document, old(self).cursor, bytes@.subrange(s as int, e as int), stored, final(self).document, final(self).cursor),
    {
        if self.document.next_id() < u64::MAX {
            let ghost d = self.document;
            let ghost at = self.cursor;
            self.cursor = self.document.split(self.cursor);
            let ghost dd = self.document;
            let line = cut_string(bytes, s, e);
            let c = self.cursor;
            self.cursor = self.document.replace(c, c, line.as_str(), stored.as_ref());
            assert(d.split_into(dd, at));
        }
    }

    /// After a space typed at the caret: turn the paragraph into what its
    /// Markdown prefix stands for.
    fn apply_shortcut(&mut self)
        requires
            old(self).wf(),
            old(self).anchor_at() == old(self).cursor_at(),
            old(self).composition is None,
        ensures
            final(self).wf(),
            final(self).composition is None,
            final(self).anchor_at() == final(self).cursor_at(),
            final(self).readonly_flag() == old(self).readonly_flag(),
            final(self).stored_mark() == old(self).stored_mark(),
            shortcut_applied(old(self).doc(), old(self).cursor_at(), final(self).doc(), final(self).cursor_at()),
    {
        proof {
            reveal_strlit("");
            assert(encode_utf8(""@) =~= Seq::<u8>::empty());
        }
        let ghost d0 = self.document;
        let ghost c0 = self.cursor;
        let prefix = self.document.text(self.cursor.block);
        proof {
            lemma_index_of(self.document.paras(), self.cursor.block);
        }
        match shortcut_for(prefix.as_str()) {
            Shortcut::Task { checked, require_list } => {
                if self.document.make_task(self.cursor.block, checked, require_list) {
                    let ghost d1 = self.document;
                    let start = Position { block: self.cursor.block, offset: 0 };
                    proof {
                        let i = self.document.index(start.block);
                        lemma_index_of(self.document.paras(), start.block);
                    assert(self.document.paras()[i].wf());
                    assert(is_char_boundary(self.document.paras()[i].text, 0));
                    }
                    self.cursor = self.document.replace(start, self.cursor, "", None);
                    self.anchor = self.cursor;
                    assert(d1.replaced_into(self.document, start, c0, Seq::empty(), typed_mark(d1.paras(), start, c0, None)));
                }
            },
            Shortcut::Heading(level) => {
                let start = Position { block: self.cursor.block, offset: 0 };
                proof {
                    let i = self.document.index(start.block);
                    lemma_index_of(self.document.paras(), start.block);
                    assert(self.document.paras()[i].wf());
                    assert(is_char_boundary(self.document.paras()[i].text, 0));
                }
                self.cursor = self.document.replace(start, self.cursor, "", None);
                self.anchor = self.cursor;
                let ghost d1 = self.document;
                assert(d0.replaced_into(d1, start, c0, Seq::empty(), typed_mark(d0.paras(), start, c0, None)));
                self.document.heading(self.cursor.block, level);
            },
            Shortcut::List(ordered) => {
                let start = Position { block: self.cursor.block, offset: 0 };
                proof {
                    let i = self.document.index(start.block);
                    lemma_index_of(self.document.paras(), start.block);
                    assert(self.document.paras()[i].wf());
                    assert(is_char_boundary(self.document.paras()[i].text, 0));
                }
                self.cursor = self.document.replace(start, self.cursor, "", None);
                self.anchor = self.cursor;
                let ghost d1 = self.document;
                assert(d0.replaced_into(d1, start, c0, Seq::empty(), typed_mark(d0.paras(), start, c0, None)));
                self.document.make_list(self.cursor.block, ordered);
            },
            Shortcut::Plain => {},
        }
    }

    /// Delete the selection, or the grapheme before (or after) a collapsed
    /// caret. Backspace in an empty paragraph of a list item promotes the
    /// item instead. Returns whether the edit ran.
    pub fn delete(&mut self, forward: bool) -> (r: bool)
        requires
            old(self).wf(),
        ensures
            final(self).wf(),
            r == !old(self).readonly_flag(),
            r ==> final(self).marked() is None,
            !r ==> *final(self) == *old(self),
            r ==> final(self).anchor_at() == final(self).cursor_at(),
            r ==> ({
                let (a, c) = (old(self).anchor_at(), old(self).cursor_at());
                let d = old(self).doc();
                let ps = d.paras();
                if a == c && !forward && c.offset == 0 && decode_utf8(ps[index_of(ps, c.block)].text).len() == 0
                    && seq_has_item(d.blocks(), c.block) {
                    &&& outdented(d.blocks(), final(self).doc().blocks(), c.block)
                    &&& final(self).doc().next() == d.next()
                    &&& final(self).cursor_at() == c
                } else {
                    let from = if a == c { spec_adjacent(ps, c, forward) } else { a };
                    &&& d.replaced_into(final(self).doc(), from, c, Seq::empty(), typed_mark(ps, from, c, None))
                    &&& final(self).cursor_at() == replaced_pos(ps, from, c, Seq::empty())
                }
            }),
    {
        if self.readonly {
            return false;
        }
        self.composition = None;
        let ghost d0 = self.document;
        let ghost c0 = self.cursor;
        proof {
            reveal_strlit("");
            assert(encode_utf8(""@) =~= Seq::<u8>::empty());
        }
        if self.anchor == self.cursor {
            if !forward && self.cursor.offset == 0 && self.document.text(self.cursor.block).as_str().is_empty() {
                if self.outdent_at_caret() {
                    return true;
                }
            }
            self.anchor = self.document.adjacent(self.cursor, forward);
        }
        let ghost a1 = self.anchor;
        let ghost d1 = self.document;
        self.cursor = self.document.replace(self.anchor, self.cursor, "", None);
        assert(d1.replaced_into(self.document, a1, c0, Seq::empty(), typed_mark(d1.paras(), a1, c0, None)));
        self.anchor = self.cursor;
        true
    }

    /// Promote the list item headed by the caret's paragraph, keeping the
    /// caret where it is. Returns whether there was such an item.
    fn outdent_at_caret(&mut self) -> (r: bool)
        requires
            old(self).wf(),
            old(self).anchor_at() == old(self).cursor_at(),
            old(self).composition is None,
        ensures
            final(self).wf(),
            final(self).composition is None,
            final(self).anchor_at() == final(self).cursor_at(),
            final(self).cursor_at() == old(self).cursor_at(),
            final(self).readonly_flag() == old(self).readonly_flag(),
            final(self).stored_mark() == old(self).stored_mark(),
            r == seq_has_item(old(self).doc().blocks(), old(self).cursor_at().block),
            !r ==> final(self).doc().blocks() == old(self).doc().blocks(),
            final(self).doc().next() == old(self).doc().next(),
            outdented(old(self).doc().blocks(), final(self).doc().blocks(), old(self).cursor_at().block),
    {
        let ghost before = self.document.paras();
        let ghost blocks = self.document.blocks();
        let id = self.cursor.block;
        let r = self.document.outdent_list(id);
        proof {
            if r && is_nested(blocks, id) {
                lemma_swapped_pos(before, self.document.paras(), id, self.cursor);
            }
        }
        r
    }

    /// Split the paragraph at the caret, after deleting the selection. In
    /// an empty list item, promote the item instead. Returns whether the
    /// edit ran.
    pub fn enter(&mut self) -> (r: bool)
        requires
            old(self).wf(),
        ensures
            final(self).wf(),
            r == !old(self).readonly_flag(),
            r ==> final(self).marked() is None,
            !r ==> *final(self) == *old(self),
            r ==> final(self).anchor_at() == final(self).cursor_at(),
            r ==> ({
                let (a, c) = (old(self).anchor_at(), old(self).cursor_at());
                let d = old(self).doc();
                let ps = d.paras();
                let p1 = replaced_pos(ps, a, c, Seq::empty());
                exists|d1: Document| #[trigger] d.replaced_into(d1, a, c, Seq::empty(), typed_mark(ps, a, c, None)) && ({
                    let qs = d1.paras();
                    if decode_utf8(qs[index_of(qs, p1.block)].text).len() == 0 && seq_has_item(d1.blocks(), p1.block) {
                        &&& outdented(d1.blocks(), final(self).doc().blocks(), p1.block)
                        &&& final(self).doc().next() == d1.next()
                        &&& final(self).cursor_at() == p1
                    } else if d1.next() < u64::MAX {
                        &&& d1.split_into(final(self).doc(), p1)
                        &&& final(self).cursor_at() == (Position { block: d1.next(), offset: 0 })
                    } else {
                        &&& final(self).doc().blocks() == d1.blocks()
                        &&& final(self).doc().next() == d1.next()
                        &&& final(self).cursor_at() == p1
                    }
                })
            }),
    {
        if self.readonly {
            return false;
        }
        self.composition = None;
        proof {
            reveal_strlit("");
            assert(encode_utf8(""@) =~= Seq::<u8>::empty());
        }
        let ghost d0 = self.document;
        let ghost (a0, c0) = (self.anchor, self.cursor);
        self.cursor = self.document.replace(self.anchor, self.cursor, "", None);
        self.anchor = self.cursor;
        let ghost d1 = self.document;
        assert(d0.replaced_into(d1, a0, c0, Seq::empty(), typed_mark(d0.paras(), a0, c0, None)));
        if self.document.text(self.cursor.block).as_str().is_empty() && self.outdent_at_caret() {
            return true;
        }
        if self.document.next_id() < u64::MAX {
            self.cursor = self.document.split(self.cursor);
            self.anchor = self.cursor;
        }
        true
    }

    /// Nest the list item headed by the caret's paragraph under the item
    /// before it, when that item can hold it. Returns whether the edit ran.
    pub fn indent_list(&mut self) -> (r: bool)
        requires
            old(self).wf(),
        ensures
            final(self).wf(),
            r == !old(self).readonly_flag(),
            r ==> final(self).marked() is None,
            !r ==> *final(self) == *old(self),
            r ==> final(self).doc().next() == old(self).doc().next(),
            r ==> ({
                let (b, id) = (old(self).doc().blocks(), old(self).cursor_at().block);
                if can_indent(b, id) {
                    indented(b, final(self).doc().blocks(), id)
                } else {
                    final(self).doc().blocks() == b
                }
            }),
            final(self).doc().paras() == old(self).doc().paras(),
            final(self).anchor_at() == old(self).anchor_at(),
            final(self).cursor_at() == old(self).cursor_at(),
            final(self).stored_mark() == old(self).stored_mark(),
    {
        if self.readonly {
            return false;
        }
        self.composition = None;
        let id = self.cursor.block;
        if can_indent_of(self.document.block_nodes(), id) {
            self.document.indent_list(id);
        }
        true
    }

    /// Promote the list item headed by the caret's paragraph. Returns
    /// whether the edit ran.
    pub fn outdent_list(&mut self) -> (r: bool)
        requires
            old(self).wf(),
        ensures
            final(self).wf(),
            r == !old(self).readonly_flag(),
            r ==> final(self).marked() is None,
            !r ==> *final(self) == *old(self),
            r ==> final(self).doc().next() == old(self).doc().next(),
            r ==> outdented(old(self).doc().blocks(), final(self).doc().blocks(), old(self).cursor_at().block),
            final(self).anchor_at() == old(self).anchor_at(),
            final(self).cursor_at() == old(self).cursor_at(),
            final(self).stored_mark() == old(self).stored_mark(),
    {
        if self.readonly {
            return false;
        }
        self.composition = None;
        let ghost before = self.document.paras();
        let ghost blocks = self.document.blocks();
        let id = self.cursor.block;
        let moved = self.document.outdent_list(id);
        proof {
            if moved && is_nested(blocks, id) {
                lemma_swapped_pos(before, self.document.paras(), id, self.cursor);
                lemma_swapped_pos(before, self.document.paras(), id, self.anchor);
            }
        }
        true
    }

    /// What toggling bold (or italic) does, `r` saying whether the document
    /// was edited: at a collapsed caret the mark typing will use switches,
    /// starting from the mark there; over a selection the selection is
    /// formatted; a read-only editor stays as it is.
    pub open spec fn format_toggled(self, next: Self, bold: bool, r: bool) -> bool {
        &&& r == (!self.readonly_flag() && self.anchor_at() != self.cursor_at())
        &&& self.readonly_flag() ==> next == self
        &&& next.anchor_at() == self.anchor_at()
        &&& next.cursor_at() == self.cursor_at()
        &&& !self.readonly_flag() && self.anchor_at() == self.cursor_at() ==> {
            let base = match self.stored_mark() {
                Some(m) => m,
                None => spec_mark_at(self.doc().paras(), self.cursor_at()),
            };
            &&& next.stored_mark() == Some(switched(base, bold))
            &&& next.doc() == self.doc()
        }
        &&& r ==> self.doc().formatted_into(next.doc(), self.anchor_at(), self.cursor_at(), bold)
        &&& r ==> next.stored_mark() == self.stored_mark()
        &&& r ==> next.marked() is None
        &&& !r ==> next.marked() == self.marked()
    }

    /// Toggle bold (or italic). At a collapsed caret this switches the mark
    /// typing will use, starting from the mark there; over a selection it
    /// formats the selection. Returns whether the document was edited.
    pub fn toggle_format(&mut self, bold: bool) -> (r: bool)
        requires
            old(self).wf(),
        ensures
            final(self).wf(),
            old(self).format_toggled(*final(self), bold, r),
    {
        if self.readonly {
            return false;
        }
        if self.anchor == self.cursor {
            let base = match self.stored {
                Some(m) => m,
                None => self.document.mark_at(self.cursor),
            };
            let next = if bold {
                TextMark { bold: !base.bold, ..base }
            } else {
                TextMark { italic: !base.italic, ..base }
            };
            self.stored = Some(next);
            return false;
        }
        self.composition = None;
        let ghost ps = self.document.paras();
        let ghost on = !crate::document::all_formatted(ps, self.anchor, self.cursor, bold);
        self.document.format(self.anchor, self.cursor, bold);
        proof {
            crate::document::lemma_format_keeps_places(ps, self.anchor, self.cursor, bold, on, self.anchor.block);
            crate::document::lemma_format_keeps_places(ps, self.anchor, self.cursor, bold, on, self.cursor.block);
        }
        true
    }

    /// Toggle bold: `toggle_format` with `bold` set.
    pub fn toggle_bold(&mut self) -> (r: bool)
        requires
            old(self).wf(),
        ensures
            final(self).wf(),
            old(self).format_toggled(*final(self), true, r),
    {
        self.toggle_format(true)
    }

    /// Toggle italic: `toggle_format` with `bold` clear.
    pub fn toggle_italic(&mut self) -> (r: bool)
        requires
            old(self).wf(),
        ensures
            final(self).wf(),
            old(self).format_toggled(*final(self), false, r),
    {
        self.toggle_format(false)
    }

    /// Make the caret's paragraph a heading of `level` (a plain paragraph
    /// for 0). Returns whether the edit ran.
    pub fn set_heading(&mut self, level: u8) -> (r: bool)
        requires
            old(self).wf(),
        ensures
            final(self).wf(),
            r == !old(self).readonly_flag(),
            r ==> final(self).marked() is None,
            !r ==> *final(self) == *old(self),
            r ==> final(self).doc().next() == old(self).doc().next(),
            r ==> seq_retagged(old(self).doc().blocks(), final(self).doc().blocks(), old(self).cursor_at().block, level),
            final(self).doc().paras() == old(self).doc().paras(),
            final(self).anchor_at() == old(self).anchor_at(),
            final(self).cursor_at() == old(self).cursor_at(),
            final(self).stored_mark() == old(self).stored_mark(),
    {
        if self.readonly {
            return false;
        }
        self.composition = None;
        self.document.heading(self.cursor.block, level);
        true
    }

    /// Toggle a bullet list on the caret's paragraph. Returns whether the
    /// edit ran.
    pub fn toggle_list(&mut self) -> (r: bool)
        requires
            old(self).wf(),
        ensures
            final(self).wf(),
            r == !old(self).readonly_flag(),
            r ==> final(self).marked() is None,
            !r ==> *final(self) == *old(self),
            r ==> final(self).doc().next() == old(self).doc().next(),
            r ==> list_toggled(old(self).doc().blocks(), final(self).doc().blocks(), old(self).cursor_at().block),
            final(self).doc().paras() == old(self).doc().paras(),
            final(self).anchor_at() == old(self).anchor_at(),
            final(self).cursor_at() == old(self).cursor_at(),
            final(self).stored_mark() == old(self).stored_mark(),
    {
        if self.readonly {
            return false;
        }
        self.composition = None;
        self.document.list(self.cursor.block);
        true
    }

    /// What moving the top-level block holding the caret's paragraph one
    /// place down (or up) does, `r` saying whether the edit ran.
    pub open spec fn block_moved(self, next: Self, down: bool, r: bool) -> bool {
        &&& r == !self.readonly_flag()
        &&& r ==> next.marked() is None
        &&& !r ==> next == self
        &&& r ==> next.doc().next() == self.doc().next()
        &&& r ==> next.doc().blocks() == moved_blocks(self.doc().blocks(), self.cursor_at().block, down)
        &&& next.anchor_at() == self.anchor_at()
        &&& next.cursor_at() == self.cursor_at()
        &&& next.stored_mark() == self.stored_mark()
    }

    /// Move the top-level block holding the caret's paragraph one place
    /// down (or up). Returns whether the edit ran.
    pub fn move_block(&mut self, down: bool) -> (r: bool)
        requires
            old(self).wf(),
        ensures
            final(self).wf(),
            old(self).block_moved(*final(self), down, r),
    {
        if self.readonly {
            return false;
        }
        self.composition = None;
        self.document.move_block(self.cursor.block, down);
        true
    }

    /// Move the caret's top-level block one place up.
    pub fn move_block_up(&mut self) -> (r: bool)
        requires
            old(self).wf(),
        ensures
            final(self).wf(),
            old(self).block_moved(*final(self), false, r),
    {
        self.move_block(false)
    }

    /// Move the caret's top-level block one place down.
    pub fn move_block_down(&mut self) -> (r: bool)
        requires
            old(self).wf(),
        ensures
            final(self).wf(),
            old(self).block_moved(*final(self), true, r),
    {
        self.move_block(true)
    }

    /// The positions in the caret's paragraph at the UTF-16 offsets `start`
    /// and `end` of its text, as native text input counts them.
    fn native_range(&self, start: usize, end: usize) -> (r: (Position, Position))
        requires
            self.wf(),
        ensures
            r == (native_pos(self.doc(), self.cursor_at(), start as int), native_pos(self.doc(), self.cursor_at(), end as int)),
            self.doc().valid_pos(r.0),
            self.doc().valid_pos(r.1),
    {
        let text = self.document.text(self.cursor.block);
        proof {
            let ps = self.document.paras();
            lemma_index_of(ps, self.cursor.block);
            decode_utf8_encode_utf8(ps[index_of(ps, self.cursor.block)].text);
            lemma_byte_at_units_boundary(text@, start as int);
            lemma_byte_at_units_boundary(text@, end as int);
        }
        let a = byte_offset(text.as_str(), start);
        let b = byte_offset(text.as_str(), end);
        (Position { block: self.cursor.block, offset: a }, Position { block: self.cursor.block, offset: b })
    }

    /// The text between the UTF-16 offsets `start` and `end` of the caret's
    /// paragraph, and those offsets moved to the starts of the characters
    /// they fall in.
    pub fn text_for_range(&self, start: usize, end: usize) -> (r: (String, usize, usize))
        requires
            self.wf(),
            native_pos(self.doc(), self.cursor_at(), start as int).offset <= native_pos(
                self.doc(),
                self.cursor_at(),
                end as int,
            ).offset,
        ensures
            ({
                let ps = self.doc().paras();
                let t = ps[index_of(ps, self.cursor_at().block)].text;
                let a = native_pos(self.doc(), self.cursor_at(), start as int).offset;
                let b = native_pos(self.doc(), self.cursor_at(), end as int).offset;
                &&& r.0@ == decode_utf8(t.subrange(a as int, b as int))
                &&& r.1 == units_before(decode_utf8(t), a as int)
                &&& r.2 == units_before(decode_utf8(t), b as int)
            }),
    {
        let text = self.document.text(self.cursor.block);
        let (a, b) = self.native_range(start, end);
        let ghost ps = self.document.paras();
        proof {
            lemma_index_of(ps, self.cursor.block);
            decode_utf8_encode_utf8(ps[index_of(ps, self.cursor.block)].text);
        }
        let bytes = str_bytes(text.as_str());
        let piece = cut_string(&bytes, a.offset, b.offset);
        let ua = utf16_offset(text.as_str(), a.offset);
        let ub = utf16_offset(text.as_str(), b.offset);
        (piece, ua, ub)
    }

    /// The selection in the caret's paragraph as UTF-16 offsets of its
    /// text, and whether the caret is at its start; a selection across
    /// paragraphs counts as the caret alone.
    pub fn selected_text_range(&self) -> (r: (usize, usize, bool))
        requires
            self.wf(),
        ensures
            ({
                let ps = self.doc().paras();
                let (an, c) = (self.anchor_at(), self.cursor_at());
                let t = decode_utf8(ps[index_of(ps, c.block)].text);
                let (a, b) = if an.block == c.block {
                    spec_ordered(ps, an, c)
                } else {
                    (c, c)
                };
                &&& r.0 == units_before(t, a.offset as int)
                &&& r.1 == units_before(t, b.offset as int)
                &&& r.2 == (c == a && a != b)
            }),
    {
        let text = self.document.text(self.cursor.block);
        let (a, b) = if self.anchor.block == self.cursor.block {
            self.document.ordered(self.anchor, self.cursor)
        } else {
            (self.cursor, self.cursor)
        };
        proof {
            let ps = self.document.paras();
            lemma_index_of(ps, self.cursor.block);
            decode_utf8_encode_utf8(ps[index_of(ps, self.cursor.block)].text);
        }
        let ua = utf16_offset(text.as_str(), a.offset);
        let ub = utf16_offset(text.as_str(), b.offset);
        (ua, ub, self.cursor == a && a != b)
    }

    /// The text being composed as UTF-16 offsets of its paragraph's text.
    pub fn marked_text_range(&self) -> (r: Option<(usize, usize)>)
        requires
            self.wf(),
        ensures
            self.marked() is None ==> r is None,
            self.marked() matches Some((a, b)) ==> {
                let ps = self.doc().paras();
                let t = decode_utf8(ps[index_of(ps, a.block)].text);
                &&& r is Some
                &&& r.unwrap().0 == units_before(t, a.offset as int)
                &&& r.unwrap().1 == units_before(t, b.offset as int)
            },
    {
        match self.composition {
            None => None,
            Some((a, b)) => {
                let text = self.document.text(a.block);
                proof {
                    let ps = self.document.paras();
                    lemma_index_of(ps, a.block);
                    decode_utf8_encode_utf8(ps[index_of(ps, a.block)].text);
                }
                let ua = utf16_offset(text.as_str(), a.offset);
                let ub = utf16_offset(text.as_str(), b.offset);
                Some((ua, ub))
            },
        }
    }

    /// Settle the text being composed: it stays as it is.
    pub fn unmark_text(&mut self)
        requires
            old(self).wf(),
        ensures
            final(self).wf(),
            final(self).marked() is None,
            final(self).doc() == old(self).doc(),
            final(self).anchor_at() == old(self).anchor_at(),
            final(self).cursor_at() == old(self).cursor_at(),
            final(self).stored_mark() == old(self).stored_mark(),
            final(self).readonly_flag() == old(self).readonly_flag(),
    {
        self.composition = None;
    }

    /// Commit text from native input over the UTF-16 `range` of the
    /// caret's paragraph, else over the text being composed, else over the
    /// selection. Committing a composition replaces it and settles it;
    /// otherwise the text is typed as by `insert`. Returns whether the edit
    /// ran.
    pub fn replace_text_in_range(&mut self, range: Option<(usize, usize)>, text: &str) -> (r: bool)
        requires
            old(self).wf(),
        ensures
            final(self).wf(),
            r == !old(self).readonly_flag(),
            !r ==> *final(self) == *old(self),
            ({
                let d = old(self).doc();
                let c = old(self).cursor_at();
                let (a, b) = match range {
                    Some((s, e)) => (native_pos(d, c, s as int), native_pos(d, c, e as int)),
                    None => match old(self).marked() {
                        Some(m) => m,
                        None => (old(self).anchor_at(), c),
                    },
                };
                let ps = d.paras();
                let ins = encode_utf8(text@);
                let stored = match old(self).stored_mark() {
                    Some(m) => Some(&m),
                    None => None,
                };
                &&& r && old(self).marked() is Some ==> {
                    &&& d.replaced_into(final(self).doc(), a, b, ins, typed_mark(ps, a, b, stored))
                    &&& final(self).cursor_at() == replaced_pos(ps, a, b, ins)
                    &&& final(self).anchor_at() == final(self).cursor_at()
                    &&& final(self).marked() is None
                    &&& final(self).stored_mark() == old(self).stored_mark()
                    &&& final(self).readonly_flag() == old(self).readonly_flag()
                }
                &&& r && old(self).marked() is None ==> old(self).with_selection(a, b).typed(text@, *final(self))
            }),
    {
        if self.readonly {
            return false;
        }
        let target = match range {
            Some((s, e)) => Some(self.native_range(s, e)),
            None => self.composition,
        };
        if let Some((a, b)) = target {
            self.anchor = a;
            self.cursor = b;
        }
        if self.composition.is_some() {
            let stored = self.stored;
            self.cursor = self.document.replace(self.anchor, self.cursor, text, stored.as_ref());
            self.anchor = self.cursor;
            self.composition = None;
        } else {
            self.insert(text);
        }
        true
    }

    /// Put text being composed by native input over the UTF-16 `range` of
    /// the caret's paragraph, else over the text already being composed,
    /// else over the selection. The new text is then what is being
    /// composed, and the selection is `selected` within it, as UTF-16
    /// offsets of the new text (the caret after it when not given). Returns
    /// whether the edit ran.
    pub fn replace_and_mark_text_in_range(
        &mut self,
        range: Option<(usize, usize)>,
        text: &str,
        selected: Option<(usize, usize)>,
    ) -> (r: bool)
        requires
            old(self).wf(),
        ensures
            final(self).wf(),
            r == !old(self).readonly_flag(),
            !r ==> *final(self) == *old(self),
            r ==> {
                let d = old(self).doc();
                let c = old(self).cursor_at();
                let (a, b) = match range {
                    Some((s, e)) => (native_pos(d, c, s as int), native_pos(d, c, e as int)),
                    None => match old(self).marked() {
                        Some(m) => m,
                        None => (old(self).anchor_at(), c),
                    },
                };
                let ps = d.paras();
                let ins = encode_utf8(text@);
                let stored = match old(self).stored_mark() {
                    Some(m) => Some(&m),
                    None => None,
                };
                let start = spec_ordered(ps, a, b).0;
                let from = match selected {
                    Some((s, _)) => byte_at_units(text@, s as int),
                    None => ins.len() as int,
                };
                let to = match selected {
                    Some((_, e)) => byte_at_units(text@, e as int),
                    None => ins.len() as int,
                };
                &&& d.replaced_into(final(self).doc(), a, b, ins, typed_mark(ps, a, b, stored))
                &&& final(self).marked() == Some((start, replaced_pos(ps, a, b, ins)))
                &&& final(self).anchor_at() == (Position { block: start.block, offset: (start.offset + from) as usize })
                &&& final(self).cursor_at() == (Position { block: start.block, offset: (start.offset + to) as usize })
                &&& final(self).stored_mark() == old(self).stored_mark()
                &&& final(self).readonly_flag() == old(self).readonly_flag()
            },
    {
        if self.readonly {
            return false;
        }
        let (a, b) = match range {
            Some((s, e)) => self.native_range(s, e),
            None => match self.composition {
                Some(m) => m,
                None => (self.anchor, self.cursor),
            },
        };
        let ghost d0 = self.document;
        let (start, _) = self.document.ordered(a, b);
        let stored = self.stored;
        let sref = stored.as_ref();
        let ghost mark = typed_mark(d0.paras(), a, b, sref);
        let end = self.document.replace(a, b, text, sref);
        let ins_len = text.as_bytes().len();
        proof {
            lemma_byte_at_units_boundary(text@, 0);
        }
        let from = match selected {
            Some((s, _)) => byte_offset(text, s),
            None => ins_len,
        };
        let to = match selected {
            Some((_, e)) => byte_offset(text, e),
            None => ins_len,
        };
        proof {
            let ins = encode_utf8(text@);
            is_char_boundary_start_end_of_seq(ins);
            match selected {
                Some((s, e)) => {
                    lemma_byte_at_units_boundary(text@, s as int);
                    lemma_byte_at_units_boundary(text@, e as int);
                },
                None => {},
            }
            lemma_inserted_boundary(d0, self.document, a, b, ins, mark, from as int);
            lemma_inserted_boundary(d0, self.document, a, b, ins, mark, to as int);
            lemma_inserted_boundary(d0, self.document, a, b, ins, mark, 0);
        }
        self.composition = Some((start, end));
        self.anchor = Position { block: start.block, offset: start.offset + from };
        self.cursor = Position { block: start.block, offset: start.offset + to };
        true
    }
}


/// `n` `#` characters and a space.
pub open spec fn hash_prefix(n: nat) -> Seq<char> {
    Seq::new(n, |_i: int| '#') + seq![' ']
}

/// What a paragraph must read for each shortcut: a heading of level `n`
/// is `n` `#`s and a space (one to three of them); an ordered list is
/// `1. `; a bullet list is `- ` or `* `; a task is a box `[ ]`, `[]`,
/// `[x]` or `[X]` and a space, done just when the box holds an `x`, and
/// needing a list just when nothing comes before the box.
pub proof fn lemma_shortcut_shapes(p: Seq<char>)
    ensures
        match spec_shortcut(p) {
            Shortcut::Heading(n) => 1 <= n <= 3 && p == hash_prefix(n as nat),
            Shortcut::List(ordered) => if ordered {
                p == seq!['1', '.', ' ']
            } else {
                p == seq!['-', ' '] || p == seq!['*', ' ']
            },
            Shortcut::Task { checked, require_list } => {
                &&& p.len() >= 3
                &&& p.last() == ' '
                &&& p[p.len() - 2] == ']'
                &&& (checked <==> (p[p.len() - 3] == 'x' || p[p.len() - 3] == 'X'))
                &&& (require_list <==> p[0] == '[')
            },
            Shortcut::Plain => true,
        },
{
    reveal_strlit("# ");
    reveal_strlit("## ");
    reveal_strlit("### ");
    reveal_strlit("* ");
    reveal_strlit("- ");
    reveal_strlit("- [ ] ");
    reveal_strlit("- [X] ");
    reveal_strlit("- [] ");
    reveal_strlit("- [x] ");
    reveal_strlit("-[ ] ");
    reveal_strlit("-[X] ");
    reveal_strlit("-[] ");
    reveal_strlit("-[x] ");
    reveal_strlit("1. ");
    reveal_strlit("[ ] ");
    reveal_strlit("[X] ");
    reveal_strlit("[] ");
    reveal_strlit("[x] ");
    assert(hash_prefix(1) =~= seq!['#', ' ']);
    assert(hash_prefix(2) =~= seq!['#', '#', ' ']);
    assert(hash_prefix(3) =~= seq!['#', '#', '#', ' ']);
}

/// A paragraph of one to three `#`s and a space stands for a heading of
/// that level.
pub proof fn lemma_heading_shortcut(n: nat)
    requires
        1 <= n <= 3,
    ensures
        spec_shortcut(hash_prefix(n)) == Shortcut::Heading(n as u8),
{
    reveal_strlit("# ");
    reveal_strlit("## ");
    reveal_strlit("### ");
    reveal_strlit("* ");
    reveal_strlit("- ");
    reveal_strlit("- [ ] ");
    reveal_strlit("- [X] ");
    reveal_strlit("- [] ");
    reveal_strlit("- [x] ");
    reveal_strlit("-[ ] ");
    reveal_strlit("-[X] ");
    reveal_strlit("-[] ");
    reveal_strlit("-[x] ");
    reveal_strlit("1. ");
    reveal_strlit("[ ] ");
    reveal_strlit("[X] ");
    reveal_strlit("[] ");
    reveal_strlit("[x] ");
    let h = hash_prefix(n);
    assert(h[0] == '#');
    assert(h.len() == n + 1);
    assert(h[n as int] == ' ');
    if n == 1 {
        assert(h =~= "# "@);
    } else if n == 2 {
        assert(h[1] == '#');
        assert(h =~= "## "@);
    } else {
        assert(h[1] == '#');
        assert(h[2] == '#');
        assert(h =~= "### "@);
    }
}

/// A task box, after nothing, a `-`, or a `-` and a space, and followed
/// by a space, stands for a task: done when the box holds an `x` or `X`,
/// needing a list when nothing comes before it.
pub proof fn lemma_task_shortcut(lead: Seq<char>, inner: Seq<char>)
    requires
        lead == Seq::<char>::empty() || lead == seq!['-'] || lead == seq!['-', ' '],
        inner == Seq::<char>::empty() || inner == seq![' '] || inner == seq!['x'] || inner == seq!['X'],
    ensures
        spec_shortcut(lead + seq!['['] + inner + seq![']', ' ']) == (Shortcut::Task {
            checked: inner == seq!['x'] || inner == seq!['X'],
            require_list: lead.len() == 0,
        }),
{
    reveal_strlit("# ");
    reveal_strlit("## ");
    reveal_strlit("### ");
    reveal_strlit("* ");
    reveal_strlit("- ");
    reveal_strlit("- [ ] ");
    reveal_strlit("- [X] ");
    reveal_strlit("- [] ");
    reveal_strlit("- [x] ");
    reveal_strlit("-[ ] ");
    reveal_strlit("-[X] ");
    reveal_strlit("-[] ");
    reveal_strlit("-[x] ");
    reveal_strlit("1. ");
    reveal_strlit("[ ] ");
    reveal_strlit("[X] ");
    reveal_strlit("[] ");
    reveal_strlit("[x] ");
    let p = lead + seq!['['] + inner + seq![']', ' '];
    assert(seq![' '] != seq!['x'] && seq![' '] != seq!['X']) by {
        assert(seq![' '][0] != seq!['x'][0]);
        assert(seq![' '][0] != seq!['X'][0]);
    }
    if lead.len() == 0 {
        assert(p[0] == '[');
        assert("-[] "@[0] == '-' && "-[ ] "@[0] == '-' && "-[x] "@[0] == '-' && "-[X] "@[0] == '-');
        assert("- [] "@[0] == '-' && "- [ ] "@[0] == '-' && "- [x] "@[0] == '-' && "- [X] "@[0] == '-');
        if inner.len() == 0 {
            assert(p =~= "[] "@);
            assert(p[1] == ']');
            assert("[] "@[1] == ']' && "[ ] "@[1] == ' ' && "[x] "@[1] == 'x' && "[X] "@[1] == 'X');
            assert(spec_shortcut(p) == (Shortcut::Task { checked: false, require_list: true }));
        } else if inner == seq![' '] {
            assert(p =~= "[ ] "@);
            assert(p[1] == ' ');
            assert("[] "@[1] == ']' && "[ ] "@[1] == ' ' && "[x] "@[1] == 'x' && "[X] "@[1] == 'X');
            assert(spec_shortcut(p) == (Shortcut::Task { checked: false, require_list: true }));
        } else if inner == seq!['x'] {
            assert(p =~= "[x] "@);
            assert(p[1] == 'x');
            assert("[] "@[1] == ']' && "[ ] "@[1] == ' ' && "[x] "@[1] == 'x' && "[X] "@[1] == 'X');
            assert(spec_shortcut(p) == (Shortcut::Task { checked: true, require_list: true }));
        } else {
            assert(p =~= "[X] "@);
            assert(p[1] == 'X');
            assert("[] "@[1] == ']' && "[ ] "@[1] == ' ' && "[x] "@[1] == 'x' && "[X] "@[1] == 'X');
            assert(spec_shortcut(p) == (Shortcut::Task { checked: true, require_list: true }));
        }
    } else if lead.len() == 1 {
        assert(p[1] == '[');
        assert("- [] "@[1] == ' ' && "- [ ] "@[1] == ' ' && "- [x] "@[1] == ' ' && "- [X] "@[1] == ' ');
        if inner.len() == 0 {
            assert(p =~= "-[] "@);
            assert(p[2] == ']');
            assert("-[] "@[2] == ']' && "-[ ] "@[2] == ' ' && "-[x] "@[2] == 'x' && "-[X] "@[2] == 'X');
            assert(spec_shortcut(p) == (Shortcut::Task { checked: false, require_list: false }));
        } else if inner == seq![' '] {
            assert(p =~= "-[ ] "@);
            assert(p[2] == ' ');
            assert("-[] "@[2] == ']' && "-[ ] "@[2] == ' ' && "-[x] "@[2] == 'x' && "-[X] "@[2] == 'X');
            assert(spec_shortcut(p) == (Shortcut::Task { checked: false, require_list: false }));
        } else if inner == seq!['x'] {
            assert(p =~= "-[x] "@);
            assert(p[2] == 'x');
            assert("-[] "@[2] == ']' && "-[ ] "@[2] == ' ' && "-[x] "@[2] == 'x' && "-[X] "@[2] == 'X');
            assert(spec_shortcut(p) == (Shortcut::Task { checked: true, require_list: false }));
        } else {
            assert(p =~= "-[X] "@);
            assert(p[2] == 'X');
            assert("-[] "@[2] == ']' && "-[ ] "@[2] == ' ' && "-[x] "@[2] == 'x' && "-[X] "@[2] == 'X');
            assert(spec_shortcut(p) == (Shortcut::Task { checked: true, require_list: false }));
        }
    } else {
        if inner.len() == 0 {
            assert(p =~= "- [] "@);
            assert(p[3] == ']');
            assert("- [] "@[3] == ']' && "- [ ] "@[3] == ' ' && "- [x] "@[3] == 'x' && "- [X] "@[3] == 'X');
            assert(spec_shortcut(p) == (Shortcut::Task { checked: false, require_list: false }));
        } else if inner == seq![' '] {
            assert(p =~= "- [ ] "@);
            assert(p[3] == ' ');
            assert("- [] "@[3] == ']' && "- [ ] "@[3] == ' ' && "- [x] "@[3] == 'x' && "- [X] "@[3] == 'X');
            assert(spec_shortcut(p) == (Shortcut::Task { checked: false, require_list: false }));
        } else if inner == seq!['x'] {
            assert(p =~= "- [x] "@);
            assert(p[3] == 'x');
            assert("- [] "@[3] == ']' && "- [ ] "@[3] == ' ' && "- [x] "@[3] == 'x' && "- [X] "@[3] == 'X');
            assert(spec_shortcut(p) == (Shortcut::Task { checked: true, require_list: false }));
        } else {
            assert(p =~= "- [X] "@);
            assert(p[3] == 'X');
            assert("- [] "@[3] == ']' && "- [ ] "@[3] == ' ' && "- [x] "@[3] == 'x' && "- [X] "@[3] == 'X');
            assert(spec_shortcut(p) == (Shortcut::Task { checked: true, require_list: false }));
        }
    }
}

/// `- ` and `* ` stand for a bullet list and `1. ` for a numbered one.
pub proof fn lemma_list_shortcuts()
    ensures
        spec_shortcut(seq!['-', ' ']) == Shortcut::List(false),
        spec_shortcut(seq!['*', ' ']) == Shortcut::List(false),
        spec_shortcut(seq!['1', '.', ' ']) == Shortcut::List(true),
{
    reveal_strlit("# ");
    reveal_strlit("## ");
    reveal_strlit("### ");
    reveal_strlit("* ");
    reveal_strlit("- ");
    reveal_strlit("- [ ] ");
    reveal_strlit("- [X] ");
    reveal_strlit("- [] ");
    reveal_strlit("- [x] ");
    reveal_strlit("-[ ] ");
    reveal_strlit("-[X] ");
    reveal_strlit("-[] ");
    reveal_strlit("-[x] ");
    reveal_strlit("1. ");
    reveal_strlit("[ ] ");
    reveal_strlit("[X] ");
    reveal_strlit("[] ");
    reveal_strlit("[x] ");
    assert(seq!['-', ' '] =~= "- "@);
    assert(seq!['*', ' '] =~= "* "@);
    assert(seq!['1', '.', ' '] =~= "1. "@);
}

} // verus!
