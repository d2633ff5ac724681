//! The structured Markdown document behind the rich text editor.
//!
//! A document is a tree of blocks. Its editable paragraphs (plain paragraphs
//! and headings) are visited in document order; each has a stable identity
//! that survives edits and history snapshots, UTF-8 text, and one text mark
//! per byte. Positions name a paragraph by identity and a byte offset in it.

use std::collections::HashSet;
use std::ops::Range;
use vstd::prelude::*;
use vstd::utf8::*;
use vstd::string::*;
use crate::list_edit::{
    seq_has_item, para_index, wraps, wrap_in_list, unwrap_item, has_item_of, item_pos_of, seq_item_pos, can_indent,
    indent_item, inner_loc_of, is_nested, outdent_in, swapped, set_task, seq_item, task_of, item_path, path_to_item,
    lemma_para_index, lemma_first_has, node_has_item, lists_item, unwrapped, tasked, wraps_task, first_has, indented, seq_outdented,
};
use crate::markdown::{md_blocks, markdown_of, parse_lines, split_lines_of, paras_ok, parse_form, empty_para};
use crate::grapheme::{grapheme_starts, grapheme_starts_of, previous_boundary_in, next_boundary_in, spec_previous_boundary, spec_next_boundary, starts_shape};

verus! {

broadcast use {encode_utf8_valid_utf8, encode_utf8_decode_utf8};

/// Inline formatting of one byte of paragraph text.
#[derive(Clone, Copy, Debug, PartialEq, Eq, Structural)]
pub struct TextMark {
    pub bold: bool,
    pub italic: bool,
    pub strikethrough: bool,
    pub code: bool,
}

/// Two marks combined: a format is on when either has it.
pub open spec fn merged(a: TextMark, b: TextMark) -> TextMark {
    TextMark {
        bold: a.bold || b.bold,
        italic: a.italic || b.italic,
        strikethrough: a.strikethrough || b.strikethrough,
        code: a.code || b.code,
    }
}

/// The mark with no formatting.
pub open spec fn plain_mark() -> TextMark {
    TextMark { bold: false, italic: false, strikethrough: false, code: false }
}

impl TextMark {
    /// The mark with no formatting.
    pub fn plain() -> (r: TextMark)
        ensures
            r == plain_mark(),
    {
        TextMark { bold: false, italic: false, strikethrough: false, code: false }
    }

    /// Add the formats of `other` to this mark.
    pub fn merge(&mut self, other: TextMark)
        ensures
            *final(self) == merged(*old(self), other),
    {
        self.bold = self.bold || other.bold;
        self.italic = self.italic || other.italic;
        self.strikethrough = self.strikethrough || other.strikethrough;
        self.code = self.code || other.code;
    }
}

impl Default for TextMark {
    fn default() -> (r: TextMark)
        ensures
            r == plain_mark(),
    {
        TextMark::plain()
    }
}

/// An editable paragraph: its identity, UTF-8 text and the mark of each byte.
#[derive(Debug)]
pub struct Paragraph {
    pub id: u64,
    pub text: Vec<u8>,
    pub marks: Vec<TextMark>,
}

/// What a paragraph holds, as mathematical values.
pub struct ParaView {
    pub id: u64,
    pub text: Seq<u8>,
    pub marks: Seq<TextMark>,
}

impl ParaView {
    /// A paragraph's text is valid UTF-8 with one mark per byte.
    pub open spec fn wf(self) -> bool {
        &&& self.text.len() == self.marks.len()
        &&& valid_utf8(self.text)
    }
}

impl View for Paragraph {
    type V = ParaView;

    open spec fn view(&self) -> ParaView {
        ParaView { id: self.id, text: self.text@, marks: self.marks@ }
    }
}

impl Clone for Paragraph {
    fn clone(&self) -> (r: Self)
        ensures
            r@ == self@,
    {
        let text = self.text.clone();
        let marks = copy_marks(&self.marks);
        assert(text@ == self.text@);
        Paragraph { id: self.id, text, marks }
    }
}

/// A copy of a run of marks.
fn copy_marks(v: &Vec<TextMark>) -> (r: Vec<TextMark>)
    ensures
        r@ == v@,
{
    let mut r: Vec<TextMark> = Vec::new();
    let n = v.len();
    let mut i: usize = 0;
    while i < n
        invariant
            n == v@.len(),
            i <= n,
            r@ == v@.take(i as int),
        decreases n - i,
    {
        r.push(v[i]);
        assert(v@.take(i as int + 1) == v@.take(i as int).push(v@[i as int]));
        i = i + 1;
    }
    assert(v@.take(n as int) == v@);
    r
}

impl Paragraph {
    /// A paragraph's text is valid UTF-8 with one mark per byte.
    pub open spec fn wf(self) -> bool {
        self@.wf()
    }

    /// The paragraph's identity within its document.
    pub fn editor_id(&self) -> (r: u64)
        ensures
            r == self.id,
    {
        self.id
    }

    /// The length of the paragraph's text in bytes.
    pub fn text_len(&self) -> (r: usize)
        ensures
            r == self.text@.len(),
    {
        self.text.len()
    }

    /// The paragraph's text.
    pub fn text(&self) -> (r: String)
        requires
            self.wf(),
        ensures
            r@ == decode_utf8(self.text@),
    {
        let bytes = self.text.clone();
        assert(bytes@ == self.text@);
        string_from_utf8(bytes)
    }
}

/// A block of a document.
#[derive(Debug)]
#[allow(inconsistent_fields)]
pub enum BlockNode {
    /// A plain paragraph.
    Paragraph(Paragraph),
    /// A heading of `level` 1 to 6.
    Heading { level: u8, children: Paragraph },
    /// A list of `ListItem`s, numbered when `ordered`.
    List { children: Vec<BlockNode>, ordered: bool },
    /// A list item; a task item when `checked` is set.
    ListItem { children: Vec<BlockNode>, checked: Option<bool>, spread: bool },
    /// A quotation.
    Blockquote { children: Vec<BlockNode> },
    /// A block the editor does not edit (code, tables, images, rules),
    /// kept as its Markdown source.
    Unsupported { source: String },
}

/// A position in a document: a paragraph identity and a byte offset.
#[derive(Clone, Copy, Debug, PartialEq, Eq, Structural)]
pub struct Position {
    pub block: u64,
    pub offset: usize,
}

/// The editable paragraphs of a block, in document order.
pub open spec fn node_paras(n: BlockNode) -> Seq<ParaView>
    decreases n,
{
    match n {
        BlockNode::Paragraph(p) => seq![p@],
        BlockNode::Heading { children, .. } => seq![children@],
        BlockNode::List { children, .. } => seq_paras(children@),
        BlockNode::ListItem { children, .. } => seq_paras(children@),
        BlockNode::Blockquote { children } => seq_paras(children@),
        BlockNode::Unsupported { .. } => seq![],
    }
}

/// The editable paragraphs of a run of blocks, in document order.
pub open spec fn seq_paras(s: Seq<BlockNode>) -> Seq<ParaView>
    decreases s,
{
    if s.len() == 0 {
        seq![]
    } else {
        seq_paras(s.drop_last()) + node_paras(s.last())
    }
}

/// A block as a value: its kind, its paragraphs' text and marks, and its
/// children, leaving out the identities that a document gives paragraphs.
pub enum BlockForm {
    Paragraph(ParaView),
    Heading { level: u8, children: ParaView },
    List { children: Seq<BlockForm>, ordered: bool },
    ListItem { children: Seq<BlockForm>, checked: Option<bool>, spread: bool },
    Blockquote { children: Seq<BlockForm> },
    Unsupported { source: Seq<char> },
}

/// A paragraph's text and marks, without its identity.
pub open spec fn unnamed(p: ParaView) -> ParaView {
    ParaView { id: 0, text: p.text, marks: p.marks }
}

/// The form of a block.
pub open spec fn node_form(n: BlockNode) -> BlockForm
    decreases n,
{
    match n {
        BlockNode::Paragraph(p) => BlockForm::Paragraph(unnamed(p@)),
        BlockNode::Heading { level, children } => BlockForm::Heading { level, children: unnamed(children@) },
        BlockNode::List { children, ordered } => BlockForm::List { children: seq_form(children@), ordered },
        BlockNode::ListItem { children, checked, spread } => BlockForm::ListItem {
            children: seq_form(children@),
            checked,
            spread,
        },
        BlockNode::Blockquote { children } => BlockForm::Blockquote { children: seq_form(children@) },
        BlockNode::Unsupported { source } => BlockForm::Unsupported { source: source@ },
    }
}

/// The forms of a run of blocks.
pub open spec fn seq_form(s: Seq<BlockNode>) -> Seq<BlockForm>
    decreases s,
{
    if s.len() == 0 {
        seq![]
    } else {
        seq_form(s.drop_last()).push(node_form(s.last()))
    }
}

/// The number of paragraphs in a block form.
pub open spec fn form_para_count(f: BlockForm) -> nat
    decreases f,
{
    match f {
        BlockForm::Paragraph(_) => 1,
        BlockForm::Heading { .. } => 1,
        BlockForm::List { children, .. } => forms_para_count(children),
        BlockForm::ListItem { children, .. } => forms_para_count(children),
        BlockForm::Blockquote { children } => forms_para_count(children),
        BlockForm::Unsupported { .. } => 0,
    }
}

/// The number of paragraphs in a run of block forms.
pub open spec fn forms_para_count(s: Seq<BlockForm>) -> nat
    decreases s,
{
    if s.len() == 0 {
        0
    } else {
        forms_para_count(s.drop_last()) + form_para_count(s.last())
    }
}

/// A block's form counts its paragraphs.
pub proof fn lemma_node_form_count(n: BlockNode)
    ensures
        form_para_count(node_form(n)) == node_paras(n).len(),
    decreases n,
{
    match n {
        BlockNode::List { children, .. } => {
            lemma_seq_form_count(children@);
        },
        BlockNode::ListItem { children, .. } => {
            lemma_seq_form_count(children@);
        },
        BlockNode::Blockquote { children } => {
            lemma_seq_form_count(children@);
        },
        _ => {},
    }
}

/// The forms of a run of blocks count its paragraphs.
pub proof fn lemma_seq_form_count(s: Seq<BlockNode>)
    ensures
        forms_para_count(seq_form(s)) == seq_paras(s).len(),
    decreases s,
{
    if s.len() > 0 {
        lemma_seq_form_count(s.drop_last());
        lemma_node_form_count(s.last());
        let f = seq_form(s.drop_last()).push(node_form(s.last()));
        assert(f.drop_last() == seq_form(s.drop_last()));
        assert(f.last() == node_form(s.last()));
    }
}

/// The forms of a run with one more block.
pub proof fn lemma_seq_form_push(s: Seq<BlockNode>, n: BlockNode)
    ensures
        seq_form(s.push(n)) == seq_form(s).push(node_form(n)),
{
    assert(s.push(n).drop_last() == s);
    assert(s.push(n).last() == n);
}

/// The children of a container block.
pub open spec fn node_children(n: BlockNode) -> Option<Seq<BlockNode>> {
    match n {
        BlockNode::List { children, .. } => Some(children@),
        BlockNode::ListItem { children, .. } => Some(children@),
        BlockNode::Blockquote { children } => Some(children@),
        _ => None,
    }
}

/// The editable paragraph of a block, when it is one.
pub open spec fn node_paragraph(n: BlockNode) -> Option<ParaView> {
    match n {
        BlockNode::Paragraph(p) => Some(p@),
        BlockNode::Heading { children, .. } => Some(children@),
        _ => None,
    }
}

pub proof fn lemma_seq_paras_add(a: Seq<BlockNode>, b: Seq<BlockNode>)
    ensures
        seq_paras(a + b) == seq_paras(a) + seq_paras(b),
    decreases b.len(),
{
    if b.len() == 0 {
        assert(a + b == a);
    } else {
        lemma_seq_paras_add(a, b.drop_last());
        assert((a + b).drop_last() == a + b.drop_last());
        assert((a + b).last() == b.last());
    }
}

pub proof fn lemma_seq_paras_one(n: BlockNode)
    ensures
        seq_paras(seq![n]) == node_paras(n),
{
    assert(seq![n].drop_last() == Seq::<BlockNode>::empty());
    assert(seq![n].last() == n);
    assert(seq_paras(Seq::<BlockNode>::empty()) == Seq::<ParaView>::empty());
    assert(Seq::<ParaView>::empty() + node_paras(n) == node_paras(n));
}

pub proof fn lemma_seq_paras_take(s: Seq<BlockNode>, i: int)
    requires
        0 <= i < s.len(),
    ensures
        seq_paras(s.take(i + 1)) == seq_paras(s.take(i)) + node_paras(s[i]),
{
    assert(s.take(i + 1).drop_last() == s.take(i));
    assert(s.take(i + 1).last() == s[i]);
}


/// The heading level of paragraph `id` in a block: 0 for a plain paragraph,
/// -1 when the block does not hold it.
pub open spec fn node_level(n: BlockNode, id: u64) -> int
    decreases n,
{
    match n {
        BlockNode::Paragraph(p) => if p.id == id { 0 } else { -1 },
        BlockNode::Heading { level, children } => if children.id == id { level as int } else { -1 },
        BlockNode::List { children, .. } => seq_level(children@, id),
        BlockNode::ListItem { children, .. } => seq_level(children@, id),
        BlockNode::Blockquote { children } => seq_level(children@, id),
        BlockNode::Unsupported { .. } => -1,
    }
}

/// The heading level of the first block of `s` holding paragraph `id`, or -1.
pub open spec fn seq_level(s: Seq<BlockNode>, id: u64) -> int
    decreases s,
{
    if s.len() == 0 {
        -1
    } else {
        let r = seq_level(s.drop_last(), id);
        if r >= 0 {
            r
        } else {
            node_level(s.last(), id)
        }
    }
}

/// The index of the first paragraph with identity `id`, or -1.
pub open spec fn index_of(ps: Seq<ParaView>, id: u64) -> int
    decreases ps.len(),
{
    if ps.len() == 0 {
        -1
    } else {
        let r = index_of(ps.drop_last(), id);
        if r >= 0 {
            r
        } else if ps.last().id == id {
            ps.len() - 1
        } else {
            -1
        }
    }
}

pub proof fn lemma_index_of(ps: Seq<ParaView>, id: u64)
    ensures
        -1 <= index_of(ps, id) < ps.len(),
        index_of(ps, id) >= 0 ==> ps[index_of(ps, id)].id == id,
        forall|k: int| 0 <= k < index_of(ps, id) ==> #[trigger] ps[k].id != id,
        index_of(ps, id) < 0 ==> forall|k: int| 0 <= k < ps.len() ==> #[trigger] ps[k].id != id,
    decreases ps.len(),
{
    if ps.len() > 0 {
        let d = ps.drop_last();
        lemma_index_of(d, id);
        assert forall|k: int| 0 <= k < ps.len() - 1 implies ps[k] == #[trigger] d[k] by {}
        let r = index_of(ps, id);
        assert forall|k: int| 0 <= k < r implies #[trigger] ps[k].id != id by {
            assert(ps[k] == d[k]);
        }
        if r < 0 {
            assert forall|k: int| 0 <= k < ps.len() implies #[trigger] ps[k].id != id by {
                if k < ps.len() - 1 {
                    assert(ps[k] == d[k]);
                }
            }
        }
    }
}

/// Identities appear once.
pub open spec fn ids_distinct(ps: Seq<ParaView>) -> bool {
    forall|i: int, j: int| 0 <= i < j < ps.len() ==> #[trigger] ps[i].id != #[trigger] ps[j].id
}

pub proof fn lemma_index_of_distinct(ps: Seq<ParaView>, k: int)
    requires
        ids_distinct(ps),
        0 <= k < ps.len(),
    ensures
        index_of(ps, ps[k].id) == k,
{
    lemma_index_of(ps, ps[k].id);
    let r = index_of(ps, ps[k].id);
    if r != k {
        if r < k {
            assert(ps[r].id != ps[k].id);
        } else {
            assert(ps[k].id != ps[k].id);
        }
    }
}

/// The sort key of a position: its paragraph's place (zero when it has
/// none) and its offset.
pub open spec fn pos_key(ps: Seq<ParaView>, p: Position) -> (int, int) {
    (if index_of(ps, p.block) < 0 { 0 } else { index_of(ps, p.block) }, p.offset as int)
}

/// Whether position key `a` comes no later than `b`.
pub open spec fn key_le(a: (int, int), b: (int, int)) -> bool {
    a.0 < b.0 || (a.0 == b.0 && a.1 <= b.1)
}

/// Two positions in document order.
pub open spec fn spec_ordered(ps: Seq<ParaView>, a: Position, b: Position) -> (Position, Position) {
    if key_le(pos_key(ps, a), pos_key(ps, b)) {
        (a, b)
    } else {
        (b, a)
    }
}

/// A document: its blocks and the next paragraph identity it hands out.
#[derive(Debug)]
pub struct Document {
    blocks: Vec<BlockNode>,
    next_id: u64,
}

/// Convert UTF-8 bytes to a string, from `String::from_utf8_lossy`, which
/// keeps valid UTF-8 as it is.
#[verifier::external_body]
pub(crate) fn string_from_utf8(bytes: Vec<u8>) -> (r: String)
    requires
        valid_utf8(bytes@),
    ensures
        r@ == decode_utf8(bytes@),
{
    String::from_utf8_lossy(&bytes).into_owned()
}

/// The UTF-8 bytes of a string.
pub fn str_bytes(s: &str) -> (r: Vec<u8>)
    ensures
        r@ == encode_utf8(s@),
        valid_utf8(r@),
        decode_utf8(r@) == s@,
{
    let b = s.as_bytes();
    vstd::slice::slice_to_vec(b)
}


/// The mark that text typed over the selection from `a` to `b` gets:
/// `stored` when given, else the mark at the start of the selection.
pub open spec fn typed_mark(ps: Seq<ParaView>, a: Position, b: Position, stored: Option<&TextMark>) -> TextMark {
    match stored {
        Some(m) => *m,
        None => spec_mark_at(ps, spec_ordered(ps, a, b).0),
    }
}

/// The paragraphs after the bytes `ins`, marked `mark`, replace the
/// selection from `a` to `b` (in either order): the first paragraph keeps
/// its identity and the text before the selection, the last gives the text
/// after it, and the paragraphs in between go.
pub open spec fn replaced_paras(ps: Seq<ParaView>, a: Position, b: Position, ins: Seq<u8>, mark: TextMark) -> Seq<ParaView> {
    let (a, b) = spec_ordered(ps, a, b);
    let ia = index_of(ps, a.block);
    let ib = index_of(ps, b.block);
    let nt = ps[ia].text.take(a.offset as int) + ins + ps[ib].text.skip(b.offset as int);
    let nm = ps[ia].marks.take(a.offset as int) + Seq::new(ins.len(), |_i: int| mark) + ps[ib].marks.skip(b.offset as int);
    ps.take(ia) + seq![ParaView { id: a.block, text: nt, marks: nm }] + ps.skip(ib + 1)
}

/// The position right after the replacing bytes `ins`.
pub open spec fn replaced_pos(ps: Seq<ParaView>, a: Position, b: Position, ins: Seq<u8>) -> Position {
    let (a, b) = spec_ordered(ps, a, b);
    Position { block: a.block, offset: (a.offset + ins.len()) as usize }
}

/// After text replaced into a paragraph, the end of the inserted text is a
/// position of the paragraph: it lies on a character boundary.
pub proof fn lemma_join_pos(ps: Seq<ParaView>, i: int, head: Seq<u8>, ins: Seq<u8>, src: Seq<u8>, from: int)
    requires
        0 <= i < ps.len(),
        ids_distinct(ps),
        ps[i].text == head + ins + src.skip(from),
        valid_utf8(ps[i].text),
        valid_utf8(src),
        0 <= from <= src.len(),
        is_char_boundary(src, from),
    ensures
        index_of(ps, ps[i].id) == i,
        head.len() + ins.len() <= ps[i].text.len(),
        is_char_boundary(ps[i].text, (head.len() + ins.len()) as int),
{
    broadcast use is_char_boundary_start_end_of_seq;

    lemma_index_of_distinct(ps, i);
    let t = ps[i].text;
    let j = (head.len() + ins.len()) as int;
    if from < src.len() {
        is_char_boundary_iff_not_is_continuation_byte(src, from);
        assert(t[j] == src[from]);
        is_char_boundary_iff_not_is_continuation_byte(t, j);
    } else {
        assert(j == t.len());
        is_char_boundary_start_end_of_seq(t);
    }
}

/// A valid UTF-8 byte run cut at two character boundaries is valid UTF-8.
pub proof fn lemma_valid_cut(bytes: Seq<u8>, i: int, j: int)
    requires
        valid_utf8(bytes),
        0 <= i <= j <= bytes.len(),
        is_char_boundary(bytes, i),
        is_char_boundary(bytes, j),
    ensures
        valid_utf8(bytes.subrange(i, j)),
{
    broadcast use valid_utf8_split, is_char_boundary_iff_not_is_continuation_byte, is_char_boundary_start_end_of_seq;

    let t = bytes.subrange(i, bytes.len() as int);
    valid_utf8_split(bytes, i);
    let k = j - i;
    if j < bytes.len() {
        is_char_boundary_iff_not_is_continuation_byte(bytes, j);
        is_char_boundary_iff_not_is_continuation_byte(t, k);
        assert(t[k] == bytes[j]);
    } else {
        is_char_boundary_start_end_of_seq(t);
    }
    valid_utf8_split(t, k);
    assert(t.subrange(0, k) == bytes.subrange(i, j));
}

/// Paragraph `q` with its text and marks replaced when it is paragraph `id`.
pub open spec fn with_content(q: ParaView, id: u64, text: Seq<u8>, marks: Seq<TextMark>) -> ParaView {
    if q.id == id {
        ParaView { id: q.id, text, marks }
    } else {
        q
    }
}

/// The paragraph `p` as it is after getting `text` and `marks`, when it is
/// paragraph `id`.
fn update_para(p: Paragraph, id: u64, text: &Vec<u8>, marks: &Vec<TextMark>) -> (r: Paragraph)
    ensures
        r@ == with_content(p@, id, text@, marks@),
{
    if p.id == id {
        let t = text.clone();
        assert(t@ == text@);
        let m = copy_marks(marks);
        Paragraph { id: p.id, text: t, marks: m }
    } else {
        p
    }
}

/// Whether blocks `a` and `b` have the same tree: the same kinds and
/// settings, paragraphs with the same identities in the same places, and
/// the same blocks the editor does not edit. The paragraphs' text and marks
/// may differ.
pub open spec fn node_shape(a: BlockNode, b: BlockNode) -> bool
    decreases a,
{
    match a {
        BlockNode::Paragraph(p) => match b {
            BlockNode::Paragraph(q) => q.id == p.id,
            _ => false,
        },
        BlockNode::Heading { level, children } => match b {
            BlockNode::Heading { level: l, children: q } => l == level && q.id == children.id,
            _ => false,
        },
        BlockNode::List { children, ordered } => match b {
            BlockNode::List { children: c, ordered: o } => o == ordered && seq_shape(children@, c@),
            _ => false,
        },
        BlockNode::ListItem { children, checked, spread } => match b {
            BlockNode::ListItem { children: c, checked: k, spread: sp } => k == checked && sp == spread && seq_shape(
                children@,
                c@,
            ),
            _ => false,
        },
        BlockNode::Blockquote { children } => match b {
            BlockNode::Blockquote { children: c } => seq_shape(children@, c@),
            _ => false,
        },
        BlockNode::Unsupported { .. } => b == a,
    }
}

/// Whether two runs of blocks have the same trees, block by block (see
/// `node_shape`).
pub open spec fn seq_shape(a: Seq<BlockNode>, b: Seq<BlockNode>) -> bool
    decreases a,
{
    &&& a.len() == b.len()
    &&& forall|i: int| 0 <= i < a.len() ==> node_shape(#[trigger] a[i], b[i])
}

pub proof fn lemma_node_shape_trans(a: BlockNode, b: BlockNode, c: BlockNode)
    requires
        node_shape(a, b),
        node_shape(b, c),
    ensures
        node_shape(a, c),
    decreases a,
{
    match a {
        BlockNode::List { children, .. } => match (b, c) {
            (BlockNode::List { children: bc, .. }, BlockNode::List { children: cc, .. }) => {
                lemma_seq_shape_trans(children@, bc@, cc@);
            },
            _ => {},
        },
        BlockNode::ListItem { children, .. } => match (b, c) {
            (BlockNode::ListItem { children: bc, .. }, BlockNode::ListItem { children: cc, .. }) => {
                lemma_seq_shape_trans(children@, bc@, cc@);
            },
            _ => {},
        },
        BlockNode::Blockquote { children } => match (b, c) {
            (BlockNode::Blockquote { children: bc }, BlockNode::Blockquote { children: cc }) => {
                lemma_seq_shape_trans(children@, bc@, cc@);
            },
            _ => {},
        },
        _ => {},
    }
}

pub proof fn lemma_seq_shape_trans(a: Seq<BlockNode>, b: Seq<BlockNode>, c: Seq<BlockNode>)
    requires
        seq_shape(a, b),
        seq_shape(b, c),
    ensures
        seq_shape(a, c),
    decreases a,
{
    assert forall|i: int| 0 <= i < a.len() implies node_shape(#[trigger] a[i], c[i]) by {
        lemma_node_shape_trans(a[i], b[i], c[i]);
    }
}

pub proof fn lemma_node_shape_refl(a: BlockNode)
    ensures
        node_shape(a, a),
    decreases a,
{
    match a {
        BlockNode::List { children, .. } => lemma_seq_shape_refl(children@),
        BlockNode::ListItem { children, .. } => lemma_seq_shape_refl(children@),
        BlockNode::Blockquote { children } => lemma_seq_shape_refl(children@),
        _ => {},
    }
}

pub proof fn lemma_seq_shape_refl(a: Seq<BlockNode>)
    ensures
        seq_shape(a, a),
    decreases a,
{
    assert forall|i: int| 0 <= i < a.len() implies node_shape(#[trigger] a[i], a[i]) by {
        lemma_node_shape_refl(a[i]);
    }
}

/// Give paragraph `id` new text and marks, wherever it is.
fn set_content(nodes: Vec<BlockNode>, id: u64, text: &Vec<u8>, marks: &Vec<TextMark>) -> (r: Vec<BlockNode>)
    ensures
        seq_paras(r@) == seq_paras(nodes@).map_values(|q: ParaView| with_content(q, id, text@, marks@)),
        forall|x: u64| #[trigger] seq_level(r@, x) == seq_level(nodes@, x),
        seq_shape(nodes@, r@),
    decreases nodes@,
{
    let ghost orig = nodes@;
    let mut rest = nodes;
    let mut out: Vec<BlockNode> = Vec::new();
    let n = rest.len();
    let mut i: usize = 0;
    while i < n
        invariant
            n == orig.len(),
            orig == nodes@,
            i <= n,
            rest@ == orig.skip(i as int),
            seq_paras(out@) == seq_paras(orig.take(i as int)).map_values(|q: ParaView| with_content(q, id, text@, marks@)),
            forall|x: u64| #[trigger] seq_level(out@, x) == seq_level(orig.take(i as int), x),
            forall|k: int| 0 <= k < rest@.len() ==> decreases_to!(orig => #[trigger] rest@[k]),
            out@.len() == i,
            forall|k: int| 0 <= k < i ==> node_shape(#[trigger] orig[k], out@[k]),
        decreases n - i,
    {
        let node = rest.remove(0);
        assert(node == orig[i as int]);
        assert(decreases_to!(orig => node)) by { assert(rest@.len() >= 0); }
        let ghost f = |q: ParaView| with_content(q, id, text@, marks@);
        let new_node = match node {
            BlockNode::Paragraph(p) => {
                let q = update_para(p, id, text, marks);
                assert(q.id == p.id);
                let nn = BlockNode::Paragraph(q);
                assert forall|x: u64| #[trigger] node_level(nn, x) == node_level(node, x) by {}
                nn
            },
            BlockNode::Heading { level, children } => {
                let q = update_para(children, id, text, marks);
                assert(q.id == children.id);
                let nn = BlockNode::Heading { level, children: q };
                assert forall|x: u64| #[trigger] node_level(nn, x) == node_level(node, x) by {}
                nn
            },
            BlockNode::List { children, ordered } => {
                assert(decreases_to!(node => children));
                assert(decreases_to!(orig => children@));
                let c = set_content(children, id, text, marks);
                let nn = BlockNode::List { children: c, ordered };
                assert forall|x: u64| #[trigger] node_level(nn, x) == node_level(node, x) by {
                    assert(seq_level(c@, x) == seq_level(children@, x));
                }
                nn
            },
            BlockNode::ListItem { children, checked, spread } => {
                assert(decreases_to!(node => children));
                assert(decreases_to!(orig => children@));
                let c = set_content(children, id, text, marks);
                let nn = BlockNode::ListItem { children: c, checked, spread };
                assert forall|x: u64| #[trigger] node_level(nn, x) == node_level(node, x) by {
                    assert(seq_level(c@, x) == seq_level(children@, x));
                }
                nn
            },
            BlockNode::Blockquote { children } => {
                assert(decreases_to!(node => children));
                assert(decreases_to!(orig => children@));
                let c = set_content(children, id, text, marks);
                let nn = BlockNode::Blockquote { children: c };
                assert forall|x: u64| #[trigger] node_level(nn, x) == node_level(node, x) by {
                    assert(seq_level(c@, x) == seq_level(children@, x));
                }
                nn
            },
            BlockNode::Unsupported { source } => BlockNode::Unsupported { source },
        };
        assert(forall|x: u64| #[trigger] node_level(new_node, x) == node_level(node, x));
        assert(node_paras(new_node) == node_paras(node).map_values(f));
        assert(node_shape(node, new_node));
        let ghost prev_out = out@;
        out.push(new_node);
        proof {
            lemma_seq_paras_take(orig, i as int);
            assert(out@.drop_last() == prev_out);
            assert(node_paras(new_node) == node_paras(orig[i as int]).map_values(f));
            assert(seq_paras(out@) == seq_paras(prev_out) + node_paras(new_node));
            assert((seq_paras(orig.take(i as int)) + node_paras(orig[i as int])).map_values(f) == seq_paras(orig.take(i as int)).map_values(f) + node_paras(orig[i as int]).map_values(f));
            assert(orig.take(i as int + 1).drop_last() == orig.take(i as int));
            assert(orig.take(i as int + 1).last() == orig[i as int]);
            assert forall|x: u64| #[trigger] seq_level(out@, x) == seq_level(orig.take(i as int + 1), x) by {
                assert(node_level(new_node, x) == node_level(orig[i as int], x));
                assert(seq_level(prev_out, x) == seq_level(orig.take(i as int), x));
            }
            assert forall|k: int| 0 <= k < rest@.len() implies decreases_to!(orig => #[trigger] rest@[k]) by {
                assert(rest@[k] == orig[i + 1 + k]);
            }
        }
        i = i + 1;
    }
    assert(orig.take(n as int) == orig);
    out
}


pub proof fn lemma_seq_paras_push(s: Seq<BlockNode>, n: BlockNode)
    ensures
        seq_paras(s.push(n)) == seq_paras(s) + node_paras(n),
        forall|x: u64| #[trigger] seq_level(s.push(n), x) == (if seq_level(s, x) >= 0 {
            seq_level(s, x)
        } else {
            node_level(n, x)
        }),
{
    assert(s.push(n).drop_last() == s);
    assert(s.push(n).last() == n);
}

/// The heading level a paragraph gets from `heading`: a plain paragraph for
/// level 0, else the level capped at 6.
pub open spec fn target_level(level: u8) -> int {
    if level == 0 {
        0
    } else if level > 6 {
        6
    } else {
        level as int
    }
}

/// Whether `m` is paragraph `p` made a heading of `level` (capped at six),
/// or a plain paragraph for level 0.
pub open spec fn titled(p: Paragraph, m: BlockNode, level: u8) -> bool {
    match m {
        BlockNode::Paragraph(q) => level == 0 && q@ == p@,
        BlockNode::Heading { level: l, children: q } => level > 0 && l == target_level(level) && q@ == p@,
        _ => false,
    }
}

/// Whether block `m` is `n` with paragraph `id`, wherever it is in its
/// tree, made a heading of `level` (see `titled`); all else stays.
pub open spec fn node_retagged(n: BlockNode, m: BlockNode, id: u64, level: u8) -> bool
    decreases n,
{
    match n {
        BlockNode::Paragraph(p) => if p.id == id {
            titled(p, m, level)
        } else {
            m == n
        },
        BlockNode::Heading { children, .. } => if children.id == id {
            titled(children, m, level)
        } else {
            m == n
        },
        BlockNode::List { children, ordered } => match m {
            BlockNode::List { children: c, ordered: o } => o == ordered && seq_retagged(children@, c@, id, level),
            _ => false,
        },
        BlockNode::ListItem { children, checked, spread } => match m {
            BlockNode::ListItem { children: c, checked: k, spread: sp } => k == checked && sp == spread && seq_retagged(
                children@,
                c@,
                id,
                level,
            ),
            _ => false,
        },
        BlockNode::Blockquote { children } => match m {
            BlockNode::Blockquote { children: c } => seq_retagged(children@, c@, id, level),
            _ => false,
        },
        BlockNode::Unsupported { .. } => m == n,
    }
}

/// Whether the blocks `r` are `s`, block by block, with paragraph `id` made
/// a heading of `level` (see `node_retagged`).
pub open spec fn seq_retagged(s: Seq<BlockNode>, r: Seq<BlockNode>, id: u64, level: u8) -> bool
    decreases s,
{
    &&& r.len() == s.len()
    &&& forall|i: int| 0 <= i < s.len() ==> node_retagged(#[trigger] s[i], r[i], id, level)
}

/// Turn paragraph `id` into a heading of `level` (a plain paragraph for 0).
fn retag(nodes: Vec<BlockNode>, id: u64, level: u8) -> (r: Vec<BlockNode>)
    ensures
        seq_paras(r@) == seq_paras(nodes@),
        forall|x: u64| #[trigger] seq_level(r@, x) == (if x == id && seq_level(nodes@, x) >= 0 {
            target_level(level)
        } else {
            seq_level(nodes@, x)
        }),
        seq_retagged(nodes@, r@, id, level),
    decreases nodes@,
{
    let ghost orig = nodes@;
    let mut rest = nodes;
    let mut out: Vec<BlockNode> = Vec::new();
    let n = rest.len();
    let mut i: usize = 0;
    let lvl: u8 = if level > 6 { 6 } else { level };
    while i < n
        invariant
            n == orig.len(),
            orig == nodes@,
            i <= n,
            lvl as int == target_level(level) || level == 0,
            level > 0 ==> lvl as int == target_level(level),
            rest@ == orig.skip(i as int),
            seq_paras(out@) == seq_paras(orig.take(i as int)),
            forall|x: u64| #[trigger] seq_level(out@, x) == (if x == id && seq_level(orig.take(i as int), x) >= 0 {
                target_level(level)
            } else {
                seq_level(orig.take(i as int), x)
            }),
            forall|k: int| 0 <= k < rest@.len() ==> decreases_to!(orig => #[trigger] rest@[k]),
            out@.len() == i,
            forall|k: int| 0 <= k < i ==> node_retagged(#[trigger] orig[k], out@[k], id, level),
        decreases n - i,
    {
        let node = rest.remove(0);
        assert(node == orig[i as int]);
        assert(decreases_to!(orig => node)) by { assert(rest@.len() >= 0); }
        let new_node = match node {
            BlockNode::Paragraph(p) => {
                let nn = if p.id == id {
                    if level == 0 {
                        BlockNode::Paragraph(p)
                    } else {
                        BlockNode::Heading { level: lvl, children: p }
                    }
                } else {
                    BlockNode::Paragraph(p)
                };
                assert(node_paras(nn) == node_paras(node));
                assert forall|x: u64| #[trigger] node_level(nn, x) == (if x == id && node_level(node, x) >= 0 {
                    target_level(level)
                } else {
                    node_level(node, x)
                }) by {}
                nn
            },
            BlockNode::Heading { level: old_level, children } => {
                let nn = if children.id == id {
                    if level == 0 {
                        BlockNode::Paragraph(children)
                    } else {
                        BlockNode::Heading { level: lvl, children }
                    }
                } else {
                    BlockNode::Heading { level: old_level, children }
                };
                assert(node_paras(nn) == node_paras(node));
                assert forall|x: u64| #[trigger] node_level(nn, x) == (if x == id && node_level(node, x) >= 0 {
                    target_level(level)
                } else {
                    node_level(node, x)
                }) by {}
                nn
            },
            BlockNode::List { children, ordered } => {
                assert(decreases_to!(node => children));
                assert(decreases_to!(orig => children@));
                let c = retag(children, id, level);
                let nn = BlockNode::List { children: c, ordered };
                assert forall|x: u64| #[trigger] node_level(nn, x) == (if x == id && node_level(node, x) >= 0 {
                    target_level(level)
                } else {
                    node_level(node, x)
                }) by {
                    assert(seq_level(c@, x) == node_level(nn, x));
                }
                nn
            },
            BlockNode::ListItem { children, checked, spread } => {
                assert(decreases_to!(node => children));
                assert(decreases_to!(orig => children@));
                let c = retag(children, id, level);
                let nn = BlockNode::ListItem { children: c, checked, spread };
                assert forall|x: u64| #[trigger] node_level(nn, x) == (if x == id && node_level(node, x) >= 0 {
                    target_level(level)
                } else {
                    node_level(node, x)
                }) by {
                    assert(seq_level(c@, x) == node_level(nn, x));
                }
                nn
            },
            BlockNode::Blockquote { children } => {
                assert(decreases_to!(node => children));
                assert(decreases_to!(orig => children@));
                let c = retag(children, id, level);
                let nn = BlockNode::Blockquote { children: c };
                assert forall|x: u64| #[trigger] node_level(nn, x) == (if x == id && node_level(node, x) >= 0 {
                    target_level(level)
                } else {
                    node_level(node, x)
                }) by {
                    assert(seq_level(c@, x) == node_level(nn, x));
                }
                nn
            },
            BlockNode::Unsupported { source } => BlockNode::Unsupported { source },
        };
        assert(node_paras(new_node) == node_paras(node));
        assert(node_retagged(node, new_node, id, level));
        let ghost prev_out = out@;
        out.push(new_node);
        proof {
            lemma_seq_paras_push(prev_out, new_node);
            lemma_seq_paras_push(orig.take(i as int), orig[i as int]);
            assert(orig.take(i as int).push(orig[i as int]) == orig.take(i as int + 1));
            assert forall|k: int| 0 <= k < rest@.len() implies decreases_to!(orig => #[trigger] rest@[k]) by {
                assert(rest@[k] == orig[i + 1 + k]);
            }
        }
        i = i + 1;
    }
    assert(orig.take(n as int) == orig);
    out
}


proof fn lemma_filter_single(x: ParaView, pred: spec_fn(ParaView) -> bool)
    ensures
        seq![x].filter(pred) == (if pred(x) { seq![x] } else { Seq::<ParaView>::empty() }),
{
    reveal_with_fuel(Seq::filter, 2);
    assert(seq![x].drop_last() == Seq::<ParaView>::empty());
}

/// Whether `x` is one of `ids`.
fn contains_id(ids: &HashSet<u64>, x: u64) -> (r: bool)
    ensures
        r == ids@.contains(x),
{
    broadcast use vstd::std_specs::hash::group_hash_axioms;
    ids.contains(&x)
}

/// The paragraphs of `ps` whose identity is not in `ids`.
pub open spec fn without_ids(ps: Seq<ParaView>, ids: Set<u64>) -> Seq<ParaView> {
    ps.filter(|q: ParaView| !ids.contains(q.id))
}

/// The identities of paragraphs `ps`.
pub open spec fn ids_of(ps: Seq<ParaView>) -> Set<u64> {
    ps.map_values(|q: ParaView| q.id).to_set()
}

/// Whether block `n` goes entirely when the paragraphs with identities in
/// `ids` are removed: it is such a paragraph, or a container all of whose
/// blocks go.
pub open spec fn node_gone(n: BlockNode, ids: Set<u64>) -> bool
    decreases n,
{
    match n {
        BlockNode::Paragraph(p) => ids.contains(p.id),
        BlockNode::Heading { children, .. } => ids.contains(children.id),
        BlockNode::List { children, .. } => seq_gone(children@, ids),
        BlockNode::ListItem { children, .. } => seq_gone(children@, ids),
        BlockNode::Blockquote { children } => seq_gone(children@, ids),
        BlockNode::Unsupported { .. } => false,
    }
}

/// Whether all the blocks `s` go (see `node_gone`).
pub open spec fn seq_gone(s: Seq<BlockNode>, ids: Set<u64>) -> bool
    decreases s,
{
    forall|i: int| 0 <= i < s.len() ==> node_gone(#[trigger] s[i], ids)
}

/// Whether `m` is what is left of block `n`, which does not go, when the
/// paragraphs with identities in `ids` are removed: the same paragraph or
/// other leaf, or the same container with what is left of its blocks.
pub open spec fn node_kept(n: BlockNode, m: BlockNode, ids: Set<u64>) -> bool
    decreases n,
{
    match n {
        BlockNode::List { children, ordered } => match m {
            BlockNode::List { children: c, ordered: o } => o == ordered && seq_pruned(children@, c@, ids),
            _ => false,
        },
        BlockNode::ListItem { children, checked, spread } => match m {
            BlockNode::ListItem { children: c, checked: k, spread: sp } => k == checked && sp == spread && seq_pruned(
                children@,
                c@,
                ids,
            ),
            _ => false,
        },
        BlockNode::Blockquote { children } => match m {
            BlockNode::Blockquote { children: c } => seq_pruned(children@, c@, ids),
            _ => false,
        },
        _ => m == n,
    }
}

/// Whether the blocks `r` are what is left of `s` when the paragraphs with
/// identities in `ids` are removed, and with them the containers left
/// empty: the blocks that go are dropped, the others kept in order (see
/// `node_kept`).
pub open spec fn seq_pruned(s: Seq<BlockNode>, r: Seq<BlockNode>, ids: Set<u64>) -> bool
    decreases s,
{
    if s.len() == 0 {
        r.len() == 0
    } else if node_gone(s.last(), ids) {
        seq_pruned(s.drop_last(), r, ids)
    } else {
        &&& r.len() > 0
        &&& node_kept(s.last(), r.last(), ids)
        &&& seq_pruned(s.drop_last(), r.drop_last(), ids)
    }
}

/// Remove the paragraphs whose identity is in `remove`, and the containers
/// that are left empty by it.
#[verifier::spinoff_prover]
#[verifier::rlimit(40)]
fn prune(nodes: Vec<BlockNode>, remove: &HashSet<u64>) -> (r: Vec<BlockNode>)
    ensures
        seq_paras(r@) == without_ids(seq_paras(nodes@), remove@),
        seq_pruned(nodes@, r@, remove@),
        r@.len() == 0 <==> seq_gone(nodes@, remove@),
    decreases nodes@,
{
    let ghost orig = nodes@;
    let ghost pred = |q: ParaView| !remove@.contains(q.id);
    let mut rest = nodes;
    let mut out: Vec<BlockNode> = Vec::new();
    let n = rest.len();
    let mut i: usize = 0;
    assert(orig.take(0) == Seq::<BlockNode>::empty());
    assert(seq_paras(Seq::<BlockNode>::empty()).filter(pred) == Seq::<ParaView>::empty()) by {
        reveal(Seq::filter);
    }
    while i < n
        invariant
            n == orig.len(),
            orig == nodes@,
            pred == (|q: ParaView| !remove@.contains(q.id)),
            i <= n,
            rest@ == orig.skip(i as int),
            seq_paras(out@) == seq_paras(orig.take(i as int)).filter(pred),
            forall|k: int| 0 <= k < rest@.len() ==> decreases_to!(orig => #[trigger] rest@[k]),
            seq_pruned(orig.take(i as int), out@, remove@),
            out@.len() == 0 <==> seq_gone(orig.take(i as int), remove@),
        decreases n - i,
    {
        let node = rest.remove(0);
        assert(node == orig[i as int]);
        assert(decreases_to!(orig => node)) by { assert(rest@.len() >= 0); }
        let ghost prev_out = out@;
        let ghost np = node_paras(node);
        let kept: Option<BlockNode> = match node {
            BlockNode::Paragraph(p) => {
                proof { lemma_filter_single(p@, pred); }
                if contains_id(remove, p.id) { None } else { Some(BlockNode::Paragraph(p)) }
            },
            BlockNode::Heading { level, children } => {
                proof { lemma_filter_single(children@, pred); }
                if contains_id(remove, children.id) { None } else { Some(BlockNode::Heading { level, children }) }
            },
            BlockNode::List { children, ordered } => {
                assert(decreases_to!(node => children));
                assert(decreases_to!(orig => children@));
                let c = prune(children, remove);
                if c.len() == 0 {
                    assert(seq_paras(c@) == Seq::<ParaView>::empty());
                    None
                } else { Some(BlockNode::List { children: c, ordered }) }
            },
            BlockNode::ListItem { children, checked, spread } => {
                assert(decreases_to!(node => children));
                assert(decreases_to!(orig => children@));
                let c = prune(children, remove);
                if c.len() == 0 {
                    assert(seq_paras(c@) == Seq::<ParaView>::empty());
                    None
                } else { Some(BlockNode::ListItem { children: c, checked, spread }) }
            },
            BlockNode::Blockquote { children } => {
                assert(decreases_to!(node => children));
                assert(decreases_to!(orig => children@));
                let c = prune(children, remove);
                if c.len() == 0 {
                    assert(seq_paras(c@) == Seq::<ParaView>::empty());
                    None
                } else { Some(BlockNode::Blockquote { children: c }) }
            },
            BlockNode::Unsupported { source } => {
                proof { reveal(Seq::filter); }
                Some(BlockNode::Unsupported { source })
            },
        };
        assert(kept is Some ==> node_paras(kept->0) == np.filter(pred));
        assert(kept is None ==> np.filter(pred) == Seq::<ParaView>::empty());
        assert(kept is None <==> node_gone(node, remove@));
        assert(kept is Some ==> node_kept(node, kept->0, remove@));
        if let Some(k) = kept {
            out.push(k);
            proof {
                lemma_seq_paras_push(prev_out, k);
            }
        }
        proof {
            let t1 = orig.take(i + 1);
            assert(t1.drop_last() == orig.take(i as int));
            assert(t1.last() == node);
            if kept is Some {
                assert(out@.drop_last() == prev_out);
            }
            assert(seq_gone(t1, remove@) <==> (seq_gone(orig.take(i as int), remove@) && node_gone(node, remove@))) by {
                if seq_gone(orig.take(i as int), remove@) && node_gone(node, remove@) {
                    assert forall|j: int| 0 <= j < t1.len() implies node_gone(#[trigger] t1[j], remove@) by {
                        if j < i {
                            assert(t1[j] == orig.take(i as int)[j]);
                        }
                    }
                }
                if seq_gone(t1, remove@) {
                    assert(node_gone(t1[i as int], remove@));
                    assert forall|j: int| 0 <= j < i implies node_gone(#[trigger] orig.take(i as int)[j], remove@) by {
                        assert(t1[j] == orig.take(i as int)[j]);
                    }
                }
            }
            lemma_seq_paras_take(orig, i as int);
            Seq::filter_distributes_over_add(seq_paras(orig.take(i as int)), np, pred);
            assert forall|k: int| 0 <= k < rest@.len() implies decreases_to!(orig => #[trigger] rest@[k]) by {
                assert(rest@[k] == orig[i + 1 + k]);
            }
        }
        i = i + 1;
    }
    assert(orig.take(n as int) == orig);
    out
}


/// `ps` with `x` right after the first paragraph with identity `id`.
pub open spec fn insert_after(ps: Seq<ParaView>, id: u64, x: ParaView) -> Seq<ParaView> {
    let i = index_of(ps, id);
    ps.take(i + 1).push(x) + ps.skip(i + 1)
}

pub proof fn lemma_distinct_split(a: Seq<ParaView>, b: Seq<ParaView>)
    requires
        ids_distinct(a + b),
    ensures
        ids_distinct(a),
        ids_distinct(b),
        forall|i: int, j: int| 0 <= i < a.len() && 0 <= j < b.len() ==> #[trigger] a[i].id != #[trigger] b[j].id,
{
    assert forall|i: int, j: int| 0 <= i < j < a.len() implies #[trigger] a[i].id != #[trigger] a[j].id by {
        assert((a + b)[i] == a[i] && (a + b)[j] == a[j]);
    }
    assert forall|i: int, j: int| 0 <= i < j < b.len() implies #[trigger] b[i].id != #[trigger] b[j].id by {
        assert((a + b)[a.len() + i] == b[i] && (a + b)[a.len() + j] == b[j]);
    }
    assert forall|i: int, j: int| 0 <= i < a.len() && 0 <= j < b.len() implies #[trigger] a[i].id != #[trigger] b[j].id by {
        assert((a + b)[i] == a[i] && (a + b)[a.len() + j] == b[j]);
    }
}

/// Whether a block is a list item whose first child is paragraph `id`.
pub open spec fn is_head_item(n: BlockNode, id: u64) -> bool {
    match n {
        BlockNode::ListItem { children, .. } => children@.len() > 0 && (node_paragraph(children@[0]) matches Some(p) && p.id == id),
        _ => false,
    }
}

pub(crate) fn head_item_check(n: &BlockNode, id: u64) -> (r: bool)
    ensures
        r == is_head_item(*n, id),
{
    match n {
        BlockNode::ListItem { children, .. } => {
            if children.len() == 0 {
                false
            } else {
                match &children[0] {
                    BlockNode::Paragraph(p) => p.id == id,
                    BlockNode::Heading { children: p, .. } => p.id == id,
                    _ => false,
                }
            }
        },
        _ => false,
    }
}

/// The index of the first item of `items` whose first child is paragraph
/// `id`, or -1.
pub open spec fn head_index(items: Seq<BlockNode>, id: u64) -> int
    decreases items.len(),
{
    if items.len() == 0 {
        -1
    } else {
        let r = head_index(items.drop_last(), id);
        if r >= 0 {
            r
        } else if is_head_item(items.last(), id) {
            items.len() - 1
        } else {
            -1
        }
    }
}

pub proof fn lemma_head_index(items: Seq<BlockNode>, id: u64)
    ensures
        -1 <= head_index(items, id) < items.len(),
        head_index(items, id) >= 0 ==> is_head_item(items[head_index(items, id)], id),
        forall|k: int| 0 <= k < head_index(items, id) ==> !is_head_item(#[trigger] items[k], id),
        head_index(items, id) < 0 ==> forall|k: int| 0 <= k < items.len() ==> !is_head_item(#[trigger] items[k], id),
    decreases items.len(),
{
    if items.len() > 0 {
        let d = items.drop_last();
        lemma_head_index(d, id);
        assert forall|k: int| 0 <= k < items.len() - 1 implies items[k] == #[trigger] d[k] by {}
        assert forall|k: int| 0 <= k < head_index(items, id) implies !is_head_item(#[trigger] items[k], id) by {
            assert(items[k] == d[k]);
        }
        if head_index(items, id) < 0 {
            assert forall|k: int| 0 <= k < items.len() implies !is_head_item(#[trigger] items[k], id) by {
                if k < items.len() - 1 {
                    assert(items[k] == d[k]);
                }
            }
        }
    }
}

pub(crate) fn find_head_item(items: &Vec<BlockNode>, id: u64) -> (r: Option<usize>)
    ensures
        r is Some <==> head_index(items@, id) >= 0,
        r matches Some(k) ==> k == head_index(items@, id),
{
    proof {
        lemma_head_index(items@, id);
    }
    let n = items.len();
    let mut k: usize = 0;
    while k < n
        invariant
            n == items@.len(),
            k <= n,
            forall|j: int| 0 <= j < k ==> !is_head_item(#[trigger] items@[j], id),
            -1 <= head_index(items@, id) < items@.len(),
            head_index(items@, id) >= 0 ==> is_head_item(items@[head_index(items@, id)], id),
            forall|j: int| 0 <= j < head_index(items@, id) ==> !is_head_item(#[trigger] items@[j], id),
            head_index(items@, id) < 0 ==> forall|j: int| 0 <= j < items@.len() ==> !is_head_item(#[trigger] items@[j], id),
        decreases n - k,
    {
        if head_item_check(&items[k], id) {
            proof {
                let h = head_index(items@, id);
                if h != k as int {
                    if h >= 0 && h < k as int {
                        assert(!is_head_item(items@[h], id));
                    } else {
                        assert(!is_head_item(items@[k as int], id));
                    }
                }
            }
            return Some(k);
        }
        k = k + 1;
    }
    None
}

pub proof fn lemma_seq_paras_split3(s: Seq<BlockNode>, k: int)
    requires
        0 <= k < s.len(),
    ensures
        seq_paras(s) == seq_paras(s.take(k)) + node_paras(s[k]) + seq_paras(s.skip(k + 1)),
{
    assert(s == s.take(k) + seq![s[k]] + s.skip(k + 1));
    lemma_seq_paras_add(s.take(k) + seq![s[k]], s.skip(k + 1));
    lemma_seq_paras_add(s.take(k), seq![s[k]]);
    lemma_seq_paras_one(s[k]);
}

/// Whether block `n` is a plain paragraph with view `x`.
pub open spec fn is_para_view(n: BlockNode, x: ParaView) -> bool {
    match n {
        BlockNode::Paragraph(q) => q@ == x,
        _ => false,
    }
}

/// Whether `first` and `second` are what list item `item` becomes when a
/// new paragraph `x` splits off its head: `first` keeps the head alone;
/// `second` starts with `x`, takes the item's later blocks, is not spread,
/// and is an unchecked task when `item` is a task.
pub open spec fn item_split(item: BlockNode, first: BlockNode, second: BlockNode, x: ParaView) -> bool {
    match item {
        BlockNode::ListItem { children, checked, spread } => {
            &&& match first {
                BlockNode::ListItem { children: c, checked: k, spread: sp } => k == checked && sp == spread && c@
                    == children@.take(1),
                _ => false,
            }
            &&& match second {
                BlockNode::ListItem { children: c, checked: k, spread: sp } => {
                    &&& !sp
                    &&& k == (match checked {
                        Some(_) => Some(false),
                        None => None,
                    })
                    &&& c@.len() == children@.len()
                    &&& c@.skip(1) == children@.skip(1)
                    &&& is_para_view(c@[0], x)
                },
                _ => false,
            }
        },
        _ => false,
    }
}

/// Whether the blocks `mid` are what block `n`, which holds paragraph `id`,
/// becomes when a new paragraph `x` splits off right after that paragraph:
/// a paragraph or heading gets `x` as a plain paragraph after it; in a list
/// whose item `id` heads, the item splits (see `item_split`); else the
/// block that holds it splits inside (see `seq_split`).
pub open spec fn node_split(n: BlockNode, mid: Seq<BlockNode>, id: u64, x: ParaView) -> bool
    decreases n,
{
    match n {
        BlockNode::Paragraph(_) => mid.len() == 2 && mid[0] == n && is_para_view(mid[1], x),
        BlockNode::Heading { .. } => mid.len() == 2 && mid[0] == n && is_para_view(mid[1], x),
        BlockNode::List { children, ordered } => mid.len() == 1 && match mid[0] {
            BlockNode::List { children: c, ordered: o } => o == ordered && if head_index(children@, id) >= 0 {
                let j = head_index(children@, id);
                &&& c@.len() == children@.len() + 1
                &&& c@.take(j) == children@.take(j)
                &&& c@.skip(j + 2) == children@.skip(j + 1)
                &&& item_split(children@[j], c@[j], c@[j + 1], x)
            } else {
                seq_split(children@, c@, id, x)
            },
            _ => false,
        },
        BlockNode::ListItem { children, checked, spread } => mid.len() == 1 && match mid[0] {
            BlockNode::ListItem { children: c, checked: k, spread: sp } => k == checked && sp == spread && seq_split(
                children@,
                c@,
                id,
                x,
            ),
            _ => false,
        },
        BlockNode::Blockquote { children } => mid.len() == 1 && match mid[0] {
            BlockNode::Blockquote { children: c } => seq_split(children@, c@, id, x),
            _ => false,
        },
        BlockNode::Unsupported { .. } => false,
    }
}

/// Whether the blocks `r` are `s` with a new paragraph `x` split off after
/// paragraph `id`, in the first block that holds it (see `node_split`); the
/// other blocks stay.
pub open spec fn seq_split(s: Seq<BlockNode>, r: Seq<BlockNode>, id: u64, x: ParaView) -> bool
    decreases s,
{
    let k = top_index(s, id);
    let t = s.len() - k - 1;
    &&& 0 <= k < s.len()
    &&& k + t <= r.len()
    &&& r.take(k) == s.take(k)
    &&& r.skip(r.len() - t) == s.skip(k + 1)
    &&& node_split(s[k], r.subrange(k, r.len() - t), id, x)
}

/// Split paragraph `id`'s block: `new_p` goes right after it, as a new list
/// item taking the item's later children when the paragraph heads an item,
/// else as a sibling paragraph. Hands `new_p` back when `id` is not found.
fn insert_split(nodes: Vec<BlockNode>, id: u64, new_p: Paragraph) -> (r: (Vec<BlockNode>, Option<Paragraph>))
    requires
        ids_distinct(seq_paras(nodes@)),
    ensures
        r.1 is None <==> index_of(seq_paras(nodes@), id) >= 0,
        r.1 is None ==> seq_paras(r.0@) == insert_after(seq_paras(nodes@), id, new_p@),
        r.1 matches Some(q) ==> q@ == new_p@ && seq_paras(r.0@) == seq_paras(nodes@),
        r.1 is None ==> seq_split(nodes@, r.0@, id, new_p@),
    decreases nodes@,
{
    let ghost orig = nodes@;
    let ghost x = new_p@;
    let mut rest = nodes;
    let mut out: Vec<BlockNode> = Vec::new();
    let mut pending: Option<Paragraph> = Some(new_p);
    let n = rest.len();
    let mut i: usize = 0;
    let ghost mut found: int = 0;
    let ghost mut fmid: Seq<BlockNode> = Seq::empty();
    while i < n
        invariant
            n == orig.len(),
            orig == nodes@,
            ids_distinct(seq_paras(orig)),
            i <= n,
            rest@ == orig.skip(i as int),
            pending matches Some(q) ==> q@ == x && seq_paras(out@) == seq_paras(orig.take(i as int)) && index_of(seq_paras(orig.take(i as int)), id) < 0,
            pending is None ==> seq_paras(out@) == insert_after(seq_paras(orig.take(i as int)), id, x) && index_of(seq_paras(orig.take(i as int)), id) >= 0,
            forall|k: int| 0 <= k < rest@.len() ==> decreases_to!(orig => #[trigger] rest@[k]),
            pending is Some ==> out@ == orig.take(i as int),
            pending is Some ==> forall|j: int| 0 <= j < i ==> index_of(node_paras(#[trigger] orig[j]), id) < 0,
            pending is None ==> {
                &&& 0 <= found < i
                &&& forall|j: int| 0 <= j < found ==> index_of(node_paras(#[trigger] orig[j]), id) < 0
                &&& index_of(node_paras(orig[found]), id) >= 0
                &&& out@ == orig.take(found) + fmid + orig.subrange(found + 1, i as int)
                &&& node_split(orig[found], fmid, id, x)
            },
        decreases n - i,
    {
        let node = rest.remove(0);
        assert(node == orig[i as int]);
        assert(decreases_to!(orig => node)) by { assert(rest@.len() >= 0); }
        let ghost prefix = seq_paras(orig.take(i as int));
        let ghost np = node_paras(node);
        proof {
            lemma_seq_paras_take(orig, i as int);
            lemma_seq_paras_split3(orig, i as int);
            lemma_distinct_split(seq_paras(orig.take(i as int)) + node_paras(orig[i as int]), seq_paras(orig.skip(i + 1)));
            lemma_distinct_split(seq_paras(orig.take(i as int)), node_paras(orig[i as int]));
        }
        let ghost prev_out = out@;
        if pending.is_none() {
            out.push(node);
            proof {
                lemma_seq_paras_push(prev_out, node);
                lemma_index_of(prefix, id);
                let j = index_of(prefix, id);
                assert(index_of(prefix + np, id) == j) by {
                    lemma_index_of(prefix + np, id);
                    let j2 = index_of(prefix + np, id);
                    assert((prefix + np)[j] == prefix[j]);
                    if j2 < j {
                        assert((prefix + np)[j2] == prefix[j2]);
                    }
                }
                assert((prefix.take(j + 1).push(x) + prefix.skip(j + 1)) + np == (prefix + np).take(j + 1).push(x) + (prefix + np).skip(j + 1));
                assert(orig.subrange(found + 1, i + 1) == orig.subrange(found + 1, i as int).push(node));
            }
        } else if !node_holds(&node, id) {
            out.push(node);
            proof {
                lemma_seq_paras_push(prev_out, node);
                lemma_index_of(prefix, id);
                lemma_index_of(np, id);
                lemma_index_of(prefix + np, id);
                if index_of(prefix + np, id) >= 0 {
                    let j2 = index_of(prefix + np, id);
                    if j2 < prefix.len() {
                        assert((prefix + np)[j2] == prefix[j2]);
                    } else {
                        assert((prefix + np)[j2] == np[j2 - prefix.len()]);
                    }
                }
                assert(orig.take(i + 1) == orig.take(i as int).push(node));
            }
        } else {
            let q = match pending {
                Some(q) => q,
                None => { proof { assert(false); } return (out, None); },
            };
            let (new_nodes, _) = split_in_node(node, id, q);
            let mut moved = new_nodes;
            proof {
                lemma_seq_paras_add(prev_out, moved@);
                found = i as int;
                fmid = moved@;
            }
            out.append(&mut moved);
            pending = None;
            proof {
                lemma_index_of(prefix, id);
                lemma_index_of(np, id);
                let j = index_of(np, id);
                lemma_index_of(prefix + np, id);
                assert((prefix + np)[prefix.len() + j] == np[j]);
                let j2 = index_of(prefix + np, id);
                if j2 < prefix.len() + j {
                    if j2 < prefix.len() {
                        assert((prefix + np)[j2] == prefix[j2]);
                    } else {
                        assert((prefix + np)[j2] == np[j2 - prefix.len()]);
                    }
                }
                assert(j2 == prefix.len() + j);
                assert(prefix + (np.take(j + 1).push(x) + np.skip(j + 1)) == (prefix + np).take(j2 + 1).push(x) + (prefix + np).skip(j2 + 1));
                assert(orig.subrange(found + 1, i + 1) == Seq::<BlockNode>::empty());
            }
        }
        proof {
            assert forall|k: int| 0 <= k < rest@.len() implies decreases_to!(orig => #[trigger] rest@[k]) by {
                assert(rest@[k] == orig[i + 1 + k]);
            }
        }
        i = i + 1;
    }
    assert(orig.take(n as int) == orig);
    proof {
        if pending is None {
            lemma_top_at(orig, id, found);
            let t = orig.len() - found - 1;
            assert(orig.subrange(found + 1, n as int) == orig.skip(found + 1));
            assert(out@.take(found) == orig.take(found));
            assert(out@.skip(out@.len() - t) == orig.skip(found + 1));
            assert(out@.subrange(found, out@.len() - t) == fmid);
        }
    }
    (out, pending)
}


/// Split the list item `k` of `items`, headed by paragraph `id`: the item
/// keeps its head, and a new item of `new_p` and the item's later children
/// follows it (unchecked when the item is a task).
#[verifier::spinoff_prover]
#[verifier::rlimit(60)]
fn split_list_item(items: Vec<BlockNode>, k: usize, id: u64, new_p: Paragraph) -> (r: Vec<BlockNode>)
    requires
        ids_distinct(seq_paras(items@)),
        k == head_index(items@, id),
        k >= 0,
    ensures
        seq_paras(r@) == insert_after(seq_paras(items@), id, new_p@),
        index_of(seq_paras(items@), id) >= 0,
        r@.len() == items@.len() + 1,
        r@.take(k as int) == items@.take(k as int),
        r@.skip(k + 2) == items@.skip(k + 1),
        item_split(items@[k as int], r@[k as int], r@[k + 1], new_p@),
{
    let ghost x = new_p@;
    let ghost old_items = items@;
    let mut items = items;
    proof {
        lemma_head_index(old_items, id);
        lemma_seq_paras_split3(old_items, k as int);
    }
    let len = items.len();
    let item = items.remove(k);
    assert(items@ == old_items.take(k as int) + old_items.skip(k + 1));
    let (item_children, checked, spread) = match item {
        BlockNode::ListItem { children, checked, spread } => (children, checked, spread),
        _ => { proof { assert(false); } (Vec::new(), None, false) },
    };
    let ghost ic = item_children@;
    let mut item_children = item_children;
    let head = item_children.remove(0);
    let mut first_children: Vec<BlockNode> = Vec::new();
    first_children.push(head);
    let first = BlockNode::ListItem { children: first_children, checked, spread };
    let mut tail: Vec<BlockNode> = Vec::new();
    tail.push(BlockNode::Paragraph(new_p));
    let mut later = item_children;
    tail.append(&mut later);
    let new_checked = match checked {
        Some(_) => Some(false),
        None => None,
    };
    let second = BlockNode::ListItem { children: tail, checked: new_checked, spread: false };
    items.insert(k, first);
    items.insert(k + 1, second);
    proof {
        let pre = seq_paras(old_items.take(k as int));
        let post = seq_paras(old_items.skip(k + 1));
        let hp = node_paras(head);
        let rp = seq_paras(ic.skip(1));
        assert(ic == seq![head] + ic.skip(1));
        lemma_seq_paras_add(seq![head], ic.skip(1));
        lemma_seq_paras_one(head);
        assert(node_paras(old_items[k as int]) == hp + rp);
        assert(node_paras(first) == hp);
        lemma_seq_paras_one(BlockNode::Paragraph(new_p));
        assert(tail@ == seq![BlockNode::Paragraph(new_p)] + ic.skip(1));
        lemma_seq_paras_add(seq![BlockNode::Paragraph(new_p)], ic.skip(1));
        assert(node_paras(second) == seq![x] + rp);
        assert(items@ == old_items.take(k as int) + seq![first, second] + old_items.skip(k + 1));
        lemma_seq_paras_add(old_items.take(k as int) + seq![first, second], old_items.skip(k + 1));
        lemma_seq_paras_add(old_items.take(k as int), seq![first, second]);
        lemma_seq_paras_push(seq![first], second);
        lemma_seq_paras_one(first);
        assert(seq![first, second] == seq![first].push(second));
        assert(seq_paras(items@) == pre + hp + seq![x] + rp + post);
        let hv = node_paragraph(head)->0;
        assert(hp == seq![hv]);
        let whole = pre + hp + rp + post;
        assert(whole == seq_paras(old_items));
        assert(whole[pre.len() as int] == hv);
        lemma_index_of_distinct(whole, pre.len() as int);
        assert(whole.take(pre.len() as int + 1) == pre + hp);
        assert(whole.skip(pre.len() as int + 1) == rp + post);
        assert(items@.take(k as int) == old_items.take(k as int));
        assert(items@.skip(k + 2) == old_items.skip(k + 1));
        assert(items@[k as int] == first && items@[k + 1] == second);
        assert(first_children@ == ic.take(1));
        assert(tail@.skip(1) == ic.skip(1));
    }
    items
}

/// Split inside one block: the block becomes the returned blocks.
fn split_in_node(node: BlockNode, id: u64, new_p: Paragraph) -> (r: (Vec<BlockNode>, Option<Paragraph>))
    requires
        ids_distinct(node_paras(node)),
    ensures
        r.1 is None <==> index_of(node_paras(node), id) >= 0,
        r.1 is None ==> seq_paras(r.0@) == insert_after(node_paras(node), id, new_p@),
        r.1 matches Some(q) ==> q@ == new_p@ && seq_paras(r.0@) == node_paras(node),
        r.1 is None ==> node_split(node, r.0@, id, new_p@),
    decreases node,
{
    let ghost x = new_p@;
    let ghost np = node_paras(node);
    match node {
        BlockNode::Paragraph(p) => {
            if p.id == id {
                let mut v: Vec<BlockNode> = Vec::new();
                v.push(BlockNode::Paragraph(p));
                v.push(BlockNode::Paragraph(new_p));
                proof {
                    lemma_seq_paras_push(Seq::<BlockNode>::empty(), v@[0]);
                    lemma_seq_paras_push(seq![v@[0]], v@[1]);
                    assert(v@ == seq![v@[0]].push(v@[1]));
                    assert(seq![v@[0]] == Seq::<BlockNode>::empty().push(v@[0]));
                    reveal_with_fuel(index_of, 2);
                }
                (v, None)
            } else {
                let mut v: Vec<BlockNode> = Vec::new();
                v.push(BlockNode::Paragraph(p));
                proof {
                    lemma_seq_paras_push(Seq::<BlockNode>::empty(), v@[0]);
                    assert(seq![v@[0]] == Seq::<BlockNode>::empty().push(v@[0]));
                    reveal_with_fuel(index_of, 2);
                }
                (v, Some(new_p))
            }
        },
        BlockNode::Heading { level, children } => {
            let found = children.id == id;
            let mut v: Vec<BlockNode> = Vec::new();
            v.push(BlockNode::Heading { level, children });
            proof {
                lemma_seq_paras_push(Seq::<BlockNode>::empty(), v@[0]);
                assert(seq![v@[0]] == Seq::<BlockNode>::empty().push(v@[0]));
                reveal_with_fuel(index_of, 2);
            }
            if found {
                v.push(BlockNode::Paragraph(new_p));
                proof {
                    lemma_seq_paras_push(seq![v@[0]], v@[1]);
                    assert(v@ == seq![v@[0]].push(v@[1]));
                }
                (v, None)
            } else {
                (v, Some(new_p))
            }
        },
        BlockNode::List { children: items, ordered } => {
            assert(decreases_to!(node => items));
            assert(decreases_to!(node => items@));
            match find_head_item(&items, id) {
                Some(k) => {
                    let c = split_list_item(items, k, id, new_p);
                    let mut v: Vec<BlockNode> = Vec::new();
                    v.push(BlockNode::List { children: c, ordered });
                    proof {
                        let ni = v@[0];
                        lemma_seq_paras_push(Seq::<BlockNode>::empty(), ni);
                        assert(seq![ni] == Seq::<BlockNode>::empty().push(ni));
                    }
                    (v, None)
                },
                None => {
                    proof {
                        lemma_head_index(items@, id);
                    }
                    let (c, back) = insert_split(items, id, new_p);
                    let mut v: Vec<BlockNode> = Vec::new();
                    v.push(BlockNode::List { children: c, ordered });
                    proof {
                        let ni = v@[0];
                        lemma_seq_paras_push(Seq::<BlockNode>::empty(), ni);
                        assert(seq![ni] == Seq::<BlockNode>::empty().push(ni));
                    }
                    (v, back)
                },
            }
        },
        BlockNode::ListItem { children, checked, spread } => {
            assert(decreases_to!(node => children));
            assert(decreases_to!(node => children@));
            let (c, back) = insert_split(children, id, new_p);
            let mut v: Vec<BlockNode> = Vec::new();
            v.push(BlockNode::ListItem { children: c, checked, spread });
            proof {
                let ni = v@[0];
                lemma_seq_paras_push(Seq::<BlockNode>::empty(), ni);
                assert(seq![ni] == Seq::<BlockNode>::empty().push(ni));
            }
            (v, back)
        },
        BlockNode::Blockquote { children } => {
            assert(decreases_to!(node => children));
            assert(decreases_to!(node => children@));
            let (c, back) = insert_split(children, id, new_p);
            let mut v: Vec<BlockNode> = Vec::new();
            v.push(BlockNode::Blockquote { children: c });
            proof {
                let ni = v@[0];
                lemma_seq_paras_push(Seq::<BlockNode>::empty(), ni);
                assert(seq![ni] == Seq::<BlockNode>::empty().push(ni));
            }
            (v, back)
        },
        BlockNode::Unsupported { source } => {
            let mut v: Vec<BlockNode> = Vec::new();
            v.push(BlockNode::Unsupported { source });
            proof {
                let ni = v@[0];
                lemma_seq_paras_push(Seq::<BlockNode>::empty(), ni);
                assert(seq![ni] == Seq::<BlockNode>::empty().push(ni));
                reveal_with_fuel(index_of, 1);
            }
            (v, Some(new_p))
        },
    }
}


/// Paragraphs are well formed and named by distinct identities below `next`.
pub open spec fn paras_wf(ps: Seq<ParaView>, next: u64) -> bool {
    &&& ids_distinct(ps)
    &&& forall|i: int| 0 <= i < ps.len() ==> (#[trigger] ps[i]).wf()
    &&& forall|i: int| 0 <= i < ps.len() ==> (#[trigger] ps[i]).id < next
    &&& forall|i: int| 0 <= i < ps.len() ==> 0 < (#[trigger] ps[i]).id
}

pub proof fn lemma_map_content(ps: Seq<ParaView>, id: u64, text: Seq<u8>, marks: Seq<TextMark>)
    requires
        ids_distinct(ps),
        index_of(ps, id) >= 0,
    ensures
        ps.map_values(|q: ParaView| with_content(q, id, text, marks)) == ps.update(
            index_of(ps, id),
            ParaView { id, text, marks },
        ),
{
    lemma_index_of(ps, id);
    let i = index_of(ps, id);
    assert forall|k: int| 0 <= k < ps.len() && k != i implies #[trigger] ps[k].id != id by {
        if k > i {
            assert(ps[i].id != ps[k].id);
        }
    }
    assert(ps.map_values(|q: ParaView| with_content(q, id, text, marks)) =~= ps.update(i, ParaView { id, text, marks }));
}

pub proof fn lemma_paras_wf_update(ps: Seq<ParaView>, i: int, v: ParaView, next: u64)
    requires
        paras_wf(ps, next),
        0 <= i < ps.len(),
        v.wf(),
        v.id == ps[i].id,
    ensures
        paras_wf(ps.update(i, v), next),
        ps.update(i, v).len() == ps.len(),
{
    let t = ps.update(i, v);
    assert forall|a: int, b: int| 0 <= a < b < t.len() implies #[trigger] t[a].id != #[trigger] t[b].id by {
        assert(ps[a].id != ps[b].id);
    }
    assert forall|k: int| 0 <= k < t.len() implies (#[trigger] t[k]).wf() && t[k].id < next by {
        if k != i {
            assert(t[k] == ps[k]);
        }
    }
}

pub proof fn lemma_insert_after_shape(ps: Seq<ParaView>, id: u64, x: ParaView)
    requires
        index_of(ps, id) >= 0,
    ensures
        ({
            let i = index_of(ps, id);
            let t = insert_after(ps, id, x);
            &&& t.len() == ps.len() + 1
            &&& forall|k: int| 0 <= k <= i ==> #[trigger] t[k] == ps[k]
            &&& t[i + 1] == x
            &&& forall|k: int| i + 1 < k < t.len() ==> #[trigger] t[k] == ps[k - 1]
        }),
{
    lemma_index_of(ps, id);
}

pub proof fn lemma_paras_wf_insert(ps: Seq<ParaView>, id: u64, x: ParaView, next: u64)
    requires
        paras_wf(ps, next),
        index_of(ps, id) >= 0,
        x.wf(),
        x.id == next,
        next < u64::MAX,
    ensures
        paras_wf(insert_after(ps, id, x), (next + 1) as u64),
{
    lemma_insert_after_shape(ps, id, x);
    lemma_index_of(ps, id);
    let i = index_of(ps, id);
    let t = insert_after(ps, id, x);
    assert forall|k: int| 0 <= k < t.len() implies (#[trigger] t[k]).wf() && t[k].id < next + 1 && (k != i + 1 ==> t[k].id < next) by {
        if k <= i {
            assert(t[k] == ps[k]);
        } else if k > i + 1 {
            assert(t[k] == ps[k - 1]);
        }
    }
    assert forall|a: int, b: int| 0 <= a < b < t.len() implies #[trigger] t[a].id != #[trigger] t[b].id by {
        if a != i + 1 && b != i + 1 {
            let a2 = if a <= i { a } else { a - 1 };
            let b2 = if b <= i { b } else { b - 1 };
            assert(t[a] == ps[a2] && t[b] == ps[b2]);
        }
    }
}

/// A copy of part of a paragraph's text and marks.
fn slice_para(p: &Paragraph, start: usize, end: usize) -> (r: (Vec<u8>, Vec<TextMark>))
    requires
        p.wf(),
        start <= end <= p.text@.len(),
    ensures
        r.0@ == p.text@.subrange(start as int, end as int),
        r.1@ == p.marks@.subrange(start as int, end as int),
{
    let mut t: Vec<u8> = Vec::new();
    let mut m: Vec<TextMark> = Vec::new();
    let mut i = start;
    while i < end
        invariant
            start <= i <= end,
            end <= p.text@.len(),
            p.text@.len() == p.marks@.len(),
            t@ == p.text@.subrange(start as int, i as int),
            m@ == p.marks@.subrange(start as int, i as int),
        decreases end - i,
    {
        t.push(p.text[i]);
        m.push(p.marks[i]);
        assert(p.text@.subrange(start as int, i + 1) == p.text@.subrange(start as int, i as int).push(p.text@[i as int]));
        assert(p.marks@.subrange(start as int, i + 1) == p.marks@.subrange(start as int, i as int).push(p.marks@[i as int]));
        i = i + 1;
    }
    (t, m)
}

/// The combination of the marks from `lo` up to `hi`.
pub open spec fn merge_marks(ms: Seq<TextMark>, lo: int, hi: int) -> TextMark
    decreases hi - lo,
{
    if hi <= lo {
        plain_mark()
    } else {
        merged(merge_marks(ms, lo, hi - 1), ms[hi - 1])
    }
}

/// The mark typing at `at` inherits: that of the grapheme before it.
pub open spec fn spec_mark_at(ps: Seq<ParaView>, at: Position) -> TextMark {
    let i = index_of(ps, at.block);
    if at.offset > 0 && i >= 0 {
        let p = ps[i];
        let lo = spec_previous_boundary(grapheme_starts(decode_utf8(p.text)), at.offset as int);
        let hi = if at.offset < p.text.len() { at.offset as int } else { p.text.len() as int };
        merge_marks(p.marks, lo, hi)
    } else {
        plain_mark()
    }
}



proof fn lemma_previous_member(starts: Seq<usize>, offset: int)
    ensures
        spec_previous_boundary(starts, offset) == 0 || exists|i: int| 0 <= i < starts.len() && starts[i] == spec_previous_boundary(starts, offset),
    decreases starts.len(),
{
    if starts.len() > 0 {
        lemma_previous_member(starts.drop_last(), offset);
        if spec_previous_boundary(starts, offset) != 0 && starts.last() >= offset {
            let i = choose|i: int| 0 <= i < starts.drop_last().len() && starts.drop_last()[i] == spec_previous_boundary(starts, offset);
            assert(starts[i] == starts.drop_last()[i]);
        }
        if starts.last() < offset {
            assert(starts[starts.len() - 1] == starts.last());
        }
    }
}

proof fn lemma_previous_in_range(starts: Seq<usize>, offset: int, bytes: Seq<u8>)
    ensures
        0 <= spec_previous_boundary(starts, offset),
        spec_previous_boundary(starts, offset) < offset || spec_previous_boundary(starts, offset) == 0,
        starts_shape(starts, bytes) ==> spec_previous_boundary(starts, offset) <= bytes.len(),
    decreases starts.len(),
{
    if starts.len() > 0 {
        lemma_previous_in_range(starts.drop_last(), offset, bytes);
        if starts_shape(starts, bytes) {
            assert(starts[starts.len() - 1] < bytes.len());
            let d = starts.drop_last();
            assert forall|i: int| 0 <= i < d.len() implies #[trigger] d[i] < bytes.len() by {
                assert(d[i] == starts[i]);
            }
            if spec_previous_boundary(starts, offset) == spec_previous_boundary(d, offset) && d.len() > 0 {
                if spec_previous_boundary(d, offset) > 0 {
                    assert(spec_previous_boundary(d, offset) <= bytes.len()) by {
                        lemma_previous_member(d, offset);
                    }
                }
            }
        }
    }
}

/// Take the blocks out of a vector, leaving it empty.
pub(crate) fn take_blocks(v: &mut Vec<BlockNode>) -> (r: Vec<BlockNode>)
    ensures
        r@ == old(v)@,
        final(v)@.len() == 0,
{
    let mut r: Vec<BlockNode> = Vec::new();
    std::mem::swap(v, &mut r);
    r
}


proof fn lemma_filter_all(t: Seq<ParaView>, p: spec_fn(ParaView) -> bool)
    requires
        forall|k: int| 0 <= k < t.len() ==> p(#[trigger] t[k]),
    ensures
        t.filter(p) == t,
    decreases t.len(),
{
    reveal(Seq::filter);
    if t.len() > 0 {
        lemma_filter_all(t.drop_last(), p);
        assert(p(t[t.len() - 1]));
        assert(t.drop_last().push(t.last()) == t);
    }
}

proof fn lemma_filter_none(t: Seq<ParaView>, p: spec_fn(ParaView) -> bool)
    requires
        forall|k: int| 0 <= k < t.len() ==> !p(#[trigger] t[k]),
    ensures
        t.filter(p) == Seq::<ParaView>::empty(),
    decreases t.len(),
{
    reveal(Seq::filter);
    if t.len() > 0 {
        lemma_filter_none(t.drop_last(), p);
        assert(!p(t[t.len() - 1]));
    }
}

/// Removing the identities of paragraphs `lo..hi` of distinct paragraphs
/// removes exactly those paragraphs.
proof fn lemma_without_range(t: Seq<ParaView>, lo: int, hi: int, ids: Set<u64>)
    requires
        ids_distinct(t),
        0 <= lo <= hi <= t.len(),
        ids == ids_of(t.subrange(lo, hi)),
    ensures
        without_ids(t, ids) == t.take(lo) + t.skip(hi),
{
    let p = |q: ParaView| !ids.contains(q.id);
    let a = t.take(lo);
    let m = t.subrange(lo, hi);
    let c = t.skip(hi);
    let sq = m.map_values(|q: ParaView| q.id);
    assert(t == a + m + c);
    assert forall|k: int| 0 <= k < a.len() implies p(#[trigger] a[k]) by {
        if ids.contains(a[k].id) {
            let j = choose|j: int| 0 <= j < sq.len() && sq[j] == a[k].id;
            assert(sq[j] == t[lo + j].id);
            assert(t[k].id != t[lo + j].id);
        }
    }
    assert forall|k: int| 0 <= k < c.len() implies p(#[trigger] c[k]) by {
        if ids.contains(c[k].id) {
            let j = choose|j: int| 0 <= j < sq.len() && sq[j] == c[k].id;
            assert(sq[j] == t[lo + j].id);
            assert(t[lo + j].id != t[hi + k].id);
        }
    }
    assert forall|k: int| 0 <= k < m.len() implies !p(#[trigger] m[k]) by {
        assert(sq[k] == m[k].id);
        assert(sq.contains(m[k].id));
    }
    lemma_filter_all(a, p);
    lemma_filter_all(c, p);
    lemma_filter_none(m, p);
    Seq::filter_distributes_over_add(a + m, c, p);
    Seq::filter_distributes_over_add(a, m, p);
}

pub proof fn lemma_paras_wf_splice(ps: Seq<ParaView>, lo: int, hi: int, v: ParaView, next: u64)
    requires
        paras_wf(ps, next),
        0 <= lo < hi <= ps.len(),
        v.wf(),
        v.id == ps[lo].id,
    ensures
        paras_wf(ps.take(lo) + seq![v] + ps.skip(hi), next),
{
    let t = ps.take(lo) + seq![v] + ps.skip(hi);
    assert forall|k: int| 0 <= k < t.len() implies (#[trigger] t[k]).wf() && t[k].id < next && t[k].id == (if k < lo { ps[k].id } else if k == lo { ps[lo].id } else { ps[k - lo - 1 + hi].id }) by {
        if k < lo {
            assert(t[k] == ps[k]);
        } else if k > lo {
            assert(t[k] == ps[k - lo - 1 + hi]);
        }
    }
    assert forall|a: int, b: int| 0 <= a < b < t.len() implies #[trigger] t[a].id != #[trigger] t[b].id by {
        let a2 = if a <= lo { a } else { a - lo - 1 + hi };
        let b2 = if b <= lo { b } else { b - lo - 1 + hi };
        assert(t[a].id == ps[a2].id);
        assert(t[b].id == ps[b2].id);
    }
}

/// Push `n` copies of `mark` onto `marks`.
pub(crate) fn push_marks(marks: &mut Vec<TextMark>, mark: TextMark, n: usize)
    ensures
        final(marks)@ == old(marks)@ + Seq::new(n as nat, |_i: int| mark),
{
    let mut k: usize = 0;
    while k < n
        invariant
            k <= n,
            marks@ == old(marks)@ + Seq::new(k as nat, |_i: int| mark),
        decreases n - k,
    {
        marks.push(mark);
        assert(Seq::new(k as nat + 1, |_i: int| mark) == Seq::new(k as nat, |_i: int| mark).push(mark));
        k = k + 1;
    }
}

/// Append bytes.
fn push_bytes(bytes: &mut Vec<u8>, more: &Vec<u8>)
    ensures
        final(bytes)@ == old(bytes)@ + more@,
{
    let n = more.len();
    let mut k: usize = 0;
    while k < n
        invariant
            n == more@.len(),
            k <= n,
            bytes@ == old(bytes)@ + more@.take(k as int),
        decreases n - k,
    {
        bytes.push(more[k]);
        assert(more@.take(k as int + 1) == more@.take(k as int).push(more@[k as int]));
        k = k + 1;
    }
    assert(more@.take(n as int) == more@);
}


/// The byte range of paragraph `id` that the selection from `a` to `b`
/// covers, if any.
pub open spec fn spec_selection(ps: Seq<ParaView>, id: u64, a: Position, b: Position) -> Option<(int, int)> {
    let (a, b) = spec_ordered(ps, a, b);
    let c = index_of(ps, id);
    let ia = index_of(ps, a.block);
    let ib = index_of(ps, b.block);
    if c < 0 || ia < 0 || ib < 0 || c < ia || c > ib {
        None
    } else {
        Some((
            if id == a.block { a.offset as int } else { 0 },
            if id == b.block { b.offset as int } else { ps[c].text.len() as int },
        ))
    }
}

/// Whether byte `i` of paragraph `id` lies in the selection from `a` to `b`.
pub open spec fn selects(ps: Seq<ParaView>, id: u64, a: Position, b: Position, i: int) -> bool {
    match spec_selection(ps, id, a, b) {
        Some(r) => r.0 <= i < r.1,
        None => false,
    }
}

/// Whether the selection covers a non-empty part of paragraph `id`.
pub open spec fn nonempty_sel(ps: Seq<ParaView>, id: u64, a: Position, b: Position) -> bool {
    match spec_selection(ps, id, a, b) {
        Some(r) => r.0 < r.1,
        None => false,
    }
}

/// Whether a mark has bold (or italic) on.
pub open spec fn has_flag(m: TextMark, bold: bool) -> bool {
    if bold { m.bold } else { m.italic }
}

/// A mark with bold (or italic) set to `on`.
pub open spec fn with_flag(m: TextMark, bold: bool, on: bool) -> TextMark {
    if bold {
        TextMark { bold: on, ..m }
    } else {
        TextMark { italic: on, ..m }
    }
}

/// Whether every selected byte already has the format.
pub open spec fn all_formatted(ps: Seq<ParaView>, a: Position, b: Position, bold: bool) -> bool {
    forall|k: int, i: int|
        0 <= k < ps.len() && selects(ps, ps[k].id, a, b, i) ==> has_flag(#[trigger] ps[k].marks[i], bold)
}

/// Paragraph `q` after toggling the format over the selection, turning it
/// `on`.
pub open spec fn formatted(ps: Seq<ParaView>, q: ParaView, a: Position, b: Position, bold: bool, on: bool) -> ParaView {
    match spec_selection(ps, q.id, a, b) {
        Some(r) => if r.0 < r.1 {
            ParaView {
                id: q.id,
                text: q.text,
                marks: Seq::new(q.marks.len(), |i: int| if r.0 <= i < r.1 { with_flag(q.marks[i], bold, on) } else { q.marks[i] }),
            }
        } else {
            q
        },
        None => q,
    }
}

/// Collect references to the paragraphs of `nodes`, in document order.
fn collect<'a>(nodes: &'a Vec<BlockNode>, out: &mut Vec<&'a Paragraph>)
    ensures
        final(out)@.map_values(|p: &Paragraph| p@) == old(out)@.map_values(|p: &Paragraph| p@)
            + seq_paras(nodes@),
    decreases nodes@,
{
    let n = nodes.len();
    let mut i: usize = 0;
    while i < n
        invariant
            n == nodes@.len(),
            i <= n,
            out@.map_values(|p: &Paragraph| p@) == old(out)@.map_values(|p: &Paragraph| p@)
                + seq_paras(nodes@.take(i as int)),
        decreases n - i,
    {
        let ghost before = out@.map_values(|p: &Paragraph| p@);
        proof {
            lemma_seq_paras_take(nodes@, i as int);
        }
        match &nodes[i] {
            BlockNode::Paragraph(p) => {
                out.push(p);
                assert(out@.map_values(|p: &Paragraph| p@) == before.push(p@));
            },
            BlockNode::Heading { children, .. } => {
                out.push(children);
                assert(out@.map_values(|p: &Paragraph| p@) == before.push(children@));
            },
            BlockNode::List { children, .. } => {
                assert(decreases_to!(nodes@ => nodes@[i as int]));
                collect(children, out);
            },
            BlockNode::ListItem { children, .. } => {
                assert(decreases_to!(nodes@ => nodes@[i as int]));
                collect(children, out);
            },
            BlockNode::Blockquote { children } => {
                assert(decreases_to!(nodes@ => nodes@[i as int]));
                collect(children, out);
            },
            BlockNode::Unsupported { .. } => {},
        }
        i = i + 1;
    }
    assert(nodes@.take(n as int) == nodes@);
}

/// The place of paragraph `id` among `ps`.
fn find_index(ps: &Vec<&Paragraph>, id: u64) -> (r: Option<usize>)
    ensures
        r is Some <==> index_of(ps@.map_values(|p: &Paragraph| p@), id) >= 0,
        r matches Some(i) ==> i == index_of(ps@.map_values(|p: &Paragraph| p@), id) && i < ps@.len(),
{
    let ghost s = ps@.map_values(|p: &Paragraph| p@);
    let n = ps.len();
    let mut i: usize = 0;
    proof {
        lemma_index_of(s, id);
    }
    while i < n
        invariant
            n == ps@.len(),
            s == ps@.map_values(|p: &Paragraph| p@),
            i <= n,
            forall|k: int| 0 <= k < i ==> #[trigger] s[k].id != id,
            -1 <= index_of(s, id) < s.len(),
            index_of(s, id) >= 0 ==> s[index_of(s, id)].id == id,
            forall|k: int| 0 <= k < index_of(s, id) ==> #[trigger] s[k].id != id,
            index_of(s, id) < 0 ==> forall|k: int| 0 <= k < s.len() ==> #[trigger] s[k].id != id,
        decreases n - i,
    {
        if ps[i].id == id {
            proof {
                assert(s[i as int].id == id);
                if index_of(s, id) < i as int {
                    assert(index_of(s, id) >= 0 ==> s[index_of(s, id)].id != id);
                }
            }
            return Some(i);
        }
        i = i + 1;
    }
    None
}

impl Document {
    /// Whether `new` is this document after bold (or italic) was toggled
    /// over the selection from `a` to `b`: turned off when every selected
    /// byte has it, else turned on for all of them (see `formatted`); the
    /// tree keeps its shape.
    pub open spec fn formatted_into(self, new: Document, a: Position, b: Position, bold: bool) -> bool {
        let ps = self.paras();
        &&& new.next() == self.next()
        &&& new.paras() == ps.map_values(|q: ParaView| formatted(ps, q, a, b, bold, !all_formatted(ps, a, b, bold)))
        &&& seq_shape(self.blocks(), new.blocks())
    }

    /// Whether `new` is this document after the selection from `a` to `b`
    /// was replaced by the bytes `ins`, marked `mark`: the paragraphs are
    /// `replaced_paras`; within one paragraph the tree keeps its shape, and
    /// across paragraphs the ones in between and the last go, with the
    /// containers they leave empty.
    pub open spec fn replaced_into(self, new: Document, a: Position, b: Position, ins: Seq<u8>, mark: TextMark) -> bool {
        let ps = self.paras();
        let (x, y) = spec_ordered(ps, a, b);
        let gone = ids_of(ps.subrange(index_of(ps, x.block) + 1, index_of(ps, y.block) + 1));
        &&& new.next() == self.next()
        &&& new.paras() == replaced_paras(ps, a, b, ins, mark)
        &&& x.block == y.block ==> seq_shape(self.blocks(), new.blocks())
        &&& x.block != y.block ==> exists|mid: Seq<BlockNode>| #[trigger] seq_shape(self.blocks(), mid) && seq_pruned(
            mid,
            new.blocks(),
            gone,
        )
    }

    /// Whether `new` is this document after paragraph `at.block` was split
    /// at `at`: the text after it moves to a new paragraph, with the next
    /// identity, right after it (see `seq_split` for the tree).
    pub open spec fn split_into(self, new: Document, at: Position) -> bool {
        let ps = self.paras();
        let i = index_of(ps, at.block);
        let p = ps[i];
        let head = ParaView { id: at.block, text: p.text.take(at.offset as int), marks: p.marks.take(at.offset as int) };
        let tail = ParaView { id: self.next(), text: p.text.skip(at.offset as int), marks: p.marks.skip(at.offset as int) };
        &&& new.next() == self.next() + 1
        &&& new.paras() == insert_after(ps.update(i, head), at.block, tail)
        &&& exists|mid: Seq<BlockNode>| #[trigger] seq_shape(self.blocks(), mid) && seq_split(mid, new.blocks(), at.block, tail)
    }
}

/// Whether the blocks `r` are `s` after the list item headed by paragraph
/// `id` was promoted: unchanged when no list holds such an item; out of its
/// nested list (see `seq_outdented`); or, in a list that is not nested,
/// taken out of it (see `unwrapped`).
pub open spec fn outdented(s: Seq<BlockNode>, r: Seq<BlockNode>, id: u64) -> bool {
    if !seq_has_item(s, id) {
        r == s
    } else if is_nested(s, id) {
        seq_outdented(s, r, id, false, false, None)
    } else {
        unwrapped(s, r, id)
    }
}

/// Outdenting the item headed by paragraph `id` when its list is not
/// nested in another item does what unlisting it does: the item's blocks
/// take its place, and nothing changes when no item is headed by `id`.
pub proof fn lemma_outdent_top_level_is_unlist(s: Seq<BlockNode>, r: Seq<BlockNode>, id: u64)
    requires
        !is_nested(s, id),
    ensures
        outdented(s, r, id) <==> (if seq_has_item(s, id) {
            unwrapped(s, r, id)
        } else {
            r == s
        }),
{
}

/// Whether the blocks `r` are `s` with the top-level paragraph `id`
/// wrapped in a new list of one item, numbered when `ordered`; nothing
/// changes when `id` is not a top-level paragraph.
pub open spec fn list_made(s: Seq<BlockNode>, r: Seq<BlockNode>, id: u64, ordered: bool) -> bool {
    if para_index(s, id) >= 0 {
        let ix = para_index(s, id);
        &&& r.len() == s.len()
        &&& forall|k: int| 0 <= k < s.len() && k != ix ==> #[trigger] r[k] == s[k]
        &&& wraps(r[ix], s[ix], ordered)
    } else {
        r == s
    }
}

/// Whether the blocks `r` are `s` after the list item headed by paragraph
/// `id` was made a task, done when `checked` (see `tasked`); a top-level
/// paragraph is first wrapped in a new bullet list, unless `require_list`;
/// else nothing changes.
pub open spec fn task_made(s: Seq<BlockNode>, r: Seq<BlockNode>, id: u64, checked: bool, require_list: bool) -> bool {
    if seq_has_item(s, id) {
        tasked(s, r, id, checked)
    } else if !require_list && para_index(s, id) >= 0 {
        let ix = para_index(s, id);
        &&& r.len() == s.len()
        &&& forall|k: int| 0 <= k < s.len() && k != ix ==> #[trigger] r[k] == s[k]
        &&& wraps_task(r[ix], s[ix], checked)
    } else {
        r == s
    }
}

/// Whether the blocks `r` are `s` after a bullet list was toggled on
/// paragraph `id`: the item it heads is taken out of its list; else the
/// top-level paragraph is wrapped in a new bullet list (see `list_made`).
pub open spec fn list_toggled(s: Seq<BlockNode>, r: Seq<BlockNode>, id: u64) -> bool {
    if seq_has_item(s, id) {
        unwrapped(s, r, id)
    } else {
        list_made(s, r, id, false)
    }
}

/// The blocks `bs` with the top-level block holding paragraph `id` moved
/// one place down (or up); nothing moves past either end.
pub open spec fn moved_blocks(bs: Seq<BlockNode>, id: u64, down: bool) -> Seq<BlockNode> {
    let ix = top_index(bs, id);
    let other = if down { ix + 1 } else if ix > 0 { ix - 1 } else { 0 };
    if ix >= 0 && other < bs.len() {
        bs.update(ix, bs[other]).update(other, bs[ix])
    } else {
        bs
    }
}

impl Document {
    /// The blocks of the document.
    pub closed spec fn blocks(self) -> Seq<BlockNode> {
        self.blocks@
    }

    /// The next identity the document hands out.
    pub closed spec fn next(self) -> u64 {
        self.next_id
    }

    /// The editable paragraphs, in document order.
    pub open spec fn paras(self) -> Seq<ParaView> {
        seq_paras(self.blocks())
    }

    /// A document has at least one paragraph, every paragraph is well
    /// formed, identities are distinct and below the next one handed out.
    pub open spec fn wf(self) -> bool {
        &&& self.paras().len() > 0
        &&& ids_distinct(self.paras())
        &&& forall|i: int| 0 <= i < self.paras().len() ==> (#[trigger] self.paras()[i]).wf()
        &&& forall|i: int| 0 <= i < self.paras().len() ==> (#[trigger] self.paras()[i]).id < self.next()
        &&& forall|i: int| 0 <= i < self.paras().len() ==> 0 < (#[trigger] self.paras()[i]).id
    }

    /// The place of a position's paragraph, or -1.
    pub open spec fn index(self, id: u64) -> int {
        index_of(self.paras(), id)
    }

    /// A position names a paragraph of the document and a character
    /// boundary of its text.
    pub open spec fn valid_pos(self, p: Position) -> bool {
        &&& self.index(p.block) >= 0
        &&& p.offset <= self.paras()[self.index(p.block)].text.len()
        &&& is_char_boundary(self.paras()[self.index(p.block)].text, p.offset as int)
    }

    /// A document made of `blocks`, handing out identities from `next_id`.
    pub fn from_blocks(blocks: Vec<BlockNode>, next_id: u64) -> (r: Document)
        ensures
            r.blocks() == blocks@,
            r.next() == next_id,
    {
        Document { blocks, next_id }
    }

    /// The next identity the document hands out.
    pub fn next_id(&self) -> (r: u64)
        ensures
            r == self.next(),
    {
        self.next_id
    }

    /// The blocks of the document.
    pub fn block_nodes(&self) -> (r: &Vec<BlockNode>)
        ensures
            r@ == self.blocks(),
    {
        &self.blocks
    }

    /// The editable paragraphs, in document order.
    pub fn paragraphs(&self) -> (r: Vec<&Paragraph>)
        ensures
            r@.map_values(|p: &Paragraph| p@) == self.paras(),
    {
        let mut r: Vec<&Paragraph> = Vec::new();
        assert(r@.map_values(|p: &Paragraph| p@) == Seq::<ParaView>::empty());
        collect(&self.blocks, &mut r);
        r
    }

    /// The text of paragraph `id`; empty when there is none.
    pub fn text(&self, id: u64) -> (r: String)
        requires
            self.wf(),
        ensures
            self.index(id) >= 0 ==> r@ == decode_utf8(self.paras()[self.index(id)].text),
            self.index(id) < 0 ==> r@ == Seq::<char>::empty(),
    {
        let ps = self.paragraphs();
        match find_index(&ps, id) {
            Some(i) => {
                assert(ps@.map_values(|p: &Paragraph| p@)[i as int] == ps@[i as int]@);
                ps[i].text()
            },
            None => String::new(),
        }
    }

    /// The start of the first paragraph.
    pub fn first(&self) -> (r: Position)
        requires
            self.wf(),
        ensures
            r == (Position { block: self.paras()[0].id, offset: 0 }),
    {
        let ps = self.paragraphs();
        assert(ps@.map_values(|p: &Paragraph| p@)[0] == ps@[0]@);
        Position { block: ps[0].id, offset: 0 }
    }

    /// The end of the last paragraph.
    pub fn last(&self) -> (r: Position)
        requires
            self.wf(),
        ensures
            r == (Position {
                block: self.paras().last().id,
                offset: self.paras().last().text.len() as usize,
            }),
    {
        let ps = self.paragraphs();
        let n = ps.len();
        assert(ps@.map_values(|p: &Paragraph| p@)[n - 1] == ps@[n - 1]@);
        Position { block: ps[n - 1].id, offset: ps[n - 1].text.len() }
    }

    /// Two positions in document order.
    pub fn ordered(&self, a: Position, b: Position) -> (r: (Position, Position))
        ensures
            r == spec_ordered(self.paras(), a, b),
    {
        let ps = self.paragraphs();
        let ka = match find_index(&ps, a.block) {
            Some(i) => i,
            None => 0,
        };
        let kb = match find_index(&ps, b.block) {
            Some(i) => i,
            None => 0,
        };
        if ka < kb || (ka == kb && a.offset <= b.offset) {
            (a, b)
        } else {
            (b, a)
        }
    }


    /// A new paragraph of the given content, with the next identity.
    fn new_paragraph(&mut self, text: Vec<u8>, marks: Vec<TextMark>) -> (r: Paragraph)
        requires
            old(self).next() < u64::MAX,
        ensures
            r@ == (ParaView { id: old(self).next(), text: text@, marks: marks@ }),
            final(self).next() == old(self).next() + 1,
            final(self).blocks() == old(self).blocks(),
    {
        let id = self.next_id;
        self.next_id = self.next_id + 1;
        Paragraph { id, text, marks }
    }

    /// Make sure the document has a paragraph to edit: an empty one is
    /// added at the end when it has none. Identities are handed out from
    /// one on: no paragraph has identity zero.
    pub fn ensure_paragraph(&mut self)
        requires
            0 < old(self).next() < u64::MAX,
            paras_wf(old(self).paras(), old(self).next()),
        ensures
            final(self).wf(),
            old(self).paras().len() > 0 ==> *final(self) == *old(self),
            old(self).paras().len() == 0 ==> final(self).blocks() == old(self).blocks().push(
                final(self).blocks().last(),
            ) && final(self).paras() == seq![ParaView { id: old(self).next(), text: Seq::empty(), marks: Seq::empty() }]
                && final(self).next() == old(self).next() + 1
                && node_form(final(self).blocks().last()) == BlockForm::Paragraph(
                ParaView { id: 0, text: Seq::empty(), marks: Seq::empty() },
            ),
    {
        let ps = self.paragraphs();
        if ps.len() == 0 {
            let p = self.new_paragraph(Vec::new(), Vec::new());
            let ghost old_blocks = self.blocks@;
            self.blocks.push(BlockNode::Paragraph(p));
            proof {
                lemma_seq_paras_push(old_blocks, BlockNode::Paragraph(p));
                assert(valid_utf8(Seq::<u8>::empty()));
            }
        }
    }

    /// The mark that typing at `at` inherits: the combination of the marks
    /// of the grapheme before it.
    pub fn mark_at(&self, at: Position) -> (r: TextMark)
        requires
            self.wf(),
        ensures
            r == spec_mark_at(self.paras(), at),
    {
        let mut mark = TextMark::plain();
        if at.offset > 0 {
            let ps = self.paragraphs();
            if let Some(i) = find_index(&ps, at.block) {
                let p = ps[i];
                assert(ps@.map_values(|p: &Paragraph| p@)[i as int] == ps@[i as int]@);
                let s = p.text();
                let starts = grapheme_starts_of(s.as_str());
                let lo = previous_boundary_in(&starts, at.offset);
                let hi = if at.offset < p.text.len() { at.offset } else { p.text.len() };
                let mut k = lo;
                proof {
                    lemma_previous_in_range(starts@, at.offset as int, encode_utf8(s@));
                    decode_utf8_encode_utf8(p.text@);
                    assert(encode_utf8(s@) == p.text@);
                }
                assert(mark == merge_marks(p.marks@, lo as int, lo as int));
                while k < hi
                    invariant
                        lo <= k <= hi,
                        hi <= p.marks@.len(),
                        mark == merge_marks(p.marks@, lo as int, k as int),
                    decreases hi - k,
                {
                    mark.merge(p.marks[k]);
                    k = k + 1;
                }
            }
        }
        mark
    }


    /// Replace the text from `a` to `b` (in either order) with `text`, typed
    /// with `stored` or else the mark at the start. A selection across
    /// paragraphs joins them into the first, which keeps its identity.
    /// Returns the position after the inserted text.
    pub fn replace(&mut self, a: Position, b: Position, text: &str, stored: Option<&TextMark>) -> (r: Position)
        requires
            old(self).wf(),
            old(self).valid_pos(a),
            old(self).valid_pos(b),
        ensures
            final(self).wf(),
            old(self).replaced_into(*final(self), a, b, encode_utf8(text@), typed_mark(old(self).paras(), a, b, stored)),
            r == replaced_pos(old(self).paras(), a, b, encode_utf8(text@)),
            r.offset == spec_ordered(old(self).paras(), a, b).0.offset + encode_utf8(text@).len(),
            final(self).valid_pos(r),
    {
        let ghost ps0 = self.paras();
        let ghost blocks0 = self.blocks@;
        let (a, b) = self.ordered(a, b);
        let ps = self.paragraphs();
        let ghost pv = ps@.map_values(|p: &Paragraph| p@);
        let ia = match find_index(&ps, a.block) {
            Some(i) => i,
            None => { proof { assert(false); } 0 },
        };
        let ib = match find_index(&ps, b.block) {
            Some(i) => i,
            None => { proof { assert(false); } 0 },
        };
        let mark = match stored {
            Some(m) => *m,
            None => self.mark_at(a),
        };
        let ins = str_bytes(text);
        let pa = ps[ia];
        let pb = ps[ib];
        assert(pv[ia as int] == pa@);
        assert(pv[ib as int] == pb@);
        proof {
            lemma_index_of(pv, a.block);
            lemma_index_of(pv, b.block);
        }
        let (mut nt, mut nm) = slice_para(pa, 0, a.offset);
        push_bytes(&mut nt, &ins);
        push_marks(&mut nm, mark, ins.len());
        let offset = nt.len();
        let (tt, tm) = slice_para(pb, b.offset, pb.text.len());
        push_bytes(&mut nt, &tt);
        let mut tm = tm;
        nm.append(&mut tm);
        broadcast use vstd::std_specs::hash::group_hash_axioms;
        let mut remove: HashSet<u64> = HashSet::new();
        proof {
            assert(ids_of(pv.subrange(ia + 1, ia + 1)) =~= Set::<u64>::empty());
        }
        let n = ps.len();
        let mut k = ia + 1;
        while k <= ib
            invariant
                ia < k <= ib + 1,
                ib < n,
                n == ps@.len(),
                pv == ps@.map_values(|p: &Paragraph| p@),
                remove@ == ids_of(pv.subrange(ia + 1, k as int)),
            decreases ib + 1 - k,
        {
            remove.insert(ps[k].id);
            assert(pv[k as int] == ps@[k as int]@);
            proof {
                let f = |q: ParaView| q.id;
                let before = pv.subrange(ia + 1, k as int).map_values(f);
                let after = pv.subrange(ia + 1, k + 1).map_values(f);
                assert(after == before.push(pv[k as int].id));
                assert(after.to_set() =~= before.to_set().insert(pv[k as int].id)) by {
                    assert forall|x: u64| after.contains(x) <==> before.contains(x) || x == pv[k as int].id by {
                        if after.contains(x) {
                            let j = choose|j: int| 0 <= j < after.len() && after[j] == x;
                            if j < before.len() {
                                assert(before[j] == x);
                            }
                        }
                        if before.contains(x) {
                            let j = choose|j: int| 0 <= j < before.len() && before[j] == x;
                            assert(after[j] == x);
                        }
                        if x == pv[k as int].id {
                            assert(after[before.len() as int] == x);
                        }
                    }
                }
            }
            k = k + 1;
        }
        let ghost new_view = ParaView { id: a.block, text: nt@, marks: nm@ };
        proof {
            let ta = pa@.text;
            let tb = pb@.text;
            lemma_valid_cut(ta, 0, a.offset as int);
            is_char_boundary_start_end_of_seq(tb);
            lemma_valid_cut(tb, b.offset as int, tb.len() as int);
            assert(ta.subrange(0, a.offset as int) == ta.take(a.offset as int));
            assert(tb.subrange(b.offset as int, tb.len() as int) == tb.skip(b.offset as int));
            valid_utf8_concat(ta.take(a.offset as int), ins@);
            valid_utf8_concat(ta.take(a.offset as int) + ins@, tb.skip(b.offset as int));
            assert(nt@ == ta.take(a.offset as int) + ins@ + tb.skip(b.offset as int));
            assert(pa@.marks.subrange(0, a.offset as int) == pa@.marks.take(a.offset as int));
            assert(pb@.marks.subrange(b.offset as int, tb.len() as int) == pb@.marks.skip(b.offset as int));
            assert(new_view.wf());
            lemma_map_content(pv, a.block, nt@, nm@);
            lemma_paras_wf_update(pv, ia as int, new_view, self.next_id);
        }
        let blocks = take_blocks(&mut self.blocks);
        let blocks = set_content(blocks, a.block, &nt, &nm);
        let ghost mid = pv.update(ia as int, new_view);
        let ghost mid_blocks = blocks@;
        assert(seq_paras(blocks@) == mid);
        let blocks = if ia != ib {
            let pruned = prune(blocks, &remove);
            assert(seq_shape(blocks0, mid_blocks) && seq_pruned(mid_blocks, pruned@, remove@));
            proof {
                assert(mid.subrange(ia + 1, ib + 1) == pv.subrange(ia + 1, ib + 1));
                lemma_without_range(mid, ia + 1, ib + 1, remove@);
                assert(mid.take(ia + 1) == pv.take(ia as int) + seq![new_view]);
                assert(mid.skip(ib + 1) == pv.skip(ib + 1));
            }
            pruned
        } else {
            proof {
                assert(mid == pv.take(ia as int) + seq![new_view] + pv.skip(ib + 1));
            }
            blocks
        };
        self.blocks = blocks;
        proof {
            lemma_paras_wf_splice(pv, ia as int, ib + 1, new_view, self.next_id);
            let np = self.paras();
            assert(np == pv.take(ia as int) + seq![new_view] + pv.skip(ib + 1));
            assert(np[ia as int] == new_view);
            let ta = pa@.text;
            let tb = pb@.text;
            assert(ta.take(a.offset as int).len() == a.offset);
            lemma_join_pos(np, ia as int, ta.take(a.offset as int), ins@, tb, b.offset as int);
        }
        Position { block: a.block, offset }
    }

    /// Split paragraph `at.block` at `at`: the text after it moves to a new
    /// paragraph right after it, which is returned the start of. In a list
    /// item the new paragraph starts a new item holding the item's nested
    /// blocks (an unchecked task when the item is a task).
    pub fn split(&mut self, at: Position) -> (r: Position)
        requires
            old(self).wf(),
            old(self).valid_pos(at),
            old(self).next() < u64::MAX,
        ensures
            final(self).wf(),
            old(self).split_into(*final(self), at),
            r == (Position { block: old(self).next(), offset: 0 }),
            final(self).valid_pos(r),
            final(self).valid_pos(at),
    {
        let ghost blocks0 = self.blocks@;
        let ps = self.paragraphs();
        let ghost pv = ps@.map_values(|p: &Paragraph| p@);
        let i = match find_index(&ps, at.block) {
            Some(i) => i,
            None => { proof { assert(false); } 0 },
        };
        let p = ps[i];
        assert(pv[i as int] == p@);
        proof {
            lemma_index_of(pv, at.block);
        }
        let (ht, hm) = slice_para(p, 0, at.offset);
        let (tt, tm) = slice_para(p, at.offset, p.text.len());
        proof {
            let t = p@.text;
            lemma_valid_cut(t, 0, at.offset as int);
            is_char_boundary_start_end_of_seq(t);
            lemma_valid_cut(t, at.offset as int, t.len() as int);
            assert(t.subrange(0, at.offset as int) == t.take(at.offset as int));
            assert(t.subrange(at.offset as int, t.len() as int) == t.skip(at.offset as int));
            assert(p@.marks.subrange(0, at.offset as int) == p@.marks.take(at.offset as int));
            assert(p@.marks.subrange(at.offset as int, t.len() as int) == p@.marks.skip(at.offset as int));
        }
        let old_next = self.next_id;
        let new_p = self.new_paragraph(tt, tm);
        let ghost head = ParaView { id: at.block, text: ht@, marks: hm@ };
        proof {
            lemma_map_content(pv, at.block, ht@, hm@);
            lemma_paras_wf_update(pv, i as int, head, old_next);
        }
        let blocks = take_blocks(&mut self.blocks);
        let blocks = set_content(blocks, at.block, &ht, &hm);
        let ghost mid = pv.update(i as int, head);
        proof {
            lemma_index_of_distinct(mid, i as int);
            lemma_paras_wf_insert(mid, at.block, new_p@, old_next);
        }
        let ghost mid_blocks = blocks@;
        let (blocks, back) = insert_split(blocks, at.block, new_p);
        assert(seq_shape(blocks0, mid_blocks) && seq_split(mid_blocks, blocks@, at.block, new_p@));
        self.blocks = blocks;
        proof {
            let np = self.paras();
            lemma_insert_after_shape(mid, at.block, new_p@);
            lemma_index_of_distinct(mid, i as int);
            assert(np[i + 1] == new_p@);
            assert(np[i as int] == head);
            lemma_index_of_distinct(np, i + 1);
            lemma_index_of_distinct(np, i as int);
            assert(is_char_boundary(np[i + 1].text, 0));
            assert(head.text.len() == at.offset);
            is_char_boundary_start_end_of_seq(head.text);
        }
        Position { block: old_next, offset: 0 }
    }


    /// Toggle bold (or italic) over the selection from `a` to `b`: it is
    /// turned off when every selected byte has it, else turned on for all.
    pub fn format(&mut self, a: Position, b: Position, bold: bool)
        requires
            old(self).wf(),
            old(self).valid_pos(a),
            old(self).valid_pos(b),
        ensures
            final(self).wf(),
            old(self).formatted_into(*final(self), a, b, bold),
    {
        let ps = self.paragraphs();
        let ghost pv = ps@.map_values(|p: &Paragraph| p@);
        let n = ps.len();
        // The selected range of each paragraph, and whether all of it has the format.
        let mut ranges: Vec<(usize, usize, usize)> = Vec::new();
        let mut all = true;
        let mut k: usize = 0;
        while k < n
            invariant
                n == ps@.len(),
                pv == ps@.map_values(|p: &Paragraph| p@),
                pv == self.paras(),
                self.wf(),
                self.valid_pos(a),
                self.valid_pos(b),
                k <= n,
                forall|j: int| 0 <= j < ranges@.len() ==> {
                    let (c, s0, e0) = #[trigger] ranges@[j];
                    &&& c < k
                    &&& spec_selection(pv, pv[c as int].id, a, b) == Some((s0 as int, e0 as int))
                    &&& s0 < e0 <= pv[c as int].text.len()
                },
                forall|j1: int, j2: int| 0 <= j1 < j2 < ranges@.len() ==> (#[trigger] ranges@[j1]).0 < (#[trigger] ranges@[j2]).0,
                forall|c: int| 0 <= c < k && nonempty_sel(pv, pv[c].id, a, b) ==> exists|j: int| 0 <= j < ranges@.len() && (#[trigger] ranges@[j]).0 == c,
                all == (forall|c: int, i: int| 0 <= c < k && selects(pv, pv[c].id, a, b, i) ==> has_flag(#[trigger] pv[c].marks[i], bold)),
            decreases n - k,
        {
            let p = ps[k];
            assert(pv[k as int] == p@);
            let sel = self.selection_in(p.id, a, b);
            proof {
                lemma_index_of_distinct(pv, k as int);
                lemma_index_of(pv, a.block);
                lemma_index_of(pv, b.block);
            }
            if let Some(r) = sel {
                if r.start < r.end {
                    let mut i = r.start;
                    let ghost all_before = all;
                    while i < r.end
                        invariant
                            r.start <= i <= r.end,
                            r.end <= p.marks@.len(),
                            all == (all_before && forall|t: int| r.start <= t < i ==> has_flag(#[trigger] p.marks@[t], bold)),
                        decreases r.end - i,
                    {
                        let m = p.marks[i];
                        let f = if bold { m.bold } else { m.italic };
                        if !f {
                            all = false;
                        }
                        i = i + 1;
                    }
                    let ghost before = ranges@;
                    ranges.push((k, r.start, r.end));
                    proof {
                        assert forall|c: int| 0 <= c < k + 1 && nonempty_sel(pv, pv[c].id, a, b) implies exists|j: int| 0 <= j < ranges@.len() && (#[trigger] ranges@[j]).0 == c by {
                            if c < k {
                                let j = choose|j: int| 0 <= j < before.len() && (#[trigger] before[j]).0 == c;
                                assert(ranges@[j] == before[j]);
                            } else {
                                assert(ranges@[ranges@.len() - 1].0 == c);
                            }
                        }
                    }
                }
            }
            proof {
                assert(all == (forall|c: int, i: int| 0 <= c < k + 1 && selects(pv, pv[c].id, a, b, i) ==> has_flag(#[trigger] pv[c].marks[i], bold)));
            }
            k = k + 1;
        }
        let on = !all;
        proof {
            assert(all == all_formatted(pv, a, b, bold));
        }
        // The new marks of each selected paragraph.
        let mut updates: Vec<(u64, Vec<u8>, Vec<TextMark>)> = Vec::new();
        let m = ranges.len();
        let mut j: usize = 0;
        while j < m
            invariant
                m == ranges@.len(),
                n == ps@.len(),
                pv == ps@.map_values(|p: &Paragraph| p@),
                j <= m,
                updates@.len() == j,
                forall|t: int| 0 <= t < ranges@.len() ==> {
                    let (c, s0, e0) = #[trigger] ranges@[t];
                    &&& c < n
                    &&& spec_selection(pv, pv[c as int].id, a, b) == Some((s0 as int, e0 as int))
                    &&& s0 < e0 <= pv[c as int].text.len()
                },
                forall|t: int| 0 <= t < j ==> {
                    let u = #[trigger] updates@[t];
                    let c = ranges@[t].0 as int;
                    &&& u.0 == pv[c].id
                    &&& ParaView { id: u.0, text: u.1@, marks: u.2@ } == formatted(pv, pv[c], a, b, bold, on)
                },
            decreases m - j,
        {
            let (c, s0, e0) = ranges[j];
            let p = ps[c];
            assert(pv[c as int] == p@);
            let text = p.text.clone();
            assert(text@ == p.text@);
            let mut marks: Vec<TextMark> = Vec::new();
            let len = p.marks.len();
            let mut i: usize = 0;
            while i < len
                invariant
                    len == p.marks@.len(),
                    i <= len,
                    marks@ == Seq::new(i as nat, |t: int| if s0 <= t < e0 { with_flag(p.marks@[t], bold, on) } else { p.marks@[t] }),
                decreases len - i,
            {
                let mk = p.marks[i];
                let nm = if s0 <= i && i < e0 {
                    if bold { TextMark { bold: on, ..mk } } else { TextMark { italic: on, ..mk } }
                } else {
                    mk
                };
                marks.push(nm);
                assert(marks@ =~= Seq::new(i as nat + 1, |t: int| if s0 <= t < e0 { with_flag(p.marks@[t], bold, on) } else { p.marks@[t] }));
                i = i + 1;
            }
            updates.push((p.id, text, marks));
            proof {
                let u = updates@[j as int];
                assert(ParaView { id: u.0, text: u.1@, marks: u.2@ } =~= formatted(pv, pv[c as int], a, b, bold, on));
            }
            j = j + 1;
        }
        let ghost goal = pv.map_values(|q: ParaView| formatted(pv, q, a, b, bold, on));
        let mut blocks = take_blocks(&mut self.blocks);
        let ghost start = blocks@;
        proof {
            lemma_seq_shape_refl(start);
        }
        let mut t: usize = 0;
        while t < m
            invariant
                m == ranges@.len(),
                m == updates@.len(),
                t <= m,
                ids_distinct(pv),
                forall|x: int| 0 <= x < ranges@.len() ==> {
                    let (c, s0, e0) = #[trigger] ranges@[x];
                    &&& c < pv.len()
                    &&& spec_selection(pv, pv[c as int].id, a, b) == Some((s0 as int, e0 as int))
                    &&& s0 < e0
                },
                forall|j1: int, j2: int| 0 <= j1 < j2 < ranges@.len() ==> (#[trigger] ranges@[j1]).0 < (#[trigger] ranges@[j2]).0,
                forall|x: int| 0 <= x < m ==> {
                    let u = #[trigger] updates@[x];
                    let c = ranges@[x].0 as int;
                    &&& u.0 == pv[c].id
                    &&& ParaView { id: u.0, text: u.1@, marks: u.2@ } == formatted(pv, pv[c], a, b, bold, on)
                },
                seq_paras(blocks@).len() == pv.len(),
                forall|c: int| 0 <= c < pv.len() ==> #[trigger] seq_paras(blocks@)[c] == (if exists|x: int| 0 <= x < t && (#[trigger] ranges@[x]).0 == c {
                    formatted(pv, pv[c], a, b, bold, on)
                } else {
                    pv[c]
                }),
                seq_shape(start, blocks@),
            decreases m - t,
        {
            let ghost before = seq_paras(blocks@);
            let ghost before_blocks = blocks@;
            let id = updates[t].0;
            blocks = set_content(blocks, id, &updates[t].1, &updates[t].2);
            proof {
                lemma_seq_shape_trans(start, before_blocks, blocks@);
                let c = ranges@[t as int].0 as int;
                assert forall|c2: int| 0 <= c2 < pv.len() implies #[trigger] seq_paras(blocks@)[c2] == (if exists|x: int| 0 <= x < t + 1 && (#[trigger] ranges@[x]).0 == c2 {
                    formatted(pv, pv[c2], a, b, bold, on)
                } else {
                    pv[c2]
                }) by {
                    assert(seq_paras(blocks@)[c2] == with_content(before[c2], id, updates@[t as int].1@, updates@[t as int].2@));
                    if c2 == c {
                        assert(ranges@[t as int].0 == c2);
                    } else {
                        assert(pv[c2].id != pv[c].id);
                        assert(before[c2].id == pv[c2].id) by {
                            if exists|x: int| 0 <= x < t && (#[trigger] ranges@[x]).0 == c2 {
                            }
                        }
                        if exists|x: int| 0 <= x < t + 1 && (#[trigger] ranges@[x]).0 == c2 {
                            let x = choose|x: int| 0 <= x < t + 1 && (#[trigger] ranges@[x]).0 == c2;
                            assert(x < t);
                        }
                    }
                }
            }
            t = t + 1;
        }
        proof {
            assert forall|c: int| 0 <= c < pv.len() implies #[trigger] seq_paras(blocks@)[c] == goal[c] by {
                if !(exists|x: int| 0 <= x < m && (#[trigger] ranges@[x]).0 == c) {
                    match spec_selection(pv, pv[c].id, a, b) {
                        Some(r) => {
                            if r.0 < r.1 {
                                assert(exists|x: int| 0 <= x < ranges@.len() && (#[trigger] ranges@[x]).0 == c);
                            }
                        },
                        None => {},
                    }
                }
            }
            assert(seq_paras(blocks@) =~= goal);
            assert forall|c: int| 0 <= c < goal.len() implies (#[trigger] goal[c]).wf() && goal[c].id == pv[c].id by {}
            assert forall|x: int, y: int| 0 <= x < y < goal.len() implies #[trigger] goal[x].id != #[trigger] goal[y].id by {
                assert(pv[x].id != pv[y].id);
            }
        }
        self.blocks = blocks;
    }

    /// The part of paragraph `id` that the selection from `a` to `b` covers,
    /// if it covers any of it.
    pub fn selection_in(&self, id: u64, a: Position, b: Position) -> (r: Option<Range<usize>>)
        ensures
            ({
                let (a, b) = spec_ordered(self.paras(), a, b);
                let ps = self.paras();
                let c = index_of(ps, id);
                let ia = index_of(ps, a.block);
                let ib = index_of(ps, b.block);
                if c < 0 || ia < 0 || ib < 0 || c < ia || c > ib {
                    r is None
                } else {
                    r matches Some(range) && range.start == (if id == a.block {
                        a.offset as int
                    } else {
                        0
                    }) && range.end == (if id == b.block {
                        b.offset as int
                    } else {
                        ps[c].text.len() as int
                    })
                }
            }),
    {
        let (a, b) = self.ordered(a, b);
        let ps = self.paragraphs();
        let current = match find_index(&ps, id) {
            Some(i) => i,
            None => {
                return None;
            },
        };
        let ia = match find_index(&ps, a.block) {
            Some(i) => i,
            None => {
                return None;
            },
        };
        let ib = match find_index(&ps, b.block) {
            Some(i) => i,
            None => {
                return None;
            },
        };
        if current < ia || current > ib {
            return None;
        }
        let start = if id == a.block {
            a.offset
        } else {
            0
        };
        assert(ps@.map_values(|p: &Paragraph| p@)[current as int] == ps@[current as int]@);
        let end = if id == b.block {
            b.offset
        } else {
            ps[current].text.len()
        };
        Some(Range { start, end })
    }
}


/// Where paragraph `i` of `pre + y + x + post` sits in `pre + x + y + post`.
pub open spec fn swapped_index(la: int, lx: int, ly: int, i: int) -> int {
    if i < la {
        i
    } else if i < la + ly {
        i + lx
    } else if i < la + ly + lx {
        i - ly
    } else {
        i
    }
}

/// Exchanging two neighbouring runs of paragraphs keeps them well formed.
pub proof fn lemma_paras_wf_swap(pre: Seq<ParaView>, x: Seq<ParaView>, y: Seq<ParaView>, post: Seq<ParaView>, next: u64)
    requires
        paras_wf(pre + x + y + post, next),
    ensures
        paras_wf(pre + y + x + post, next),
{
    let s = pre + x + y + post;
    let r = pre + y + x + post;
    let la = pre.len() as int;
    let lx = x.len() as int;
    let ly = y.len() as int;
    assert forall|i: int| 0 <= i < r.len() implies #[trigger] r[i] == s[swapped_index(la, lx, ly, i)] && 0 <= swapped_index(la, lx, ly, i) < s.len() by {
        if i < la {
            assert(r[i] == pre[i] && s[i] == pre[i]);
        } else if i < la + ly {
            assert(r[i] == y[i - la] && s[i + lx] == y[i - la]);
        } else if i < la + ly + lx {
            assert(r[i] == x[i - la - ly] && s[i - ly] == x[i - la - ly]);
        } else {
            assert(r[i] == post[i - la - ly - lx] && s[i] == post[i - la - ly - lx]);
        }
    }
    assert forall|i: int, j: int| 0 <= i < j < r.len() implies #[trigger] r[i].id != #[trigger] r[j].id by {
        let fi = swapped_index(la, lx, ly, i);
        let fj = swapped_index(la, lx, ly, j);
        assert(r[i] == s[fi] && r[j] == s[fj]);
        assert(fi != fj);
        if fi < fj {
            assert(s[fi].id != s[fj].id);
        } else {
            assert(s[fj].id != s[fi].id);
        }
    }
    assert forall|i: int| 0 <= i < r.len() implies (#[trigger] r[i]).wf() && r[i].id < next by {
        assert(r[i] == s[swapped_index(la, lx, ly, i)]);
    }
}

/// Moving a run of paragraphs past its neighbour keeps them well formed.
pub proof fn lemma_swapped_wf(old: Seq<ParaView>, new: Seq<ParaView>, id: u64, next: u64)
    requires
        swapped(old, new, id),
        paras_wf(old, next),
    ensures
        paras_wf(new, next),
        new.len() == old.len(),
{
    let (pre, x, y, post) = choose|pre: Seq<ParaView>, x: Seq<ParaView>, y: Seq<ParaView>, post: Seq<ParaView>|
        old == pre + y + x + post && new == pre + x + y + post && y.len() > 0 && y[0].id == id;
    lemma_paras_wf_swap(pre, y, x, post, next);
}

/// Exchanging two neighbouring blocks keeps the paragraphs well formed.
proof fn lemma_swap_blocks(bs: Seq<BlockNode>, l: int, next: u64)
    requires
        paras_wf(seq_paras(bs), next),
        0 <= l && l + 1 < bs.len(),
    ensures
        paras_wf(seq_paras(bs.update(l, bs[l + 1]).update(l + 1, bs[l])), next),
        seq_paras(bs.update(l, bs[l + 1]).update(l + 1, bs[l])).len() == seq_paras(bs).len(),
        forall|block: u64| #[trigger] index_of(seq_paras(bs), block) >= 0 ==> {
            let new = seq_paras(bs.update(l, bs[l + 1]).update(l + 1, bs[l]));
            &&& index_of(new, block) >= 0
            &&& new[index_of(new, block)] == seq_paras(bs)[index_of(seq_paras(bs), block)]
        },
{
    let pre = bs.take(l);
    let post = bs.skip(l + 2);
    assert(bs == pre + seq![bs[l]] + seq![bs[l + 1]] + post);
    let sw = bs.update(l, bs[l + 1]).update(l + 1, bs[l]);
    assert(sw == pre + seq![bs[l + 1]] + seq![bs[l]] + post);
    lemma_seq_paras_add(pre + seq![bs[l]] + seq![bs[l + 1]], post);
    lemma_seq_paras_add(pre + seq![bs[l]], seq![bs[l + 1]]);
    lemma_seq_paras_add(pre, seq![bs[l]]);
    lemma_seq_paras_add(pre + seq![bs[l + 1]] + seq![bs[l]], post);
    lemma_seq_paras_add(pre + seq![bs[l + 1]], seq![bs[l]]);
    lemma_seq_paras_add(pre, seq![bs[l + 1]]);
    lemma_seq_paras_one(bs[l]);
    lemma_seq_paras_one(bs[l + 1]);
    lemma_paras_wf_swap(seq_paras(pre), node_paras(bs[l]), node_paras(bs[l + 1]), seq_paras(post), next);
    assert forall|block: u64| #[trigger] index_of(seq_paras(bs), block) >= 0 implies {
        let new = seq_paras(bs.update(l, bs[l + 1]).update(l + 1, bs[l]));
        &&& index_of(new, block) >= 0
        &&& new[index_of(new, block)] == seq_paras(bs)[index_of(seq_paras(bs), block)]
    } by {
        lemma_exchange_find(seq_paras(pre), node_paras(bs[l + 1]), node_paras(bs[l]), seq_paras(post), block);
    }
}

/// The first top-level block holding paragraph `id`, or -1.
pub open spec fn top_index(blocks: Seq<BlockNode>, id: u64) -> int
    decreases blocks.len(),
{
    if blocks.len() == 0 {
        -1
    } else {
        let r = top_index(blocks.drop_last(), id);
        if r >= 0 {
            r
        } else if index_of(node_paras(blocks.last()), id) >= 0 {
            blocks.len() - 1
        } else {
            -1
        }
    }
}

proof fn lemma_top_index(blocks: Seq<BlockNode>, id: u64)
    ensures
        -1 <= top_index(blocks, id) < blocks.len(),
        top_index(blocks, id) >= 0 ==> index_of(node_paras(blocks[top_index(blocks, id)]), id) >= 0,
        forall|k: int| 0 <= k < top_index(blocks, id) ==> index_of(node_paras(#[trigger] blocks[k]), id) < 0,
        top_index(blocks, id) < 0 ==> forall|k: int| 0 <= k < blocks.len() ==> index_of(node_paras(#[trigger] blocks[k]), id) < 0,
    decreases blocks.len(),
{
    if blocks.len() > 0 {
        let d = blocks.drop_last();
        lemma_top_index(d, id);
        assert forall|k: int| 0 <= k < blocks.len() - 1 implies blocks[k] == #[trigger] d[k] by {}
        assert forall|k: int| 0 <= k < top_index(blocks, id) implies index_of(node_paras(#[trigger] blocks[k]), id) < 0 by {
            assert(blocks[k] == d[k]);
        }
        if top_index(blocks, id) < 0 {
            assert forall|k: int| 0 <= k < blocks.len() implies index_of(node_paras(#[trigger] blocks[k]), id) < 0 by {
                if k < blocks.len() - 1 {
                    assert(blocks[k] == d[k]);
                }
            }
        }
    }
}

/// Whether block `n` holds paragraph `id`.
fn node_holds(n: &BlockNode, id: u64) -> (r: bool)
    ensures
        r == (index_of(node_paras(*n), id) >= 0),
{
    let mut ps: Vec<&Paragraph> = Vec::new();
    match n {
        BlockNode::Paragraph(p) => {
            proof {
                reveal_with_fuel(index_of, 2);
            }
            return p.id == id;
        },
        BlockNode::Heading { children, .. } => {
            proof {
                reveal_with_fuel(index_of, 2);
            }
            return children.id == id;
        },
        BlockNode::List { children, .. } => collect(children, &mut ps),
        BlockNode::ListItem { children, .. } => collect(children, &mut ps),
        BlockNode::Blockquote { children } => collect(children, &mut ps),
        BlockNode::Unsupported { .. } => {
            return false;
        },
    }
    assert(ps@.map_values(|p: &Paragraph| p@) =~= node_paras(*n));
    find_index(&ps, id).is_some()
}

/// The paragraphs from `a` to `b`, in document order, each cut to the part
/// the selection covers.
pub open spec fn selected_pieces(ps: Seq<ParaView>, a: Position, b: Position) -> Seq<Seq<u8>> {
    let (a, b) = spec_ordered(ps, a, b);
    let ia = index_of(ps, a.block);
    let ib = index_of(ps, b.block);
    Seq::new((ib - ia + 1) as nat, |k: int| {
        let p = ps[ia + k];
        let start = if ia + k == ia { a.offset as int } else { 0 };
        let end = if ia + k == ib { b.offset as int } else { p.text.len() as int };
        p.text.subrange(start, end)
    })
}

/// Pieces of text joined with line breaks.
pub open spec fn join_lines(pieces: Seq<Seq<u8>>) -> Seq<u8>
    decreases pieces.len(),
{
    if pieces.len() == 0 {
        seq![]
    } else if pieces.len() == 1 {
        pieces[0]
    } else {
        join_lines(pieces.drop_last()) + seq![10u8] + pieces.last()
    }
}

/// A line break is valid UTF-8.
proof fn lemma_newline_valid()
    ensures
        valid_utf8(seq![10u8]),
{
    let nl = seq![10u8];
    assert(is_leading_byte_width_1(nl[0]));
    assert(length_of_first_scalar(nl) == 1);
    assert(pop_first_scalar(nl) =~= Seq::<u8>::empty());
    reveal_with_fuel(valid_utf8, 2);
}

/// Append `src[start..end]` to `bytes`.
fn push_range(bytes: &mut Vec<u8>, src: &Vec<u8>, start: usize, end: usize)
    requires
        start <= end <= src@.len(),
    ensures
        final(bytes)@ == old(bytes)@ + src@.subrange(start as int, end as int),
{
    let mut k = start;
    while k < end
        invariant
            start <= k <= end,
            end <= src@.len(),
            bytes@ == old(bytes)@ + src@.subrange(start as int, k as int),
        decreases end - k,
    {
        bytes.push(src[k]);
        assert(src@.subrange(start as int, k + 1) == src@.subrange(start as int, k as int).push(src@[k as int]));
        k = k + 1;
    }
}

/// The caret one grapheme forward (or back) from `at`, crossing into the
/// neighbouring paragraph at either end.
pub open spec fn spec_adjacent(ps: Seq<ParaView>, at: Position, forward: bool) -> Position {
    let ix = index_of(ps, at.block);
    let p = ps[ix];
    let starts = grapheme_starts(decode_utf8(p.text));
    if forward {
        if at.offset < p.text.len() {
            Position { block: at.block, offset: spec_next_boundary(starts, at.offset as int, p.text.len() as int) as usize }
        } else if ix + 1 < ps.len() {
            Position { block: ps[ix + 1].id, offset: 0 }
        } else {
            at
        }
    } else if at.offset > 0 {
        Position { block: at.block, offset: spec_previous_boundary(starts, at.offset as int) as usize }
    } else if ix > 0 {
        Position { block: ps[ix - 1].id, offset: ps[ix - 1].text.len() as usize }
    } else {
        at
    }
}

/// Whether `at` sits where a caret lands on its own: at a grapheme start of
/// its paragraph or at the paragraph's end.
pub open spec fn on_grapheme(ps: Seq<ParaView>, at: Position) -> bool {
    let p = ps[index_of(ps, at.block)];
    at.offset == p.text.len() || grapheme_starts(decode_utf8(p.text)).contains(at.offset)
}

/// The grapheme starts of a paragraph have the shape that segmenting any
/// text gives them (see `grapheme_starts_of`).
pub open spec fn segmented(p: ParaView) -> bool {
    starts_shape(grapheme_starts(decode_utf8(p.text)), p.text)
}

/// Every paragraph's text fits in memory, as those of a document in hand do.
pub open spec fn texts_fit(ps: Seq<ParaView>) -> bool {
    forall|i: int| 0 <= i < ps.len() ==> (#[trigger] ps[i]).text.len() <= usize::MAX
}

proof fn lemma_forward_then_back(ps: Seq<ParaView>, at: Position)
    requires
        ids_distinct(ps),
        texts_fit(ps),
        0 <= index_of(ps, at.block),
        at.offset <= ps[index_of(ps, at.block)].text.len(),
        on_grapheme(ps, at),
        segmented(ps[index_of(ps, at.block)]),
        !(index_of(ps, at.block) == ps.len() - 1 && at.offset == ps[index_of(ps, at.block)].text.len()),
    ensures
        spec_adjacent(ps, spec_adjacent(ps, at, true), false) == at,
{
    let ix = index_of(ps, at.block);
    lemma_index_of(ps, at.block);
    let p = ps[ix];
    let starts = grapheme_starts(decode_utf8(p.text));
    let len = p.text.len();
    assert(p.text.len() <= usize::MAX);
    if at.offset < len {
        let k = choose|k: int| 0 <= k < starts.len() && starts[k] == at.offset;
        crate::grapheme::lemma_step_round_trip(starts, p.text, k);
        crate::grapheme::lemma_next_boundary(starts, at.offset as int, len as int);
        let nx = spec_next_boundary(starts, at.offset as int, len as int);
        assert(at.offset < nx <= len);
        let fwd = Position { block: at.block, offset: nx as usize };
        assert(spec_adjacent(ps, at, true) == fwd);
        assert(spec_adjacent(ps, fwd, false) == at);
    } else {
        lemma_index_of_distinct(ps, ix + 1);
        lemma_index_of_distinct(ps, ix);
        let fwd = Position { block: ps[ix + 1].id, offset: 0 };
        assert(spec_adjacent(ps, at, true) == fwd);
        assert(spec_adjacent(ps, fwd, false) == at);
    }
}

proof fn lemma_back_then_forward(ps: Seq<ParaView>, at: Position)
    requires
        ids_distinct(ps),
        texts_fit(ps),
        0 <= index_of(ps, at.block),
        at.offset <= ps[index_of(ps, at.block)].text.len(),
        on_grapheme(ps, at),
        segmented(ps[index_of(ps, at.block)]),
        !(index_of(ps, at.block) == 0 && at.offset == 0),
    ensures
        spec_adjacent(ps, spec_adjacent(ps, at, false), true) == at,
{
    let ix = index_of(ps, at.block);
    lemma_index_of(ps, at.block);
    let p = ps[ix];
    let starts = grapheme_starts(decode_utf8(p.text));
    let len = p.text.len();
    assert(p.text.len() <= usize::MAX);
    if at.offset > 0 {
        assert(starts.len() > 0);
        crate::grapheme::lemma_previous_boundary(starts, at.offset as int);
        let pv = spec_previous_boundary(starts, at.offset as int);
        assert(0 <= pv < at.offset) by {
            assert(starts[0] == 0);
        }
        if at.offset == len {
            crate::grapheme::lemma_step_round_trip(starts, p.text, 0);
        } else {
            let k = choose|k: int| 0 <= k < starts.len() && starts[k] == at.offset;
            assert(k > 0) by {
                if k == 0 {
                    assert(starts[0] == 0);
                }
            }
            crate::grapheme::lemma_step_round_trip(starts, p.text, k);
        }
        let back = Position { block: at.block, offset: pv as usize };
        assert(spec_adjacent(ps, at, false) == back);
        assert(spec_adjacent(ps, back, true) == at);
    } else {
        lemma_index_of_distinct(ps, ix - 1);
        lemma_index_of_distinct(ps, ix);
        let back = Position { block: ps[ix - 1].id, offset: ps[ix - 1].text.len() as usize };
        assert(spec_adjacent(ps, at, false) == back);
        assert(spec_adjacent(ps, back, true) == at);
    }
}

/// Stepping the caret one grapheme forward and then one back brings it back
/// to where it was, from every caret place but the end of the document; and
/// stepping back and then forward does, from every place but its start.
pub proof fn lemma_adjacent_round_trip(d: Document, at: Position)
    requires
        d.wf(),
        texts_fit(d.paras()),
        d.valid_pos(at),
        on_grapheme(d.paras(), at),
        segmented(d.paras()[d.index(at.block)]),
    ensures
        !(d.index(at.block) == d.paras().len() - 1 && at.offset == d.paras()[d.index(at.block)].text.len())
            ==> spec_adjacent(d.paras(), spec_adjacent(d.paras(), at, true), false) == at,
        !(d.index(at.block) == 0 && at.offset == 0)
            ==> spec_adjacent(d.paras(), spec_adjacent(d.paras(), at, false), true) == at,
{
    if !(d.index(at.block) == d.paras().len() - 1 && at.offset == d.paras()[d.index(at.block)].text.len()) {
        lemma_forward_then_back(d.paras(), at);
    }
    if !(d.index(at.block) == 0 && at.offset == 0) {
        lemma_back_then_forward(d.paras(), at);
    }
}

impl Document {
    /// Turn paragraph `id` into a heading of `level` (capped at six), or back
    /// into a plain paragraph for level 0.
    pub fn heading(&mut self, id: u64, level: u8)
        ensures
            final(self).paras() == old(self).paras(),
            final(self).next() == old(self).next(),
            forall|x: u64| #[trigger] seq_level(final(self).blocks(), x) == (if x == id && seq_level(old(self).blocks(), x) >= 0 {
                target_level(level)
            } else {
                seq_level(old(self).blocks(), x)
            }),
            seq_retagged(old(self).blocks(), final(self).blocks(), id, level),
    {
        let blocks = take_blocks(&mut self.blocks);
        self.blocks = retag(blocks, id, level);
    }

    /// The caret one grapheme forward (or back) from `at`; at either end of
    /// a paragraph it moves to the neighbouring one, and it stays put at the
    /// ends of the document. A caret on a character boundary stays on one.
    pub fn adjacent(&self, at: Position, forward: bool) -> (r: Position)
        requires
            self.wf(),
            self.index(at.block) >= 0,
        ensures
            r == spec_adjacent(self.paras(), at, forward),
            self.valid_pos(at) ==> self.valid_pos(r),
    {
        let ps = self.paragraphs();
        let ghost pv = self.paras();
        let ix = match find_index(&ps, at.block) {
            Some(i) => i,
            None => {
                return at;
            },
        };
        let p = ps[ix];
        assert(pv[ix as int] == p@);
        let s = p.text();
        let starts = grapheme_starts_of(s.as_str());
        let len = p.text.len();
        proof {
            decode_utf8_encode_utf8(p.text@);
            assert(encode_utf8(s@) == p.text@);
            assert(p@.wf());
            is_char_boundary_start_end_of_seq(p.text@);
        }
        if forward {
            if at.offset < len {
                let off = next_boundary_in(&starts, at.offset, len);
                proof {
                    crate::grapheme::lemma_next_boundary(starts@, at.offset as int, len as int);
                }
                Position { block: at.block, offset: off }
            } else if ix < ps.len() - 1 {
                assert(pv[ix + 1] == ps@[ix + 1]@);
                proof {
                    lemma_index_of_distinct(pv, ix + 1);
                    is_char_boundary_start_end_of_seq(pv[ix + 1].text);
                }
                Position { block: ps[ix + 1].id, offset: 0 }
            } else {
                at
            }
        } else if at.offset > 0 {
            let off = previous_boundary_in(&starts, at.offset);
            proof {
                crate::grapheme::lemma_previous_boundary(starts@, at.offset as int);
            }
            Position { block: at.block, offset: off }
        } else if ix > 0 {
            assert(pv[ix - 1] == ps@[ix - 1]@);
            proof {
                lemma_index_of_distinct(pv, ix - 1);
                is_char_boundary_start_end_of_seq(pv[ix - 1].text);
            }
            Position { block: ps[ix - 1].id, offset: ps[ix - 1].text.len() }
        } else {
            at
        }
    }

    /// The selected text from `a` to `b` (in either order), one line per
    /// paragraph.
    pub fn selected(&self, a: Position, b: Position) -> (r: String)
        requires
            self.wf(),
            self.valid_pos(a),
            self.valid_pos(b),
        ensures
            r@ == decode_utf8(join_lines(selected_pieces(self.paras(), a, b))),
    {
        let ghost pv = self.paras();
        let ghost pieces = selected_pieces(pv, a, b);
        let (a, b) = self.ordered(a, b);
        let ps = self.paragraphs();
        let ia = match find_index(&ps, a.block) {
            Some(i) => i,
            None => {
                return String::new();
            },
        };
        let ib = match find_index(&ps, b.block) {
            Some(i) => i,
            None => {
                return String::new();
            },
        };
        let mut out: Vec<u8> = Vec::new();
        let mut c = ia;
        let n = ps.len();
        proof {
            lemma_index_of(pv, a.block);
            lemma_index_of(pv, b.block);
            lemma_newline_valid();
            assert(join_lines(pieces.take(0)) =~= Seq::<u8>::empty());
        }
        while c <= ib
            invariant
                pv == ps@.map_values(|p: &Paragraph| p@),
                pieces.len() == ib - ia + 1,
                ia <= c <= ib + 1,
                ib < n,
                n == ps@.len(),
                forall|k: int| 0 <= k < pieces.len() ==> #[trigger] pieces[k] == {
                    let p = pv[ia + k];
                    let start = if ia + k == ia { a.offset as int } else { 0 };
                    let end = if ia + k == ib { b.offset as int } else { p.text.len() as int };
                    p.text.subrange(start, end)
                },
                a.offset <= pv[ia as int].text.len(),
                is_char_boundary(pv[ia as int].text, a.offset as int),
                b.offset <= pv[ib as int].text.len(),
                is_char_boundary(pv[ib as int].text, b.offset as int),
                ia == ib ==> a.offset <= b.offset,
                forall|k: int| 0 <= k < pv.len() ==> (#[trigger] pv[k]).wf(),
                out@ == join_lines(pieces.take(c - ia)),
                valid_utf8(out@),
                valid_utf8(seq![10u8]),
            decreases ib + 1 - c,
        {
            let p = ps[c];
            assert(pv[c as int] == p@);
            let start = if c == ia { a.offset } else { 0 };
            let end = if c == ib { b.offset } else { p.text.len() };
            let ghost before = out@;
            if c > ia {
                out.push(10u8);
            }
            push_range(&mut out, &p.text, start, end);
            proof {
                let k = c - ia;
                assert(pieces[k] == p.text@.subrange(start as int, end as int));
                assert(pieces.take(k + 1).drop_last() == pieces.take(k));
                assert(pieces.take(k + 1).last() == pieces[k]);
                if k > 0 {
                    assert(out@ == before + seq![10u8] + pieces[k]);
                } else {
                    assert(pieces.take(1) == seq![pieces[0]]);
                    assert(out@ == pieces[k]);
                }
                is_char_boundary_start_end_of_seq(p.text@);
                lemma_valid_cut(p.text@, start as int, end as int);
                if k > 0 {
                    valid_utf8_concat(before, seq![10u8]);
                    valid_utf8_concat(before + seq![10u8], pieces[k]);
                }
            }
            c = c + 1;
        }
        assert(pieces.take(ib + 1 - ia) == pieces);
        string_from_utf8(out)
    }

    /// Move the top-level block holding paragraph `id` one place down (or
    /// up); nothing moves past either end.
    pub fn move_block(&mut self, id: u64, down: bool)
        requires
            old(self).wf(),
        ensures
            final(self).wf(),
            final(self).next() == old(self).next(),
            final(self).blocks() == moved_blocks(old(self).blocks(), id, down),
            forall|p: Position| old(self).valid_pos(p) ==> #[trigger] final(self).valid_pos(p),
    {
        let ghost bs = self.blocks@;
        proof {
            lemma_top_index(bs, id);
        }
        let n = self.blocks.len();
        let mut ix: usize = 0;
        while ix < n
            invariant
                n == bs.len(),
                bs == self.blocks@,
                ix <= n,
                forall|k: int| 0 <= k < ix ==> index_of(node_paras(#[trigger] bs[k]), id) < 0,
            ensures
                ix <= n,
                forall|k: int| 0 <= k < ix ==> index_of(node_paras(#[trigger] bs[k]), id) < 0,
                ix < n ==> index_of(node_paras(bs[ix as int]), id) >= 0,
            decreases n - ix,
        {
            if node_holds(&self.blocks[ix], id) {
                break;
            }
            ix = ix + 1;
        }
        if ix == n {
            proof {
                if top_index(bs, id) >= 0 {
                    assert(index_of(node_paras(bs[top_index(bs, id)]), id) < 0);
                }
            }
            return;
        }
        proof {
            if top_index(bs, id) != ix as int {
                if top_index(bs, id) >= 0 && top_index(bs, id) < ix as int {
                    assert(index_of(node_paras(bs[top_index(bs, id)]), id) < 0);
                } else {
                    assert(index_of(node_paras(bs[ix as int]), id) < 0);
                }
            }
        }
        let other = if down { ix + 1 } else if ix > 0 { ix - 1 } else { 0 };
        if other < n && other != ix {
            let lo = if other < ix { other } else { ix };
            proof {
                lemma_swap_blocks(bs, lo as int, self.next_id);
                assert(bs.update(lo as int, bs[lo + 1]).update(lo + 1, bs[lo as int]) =~= bs.update(
                    ix as int,
                    bs[other as int],
                ).update(other as int, bs[ix as int]));
            }
            let moved = self.blocks.remove(lo + 1);
            self.blocks.insert(lo, moved);
            assert(self.blocks@ =~= bs.update(ix as int, bs[other as int]).update(other as int, bs[ix as int]));
        } else {
            assert(other < n ==> bs.update(ix as int, bs[other as int]).update(other as int, bs[ix as int]) =~= bs);
        }
    }
}


impl Document {
    /// Wrap the top-level paragraph `id` in a list of one item, numbered
    /// when `ordered`; nothing changes when `id` is not a top-level
    /// paragraph.
    pub fn make_list(&mut self, id: u64, ordered: bool)
        ensures
            final(self).paras() == old(self).paras(),
            final(self).next() == old(self).next(),
            list_made(old(self).blocks(), final(self).blocks(), id, ordered),
    {
        let blocks = take_blocks(&mut self.blocks);
        self.blocks = wrap_in_list(blocks, id, ordered);
    }

    /// Take the list item headed by paragraph `id` out of its list: items
    /// before it stay a list, its blocks take its place and items after it
    /// form a second list. Returns whether there was such an item; the
    /// paragraphs keep their order.
    pub fn unlist(&mut self, id: u64) -> (r: bool)
        ensures
            r == seq_has_item(old(self).blocks(), id),
            final(self).paras() == old(self).paras(),
            final(self).next() == old(self).next(),
            !r ==> final(self).blocks() == old(self).blocks(),
            r ==> unwrapped(old(self).blocks(), final(self).blocks(), id),
    {
        if !has_item_of(&self.blocks, id) {
            return false;
        }
        let blocks = take_blocks(&mut self.blocks);
        self.blocks = unwrap_item(blocks, id);
        true
    }

    /// Toggle a bullet list on paragraph `id`: take its item out of its list
    /// when it heads one, else wrap the top-level paragraph in a new list.
    pub fn list(&mut self, id: u64)
        ensures
            final(self).paras() == old(self).paras(),
            final(self).next() == old(self).next(),
            list_toggled(old(self).blocks(), final(self).blocks(), id),
    {
        if self.unlist(id) {
            return;
        }
        self.make_list(id, false);
    }

    /// Where the list item headed by paragraph `id` is: the path to the
    /// first list holding it (an index among the blocks, then among the
    /// children of that block, and so on) and its place in that list.
    fn list_item_path(&self, id: u64) -> (r: Option<(Vec<usize>, usize)>)
        ensures
            r is Some <==> seq_has_item(self.blocks(), id),
            r matches Some((path, ix)) ==> path_to_item(self.blocks(), path@, ix, id) && ix == seq_item_pos(
                self.blocks(),
                id,
            ),
    {
        item_path(&self.blocks, id)
    }

    /// Make the list item headed by paragraph `id` a task, done when
    /// `checked`. A top-level paragraph is first wrapped in a new bullet
    /// list, unless `require_list`. Returns whether an item became a task.
    pub fn make_task(&mut self, id: u64, checked: bool, require_list: bool) -> (r: bool)
        ensures
            r == (seq_has_item(old(self).blocks(), id) || (!require_list && para_index(old(self).blocks(), id) >= 0)),
            final(self).paras() == old(self).paras(),
            final(self).next() == old(self).next(),
            r ==> seq_has_item(final(self).blocks(), id) && task_of(seq_item(final(self).blocks(), id)) == Some(
                checked,
            ),
            task_made(old(self).blocks(), final(self).blocks(), id, checked, require_list),
    {
        let ghost start = self.blocks@;
        if self.list_item_path(id).is_none() {
            if require_list {
                return false;
            }
            let ghost before = self.blocks@;
            self.make_list(id, false);
            proof {
                lemma_para_index(before, id);
                let ix = para_index(before, id);
                if ix >= 0 {
                    let l = self.blocks@[ix];
                    match l {
                        BlockNode::List { children, .. } => {
                            let item = children@[0];
                            match item {
                                BlockNode::ListItem { children: c, .. } => {
                                    assert(c@[0] == before[ix]);
                                },
                                _ => {},
                            }
                            assert(is_head_item(item, id));
                            crate::document::lemma_head_index(children@, id);
                        },
                        _ => {},
                    }
                    assert(lists_item(l, id));
                    assert(node_has_item(l, id));
                    lemma_first_has(self.blocks@, id);
                }
            }
        }
        if self.list_item_path(id).is_none() {
            return false;
        }
        let ghost wrapped = self.blocks@;
        let blocks = take_blocks(&mut self.blocks);
        self.blocks = set_task(blocks, id, checked);
        proof {
            if !seq_has_item(start, id) {
                let ix = para_index(start, id);
                lemma_para_index(start, id);
                lemma_first_has(start, id);
                lemma_first_has(wrapped, id);
                assert forall|k: int| 0 <= k < ix implies !node_has_item(#[trigger] wrapped[k], id) by {
                    assert(wrapped[k] == start[k]);
                }
                assert(first_has(wrapped, id) == ix);
                let l = wrapped[ix];
                match l {
                    BlockNode::List { children, .. } => {
                        assert(is_head_item(children@[0], id));
                        lemma_head_index(children@, id);
                        assert(head_index(children@, id) == 0);
                    },
                    _ => {},
                }
            }
        }
        true
    }

    /// Nest the list item headed by paragraph `id` under the item before it,
    /// joining that item's trailing list of the same numbering or starting a
    /// new one. Returns whether it moved; the first item of a list cannot.
    /// The paragraphs keep their order.
    pub fn indent_list(&mut self, id: u64) -> (r: bool)
        requires
            seq_has_item(old(self).blocks(), id) && seq_item_pos(old(self).blocks(), id) > 0 ==> can_indent(
                old(self).blocks(),
                id,
            ),
        ensures
            r == (seq_has_item(old(self).blocks(), id) && seq_item_pos(old(self).blocks(), id) > 0),
            final(self).paras() == old(self).paras(),
            final(self).next() == old(self).next(),
            !r ==> final(self).blocks() == old(self).blocks(),
            r ==> indented(old(self).blocks(), final(self).blocks(), id),
    {
        match item_pos_of(&self.blocks, id) {
            Some(pos) => {
                if pos == 0 {
                    return false;
                }
            },
            None => {
                return false;
            },
        }
        proof {
            lemma_first_has(self.blocks@, id);
        }
        let blocks = take_blocks(&mut self.blocks);
        self.blocks = indent_item(blocks, id);
        true
    }

    /// Promote the list item headed by paragraph `id` out of a list nested
    /// in an outer list's item: it goes right after that item, taking the
    /// items after it along as its own nested list. An item of a list that
    /// is not nested leaves its list as with `unlist`. Returns whether there
    /// was such an item. The item's paragraphs move past the blocks that
    /// followed its list inside the outer item; the rest keep their order.
    pub fn outdent_list(&mut self, id: u64) -> (r: bool)
        requires
            old(self).wf(),
        ensures
            r == seq_has_item(old(self).blocks(), id),
            final(self).wf(),
            final(self).next() == old(self).next(),
            !r ==> final(self).blocks() == old(self).blocks(),
            r && is_nested(old(self).blocks(), id) ==> swapped(old(self).paras(), final(self).paras(), id),
            r && !is_nested(old(self).blocks(), id) ==> final(self).paras() == old(self).paras(),
            outdented(old(self).blocks(), final(self).blocks(), id),
    {
        if inner_loc_of(&self.blocks, id, false, false) == 1 {
            let ghost before = self.paras();
            let blocks = take_blocks(&mut self.blocks);
            proof {
                lemma_first_has(blocks@, id);
            }
            let (b, _) = outdent_in(blocks, id, false, false);
            self.blocks = b;
            proof {
                lemma_swapped_wf(before, self.paras(), id, self.next_id);
            }
            return true;
        }
        self.unlist(id)
    }
}


/// Whether two blocks are equal: same kinds, same settings, same
/// paragraphs and source, block by block.
pub open spec fn same_node(a: BlockNode, b: BlockNode) -> bool
    decreases a,
{
    match a {
        BlockNode::Paragraph(p) => b matches BlockNode::Paragraph(q) && p@ == q@,
        BlockNode::Heading { level, children } => b matches BlockNode::Heading { level: l2, children: q } && level == l2
            && children@ == q@,
        BlockNode::List { children, ordered } => b matches BlockNode::List { children: c2, ordered: o2 } && ordered == o2
            && same_nodes(children@, c2@),
        BlockNode::ListItem { children, checked, spread } => b matches BlockNode::ListItem {
            children: c2,
            checked: k2,
            spread: s2,
        } && checked == k2 && spread == s2 && same_nodes(children@, c2@),
        BlockNode::Blockquote { children } => b matches BlockNode::Blockquote { children: c2 } && same_nodes(
            children@,
            c2@,
        ),
        BlockNode::Unsupported { source } => b matches BlockNode::Unsupported { source: s2 } && source@ == s2@,
    }
}

/// Whether two runs of blocks are equal block by block.
pub open spec fn same_nodes(a: Seq<BlockNode>, b: Seq<BlockNode>) -> bool
    decreases a,
{
    &&& a.len() == b.len()
    &&& forall|i: int| 0 <= i < a.len() ==> same_node(#[trigger] a[i], b[i])
}

/// A copy of a block.
fn copy_node(n: &BlockNode) -> (r: BlockNode)
    ensures
        same_node(*n, r),
        node_paras(r) == node_paras(*n),
    decreases *n,
{
    match n {
        BlockNode::Paragraph(p) => BlockNode::Paragraph(p.clone()),
        BlockNode::Heading { level, children } => BlockNode::Heading { level: *level, children: children.clone() },
        BlockNode::List { children, ordered } => {
            assert(decreases_to!(*n => children));
            BlockNode::List { children: copy_nodes(children), ordered: *ordered }
        },
        BlockNode::ListItem { children, checked, spread } => {
            assert(decreases_to!(*n => children));
            BlockNode::ListItem { children: copy_nodes(children), checked: *checked, spread: *spread }
        },
        BlockNode::Blockquote { children } => {
            assert(decreases_to!(*n => children));
            BlockNode::Blockquote { children: copy_nodes(children) }
        },
        BlockNode::Unsupported { source } => {
            let c = source.clone();
            assert(c@ == source@);
            BlockNode::Unsupported { source: c }
        },
    }
}

/// A copy of a run of blocks.
fn copy_nodes(v: &Vec<BlockNode>) -> (r: Vec<BlockNode>)
    ensures
        same_nodes(v@, r@),
        seq_paras(r@) == seq_paras(v@),
    decreases v@,
{
    let mut r: Vec<BlockNode> = Vec::new();
    let n = v.len();
    let mut i: usize = 0;
    while i < n
        invariant
            n == v@.len(),
            i <= n,
            r@.len() == i,
            forall|j: int| 0 <= j < i ==> same_node(#[trigger] v@[j], r@[j]),
            seq_paras(r@) == seq_paras(v@.take(i as int)),
        decreases n - i,
    {
        assert(decreases_to!(v@ => v@[i as int]));
        let c = copy_node(&v[i]);
        let ghost before = r@;
        r.push(c);
        proof {
            lemma_seq_paras_push(before, c);
            lemma_seq_paras_take(v@, i as int);
        }
        i = i + 1;
    }
    assert(v@.take(n as int) == v@);
    r
}

impl Clone for BlockNode {
    fn clone(&self) -> (r: Self)
        ensures
            same_node(*self, r),
            node_paras(r) == node_paras(*self),
    {
        copy_node(self)
    }
}

impl Clone for Document {
    /// A snapshot: an independent copy of the whole document.
    fn clone(&self) -> (r: Self)
        ensures
            same_nodes(self.blocks(), r.blocks()),
            r.paras() == self.paras(),
            r.next() == self.next(),
    {
        Document { blocks: copy_nodes(&self.blocks), next_id: self.next_id }
    }
}


/// Paragraphs `ps` numbered from `start` on, in order.
pub open spec fn relabel(ps: Seq<ParaView>, start: int) -> Seq<ParaView> {
    Seq::new(ps.len(), |i: int| ParaView { id: (start + i) as u64, text: ps[i].text, marks: ps[i].marks })
}

proof fn lemma_relabel_add(a: Seq<ParaView>, b: Seq<ParaView>, start: int)
    ensures
        relabel(a + b, start) == relabel(a, start) + relabel(b, start + a.len()),
{
    assert(relabel(a + b, start) =~= relabel(a, start) + relabel(b, start + a.len()));
}

/// How many paragraphs `nodes` hold, when that is below `u64::MAX`.
fn count_paras(nodes: &Vec<BlockNode>) -> (r: Option<u64>)
    ensures
        r matches Some(c) ==> c == seq_paras(nodes@).len() && c < u64::MAX,
        r is None ==> seq_paras(nodes@).len() >= u64::MAX,
    decreases nodes@,
{
    let n = nodes.len();
    let mut total: u64 = 0;
    let mut i: usize = 0;
    while i < n
        invariant
            n == nodes@.len(),
            i <= n,
            total == seq_paras(nodes@.take(i as int)).len(),
            total < u64::MAX,
        decreases n - i,
    {
        proof {
            lemma_seq_paras_take(nodes@, i as int);
        }
        assert(decreases_to!(nodes@ => nodes@[i as int]));
        let c: u64 = match &nodes[i] {
            BlockNode::Paragraph(_) => 1,
            BlockNode::Heading { .. } => 1,
            BlockNode::List { children, .. } | BlockNode::ListItem { children, .. } | BlockNode::Blockquote { children } => {
                assert(decreases_to!(nodes@[i as int] => children));
                match count_paras(children) {
                    Some(c) => c,
                    None => {
                        proof {
                            lemma_seq_paras_split3(nodes@, i as int);
                        }
                        return None;
                    },
                }
            },
            BlockNode::Unsupported { .. } => 0,
        };
        if c >= u64::MAX - total {
            proof {
                lemma_seq_paras_split3(nodes@, i as int);
            }
            return None;
        }
        total = total + c;
        i = i + 1;
    }
    assert(nodes@.take(n as int) == nodes@);
    Some(total)
}

/// A paragraph with identity `id`.
fn with_id(p: Paragraph, id: u64) -> (r: Paragraph)
    ensures
        r@ == (ParaView { id, text: p@.text, marks: p@.marks }),
{
    Paragraph { id, text: p.text, marks: p.marks }
}

/// Number the paragraphs of `nodes` in order from `next` on.
fn renumber(nodes: Vec<BlockNode>, next: &mut u64) -> (r: Vec<BlockNode>)
    requires
        *old(next) + seq_paras(nodes@).len() <= u64::MAX,
    ensures
        *final(next) == *old(next) + seq_paras(nodes@).len(),
        seq_paras(r@) == relabel(seq_paras(nodes@), *old(next) as int),
        seq_form(r@) == seq_form(nodes@),
    decreases nodes@,
{
    let ghost orig = nodes@;
    let ghost start = *next as int;
    let mut rest = nodes;
    let mut out: Vec<BlockNode> = Vec::new();
    let n = rest.len();
    let mut i: usize = 0;
    proof {
        assert(relabel(Seq::<ParaView>::empty(), start) =~= Seq::<ParaView>::empty());
    }
    while i < n
        invariant
            n == orig.len(),
            orig == nodes@,
            i <= n,
            rest@ == orig.skip(i as int),
            start + seq_paras(orig).len() <= u64::MAX,
            *next == start + seq_paras(orig.take(i as int)).len(),
            seq_paras(out@) == relabel(seq_paras(orig.take(i as int)), start),
            seq_form(out@) == seq_form(orig.take(i as int)),
            forall|k: int| 0 <= k < rest@.len() ==> decreases_to!(orig => #[trigger] rest@[k]),
        decreases n - i,
    {
        let node = rest.remove(0);
        assert(node == orig[i as int]);
        assert(decreases_to!(orig => node)) by {
            assert(rest@.len() >= 0);
        }
        proof {
            lemma_seq_paras_take(orig, i as int);
            lemma_seq_paras_split3(orig, i as int);
            assert(orig.take(i as int + 1) == orig.take(i as int).push(orig[i as int]));
        }
        let ghost at = *next as int;
        let ghost np = node_paras(node);
        let new_node = match node {
            BlockNode::Paragraph(p) => {
                let q = with_id(p, *next);
                *next = *next + 1;
                BlockNode::Paragraph(q)
            },
            BlockNode::Heading { level, children } => {
                let q = with_id(children, *next);
                *next = *next + 1;
                BlockNode::Heading { level, children: q }
            },
            BlockNode::List { children, ordered } => {
                assert(decreases_to!(node => children));
                BlockNode::List { children: renumber(children, next), ordered }
            },
            BlockNode::ListItem { children, checked, spread } => {
                assert(decreases_to!(node => children));
                BlockNode::ListItem { children: renumber(children, next), checked, spread }
            },
            BlockNode::Blockquote { children } => {
                assert(decreases_to!(node => children));
                BlockNode::Blockquote { children: renumber(children, next) }
            },
            BlockNode::Unsupported { source } => BlockNode::Unsupported { source },
        };
        let ghost prev_out = out@;
        out.push(new_node);
        proof {
            assert(node_paras(new_node) == relabel(np, at)) by {
                assert(node_paras(new_node) =~= relabel(np, at));
            }
            lemma_seq_paras_push(prev_out, new_node);
            lemma_relabel_add(seq_paras(orig.take(i as int)), np, start);
            lemma_seq_form_push(prev_out, new_node);
            lemma_seq_form_push(orig.take(i as int), node);
            assert(node_form(new_node) == node_form(node));
            assert forall|k: int| 0 <= k < rest@.len() implies decreases_to!(orig => #[trigger] rest@[k]) by {
                assert(rest@[k] == orig[i + 1 + k]);
            }
        }
        i = i + 1;
    }
    assert(orig.take(n as int) == orig);
    out
}

/// The blocks of a document read from `text`: those its Markdown holds,
/// and an empty paragraph after them when they hold no paragraph.
pub open spec fn read_form(text: Seq<char>) -> Seq<BlockForm> {
    let f = parse_form(encode_utf8(text));
    if forms_para_count(f) == 0 {
        f.push(BlockForm::Paragraph(empty_para()))
    } else {
        f
    }
}

/// No paragraph of a well-formed document has identity zero, so looking
/// up identity zero finds nothing.
pub proof fn lemma_no_identity_zero(d: Document)
    requires
        d.wf(),
    ensures
        d.index(0) < 0,
{
    lemma_index_of(d.paras(), 0);
}

/// Whether `d` is what reading `text` gives: its blocks are those of the
/// text, its paragraphs are numbered from one in order, and it hands out
/// the next identity after them.
pub open spec fn read_from(d: Document, text: Seq<char>) -> bool {
    &&& d.wf()
    &&& d.next() == d.paras().len() + 1
    &&& forall|i: int| 0 <= i < d.paras().len() ==> (#[trigger] d.paras()[i]).id == i + 1
    &&& seq_form(d.blocks()) == read_form(text)
}

/// Whether a document can be read from `text`: its paragraphs can all be
/// numbered.
pub open spec fn readable(text: Seq<char>) -> bool {
    forms_para_count(parse_form(encode_utf8(text))) < u64::MAX - 1
}

/// Whether block `n` is a well-formed paragraph of one plain line (see
/// `plain_line`) with no formats.
pub open spec fn plain_paragraph(n: BlockNode) -> bool {
    match n {
        BlockNode::Paragraph(p) => {
            &&& crate::markdown::plain_line(p@.text)
            &&& p@.wf()
            &&& forall|i: int| 0 <= i < p@.marks.len() ==> #[trigger] p@.marks[i] == plain_mark()
        },
        _ => false,
    }
}

impl Document {
    /// Read a document from Markdown: paragraphs, headings, bullet,
    /// numbered and task lists, quotations and inline formats become
    /// editable blocks; code fences, tables and images are kept as their
    /// source. Paragraphs are numbered from one in document order, and an
    /// empty text gets one empty paragraph. Reading fails only when the
    /// paragraphs could not all be numbered.
    pub fn parse(source: &str) -> (r: Result<Document, String>)
        ensures
            r is Ok <==> readable(source@),
            r matches Ok(d) ==> {
                &&& d.wf()
                &&& d.next() == d.paras().len() + 1
                &&& forall|i: int| 0 <= i < d.paras().len() ==> (#[trigger] d.paras()[i]).id == i + 1
                &&& seq_form(d.blocks()) == read_form(source@)
            },
            r is Err ==> encode_utf8(source@).len() + 2 >= u64::MAX,
    {
        let src = str_bytes(source);
        let lines = split_lines_of(&src);
        let blocks = parse_lines(&src, &lines, src.len());
        proof {
            lemma_seq_form_count(blocks@);
        }
        match count_paras(&blocks) {
            None => Err("the document has too many paragraphs".to_owned()),
            Some(c) => {
                if c >= u64::MAX - 1 {
                    return Err("the document has too many paragraphs".to_owned());
                }
                let mut next: u64 = 1;
                let ghost before = seq_paras(blocks@);
                let blocks = renumber(blocks, &mut next);
                let mut doc = Document { blocks, next_id: next };
                proof {
                    let ps = doc.paras();
                    assert forall|i: int, j: int| 0 <= i < j < ps.len() implies #[trigger] ps[i].id != #[trigger] ps[j].id by {}
                    assert forall|i: int| 0 <= i < ps.len() implies (#[trigger] ps[i]).wf() && ps[i].id < next && ps[i].id == i + 1 by {
                        assert(before[i].wf());
                        assert(ps[i].id == (1 + i) as u64);
                    }
                    assert(doc.next() == ps.len() + 1);
                }
                let ghost before_doc = doc;
                proof {
                    lemma_seq_form_count(before_doc.blocks());
                }
                doc.ensure_paragraph();
                proof {
                    if before_doc.paras().len() == 0 {
                        assert(doc.paras()[0].id == 1);
                        lemma_seq_form_push(before_doc.blocks(), doc.blocks().last());
                    }
                }
                Ok(doc)
            },
        }
    }

    /// The document as Markdown.
    pub fn source(&self) -> (r: String)
        requires
            self.wf(),
        ensures
            r@ == decode_utf8(md_blocks(self.blocks())),
    {
        let bytes = markdown_of(&self.blocks);
        string_from_utf8(bytes)
    }
}


/// The first top-level block holding paragraph `id` is found where it is.
proof fn lemma_top_at(bs: Seq<BlockNode>, id: u64, k: int)
    requires
        0 <= k < bs.len(),
        index_of(node_paras(bs[k]), id) >= 0,
        forall|j: int| 0 <= j < k ==> index_of(node_paras(#[trigger] bs[j]), id) < 0,
    ensures
        top_index(bs, id) == k,
{
    lemma_top_index(bs, id);
    let t = top_index(bs, id);
    if t < 0 {
        assert(index_of(node_paras(bs[k]), id) < 0);
    } else if t < k {
        assert(index_of(node_paras(bs[t]), id) < 0);
    } else if t > k {
        assert(index_of(node_paras(bs[k]), id) < 0);
    }
}

/// Moving the top-level block that holds paragraph `id` down one place and
/// then up one place gives the blocks back.
#[verifier::spinoff_prover]
#[verifier::rlimit(40)]
pub proof fn lemma_move_down_up(bs: Seq<BlockNode>, id: u64)
    requires
        ids_distinct(seq_paras(bs)),
        top_index(bs, id) >= 0,
        top_index(bs, id) + 1 < bs.len(),
    ensures
        ({
            let ix = top_index(bs, id);
            let down = bs.update(ix, bs[ix + 1]).update(ix + 1, bs[ix]);
            let ix2 = top_index(down, id);
            &&& ix2 == ix + 1
            &&& down.update(ix2, down[ix2 - 1]).update(ix2 - 1, down[ix2]) == bs
        }),
{
    let ix = top_index(bs, id);
    lemma_top_index(bs, id);
    let down = bs.update(ix, bs[ix + 1]).update(ix + 1, bs[ix]);
    // The block after does not hold `id`: its paragraphs follow those of
    // the block that does, and identities are distinct.
    let pre = bs.take(ix);
    let post = bs.skip(ix + 2);
    assert(bs == pre + seq![bs[ix]] + seq![bs[ix + 1]] + post);
    lemma_seq_paras_add(pre + seq![bs[ix]] + seq![bs[ix + 1]], post);
    lemma_seq_paras_add(pre + seq![bs[ix]], seq![bs[ix + 1]]);
    lemma_seq_paras_add(pre, seq![bs[ix]]);
    lemma_seq_paras_one(bs[ix]);
    lemma_seq_paras_one(bs[ix + 1]);
    let a = seq_paras(pre);
    let x = node_paras(bs[ix]);
    let y = node_paras(bs[ix + 1]);
    let all = seq_paras(bs);
    assert(all == a + x + y + seq_paras(post));
    lemma_index_of(x, id);
    lemma_index_of(y, id);
    if index_of(y, id) >= 0 {
        let i = index_of(x, id);
        let j = index_of(y, id);
        assert(all[a.len() + i] == x[i]);
        assert(all[a.len() + x.len() + j] == y[j]);
        assert(all[a.len() + i].id != all[a.len() + x.len() + j].id);
    }
    assert forall|j: int| 0 <= j < ix + 1 implies index_of(node_paras(#[trigger] down[j]), id) < 0 by {
        if j < ix {
            assert(down[j] == bs[j]);
        } else {
            assert(down[j] == bs[ix + 1]);
        }
    }
    assert(down[ix + 1] == bs[ix]);
    lemma_top_at(down, id, ix + 1);
    assert(down.update(ix + 1, down[ix]).update(ix, down[ix + 1]) =~= bs);
}


/// Paragraphs with the same identities in the same places are found at the
/// same places.
proof fn lemma_index_of_same_ids(ps: Seq<ParaView>, qs: Seq<ParaView>, id: u64)
    requires
        ps.len() == qs.len(),
        forall|i: int| 0 <= i < ps.len() ==> (#[trigger] ps[i]).id == qs[i].id,
    ensures
        index_of(ps, id) == index_of(qs, id),
    decreases ps.len(),
{
    if ps.len() > 0 {
        let dp = ps.drop_last();
        let dq = qs.drop_last();
        assert forall|i: int| 0 <= i < dp.len() implies (#[trigger] dp[i]).id == dq[i].id by {
            assert(dp[i] == ps[i] && dq[i] == qs[i]);
        }
        lemma_index_of_same_ids(dp, dq, id);
        assert(ps.last().id == qs.last().id);
    }
}

/// Formatting keeps each paragraph's identity and text, and its number of
/// marks.
pub proof fn lemma_format_keeps_text(ps: Seq<ParaView>, q: ParaView, a: Position, b: Position, bold: bool, on: bool)
    ensures
        formatted(ps, q, a, b, bold, on).id == q.id,
        formatted(ps, q, a, b, bold, on).text == q.text,
        formatted(ps, q, a, b, bold, on).marks.len() == q.marks.len(),
{
}

/// Formatting leaves every position where it was: identities and texts do
/// not change.
pub proof fn lemma_format_keeps_places(ps: Seq<ParaView>, a: Position, b: Position, bold: bool, on: bool, block: u64)
    ensures
        ({
            let qs = ps.map_values(|q: ParaView| formatted(ps, q, a, b, bold, on));
            &&& index_of(qs, block) == index_of(ps, block)
            &&& index_of(ps, block) >= 0 ==> qs[index_of(ps, block)].text == ps[index_of(ps, block)].text
        }),
{
    let qs = ps.map_values(|q: ParaView| formatted(ps, q, a, b, bold, on));
    assert forall|i: int| 0 <= i < ps.len() implies (#[trigger] ps[i]).id == qs[i].id && ps[i].text == qs[i].text by {
        lemma_format_keeps_text(ps, ps[i], a, b, bold, on);
    }
    lemma_index_of_same_ids(ps, qs, block);
    lemma_index_of(ps, block);
}

/// After `format`, every selected byte has the format exactly when the
/// selection did not all have it before: toggling sets the whole selection
/// one way, and toggling a fully formatted selection clears it.
pub proof fn lemma_format_toggles(ps: Seq<ParaView>, a: Position, b: Position, bold: bool)
    ensures
        ({
            let on = !all_formatted(ps, a, b, bold);
            let qs = ps.map_values(|q: ParaView| formatted(ps, q, a, b, bold, on));
            forall|k: int, i: int|
                0 <= k < qs.len() && 0 <= i < qs[k].marks.len() && selects(qs, qs[k].id, a, b, i)
                    ==> has_flag(#[trigger] qs[k].marks[i], bold) == on
        }),
{
    let on = !all_formatted(ps, a, b, bold);
    let qs = ps.map_values(|q: ParaView| formatted(ps, q, a, b, bold, on));
    assert forall|i: int| 0 <= i < ps.len() implies (#[trigger] ps[i]).id == qs[i].id && ps[i].text == qs[i].text by {
        lemma_format_keeps_text(ps, ps[i], a, b, bold, on);
    }
    assert forall|k: int, i: int|
        0 <= k < qs.len() && 0 <= i < qs[k].marks.len() && selects(qs, qs[k].id, a, b, i) implies has_flag(
        #[trigger] qs[k].marks[i],
        bold,
    ) == on by {
        let id = qs[k].id;
        lemma_index_of_same_ids(ps, qs, id);
        lemma_index_of_same_ids(ps, qs, a.block);
        lemma_index_of_same_ids(ps, qs, b.block);
        assert(pos_key(ps, a) == pos_key(qs, a));
        assert(pos_key(ps, b) == pos_key(qs, b));
        let (oa, ob) = spec_ordered(ps, a, b);
        lemma_index_of_same_ids(ps, qs, oa.block);
        lemma_index_of_same_ids(ps, qs, ob.block);
        lemma_index_of(ps, id);
        assert(spec_selection(qs, id, a, b) == spec_selection(ps, id, a, b));
        assert(ps[k].id == id);
    }
}


/// When two neighbouring runs of paragraphs change places, the paragraph
/// with a given identity is found unchanged.
pub proof fn lemma_exchange_find(pre: Seq<ParaView>, x: Seq<ParaView>, y: Seq<ParaView>, post: Seq<ParaView>, block: u64)
    requires
        ids_distinct(pre + y + x + post),
        ids_distinct(pre + x + y + post),
        index_of(pre + y + x + post, block) >= 0,
    ensures
        index_of(pre + x + y + post, block) >= 0,
        (pre + x + y + post)[index_of(pre + x + y + post, block)] == (pre + y + x + post)[index_of(
            pre + y + x + post,
            block,
        )],
{
    let old = pre + y + x + post;
    let new = pre + x + y + post;
    let la = pre.len() as int;
    let lx = x.len() as int;
    let ly = y.len() as int;
    lemma_index_of(old, block);
    let i = index_of(old, block);
    let j = if i < la {
        i
    } else if i < la + ly {
        i + lx
    } else if i < la + ly + lx {
        i - ly
    } else {
        i
    };
    if i < la {
        assert(old[i] == pre[i] && new[i] == pre[i]);
    } else if i < la + ly {
        assert(old[i] == y[i - la] && new[i + lx] == y[i - la]);
    } else if i < la + ly + lx {
        assert(old[i] == x[i - la - ly] && new[i - ly] == x[i - la - ly]);
    } else {
        assert(old[i] == post[i - la - ly - lx] && new[i] == post[i - la - ly - lx]);
    }
    assert(new[j] == old[i]);
    lemma_index_of_distinct(new, j);
}

/// A position of a document stays one when a run of its paragraphs moves
/// past its neighbour: every paragraph keeps its identity and text.
pub proof fn lemma_swapped_pos(old: Seq<ParaView>, new: Seq<ParaView>, id: u64, p: Position)
    requires
        swapped(old, new, id),
        ids_distinct(old),
        ids_distinct(new),
        index_of(old, p.block) >= 0,
    ensures
        index_of(new, p.block) >= 0,
        new[index_of(new, p.block)] == old[index_of(old, p.block)],
{
    let (pre, x, y, post) = choose|pre: Seq<ParaView>, x: Seq<ParaView>, y: Seq<ParaView>, post: Seq<ParaView>|
        old == pre + y + x + post && new == pre + x + y + post && y.len() > 0 && y[0].id == id;
    lemma_exchange_find(pre, x, y, post, p.block);
}

} // verus!
