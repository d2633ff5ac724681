//! List editing on the block tree of a document: finding the list item that
//! a paragraph heads, and wrapping, unwrapping, nesting and promoting items.
//!
//! A paragraph heads a list item when it is the item's first child. Searches
//! walk the tree in document order and stop at the first list that holds
//! such an item.

use vstd::prelude::*;
use crate::document::{
    BlockNode, ParaView, Paragraph, node_paras, seq_paras, node_paragraph, is_head_item, head_index,
    lemma_head_index, find_head_item, lemma_seq_paras_add, lemma_seq_paras_one, lemma_seq_paras_push,
    lemma_seq_paras_split3,
};

verus! {

/// Whether `n` is a list with an item headed by paragraph `id`.
pub open spec fn lists_item(n: BlockNode, id: u64) -> bool {
    match n {
        BlockNode::List { children, .. } => head_index(children@, id) >= 0,
        _ => false,
    }
}

/// Whether the tree of `n` holds a list with an item headed by `id`.
pub open spec fn node_has_item(n: BlockNode, id: u64) -> bool
    decreases n,
{
    lists_item(n, id) || match n {
        BlockNode::List { children, .. } => seq_has_item(children@, id),
        BlockNode::ListItem { children, .. } => seq_has_item(children@, id),
        BlockNode::Blockquote { children } => seq_has_item(children@, id),
        _ => false,
    }
}

/// Whether the trees of `s` hold a list with an item headed by `id`.
pub open spec fn seq_has_item(s: Seq<BlockNode>, id: u64) -> bool
    decreases s,
{
    s.len() > 0 && (seq_has_item(s.drop_last(), id) || node_has_item(s.last(), id))
}

/// The first block of `s` whose tree holds the item headed by `id`, or -1.
pub open spec fn first_has(s: Seq<BlockNode>, id: u64) -> int
    decreases s.len(),
{
    if s.len() == 0 {
        -1
    } else if first_has(s.drop_last(), id) >= 0 {
        first_has(s.drop_last(), id)
    } else if node_has_item(s.last(), id) {
        s.len() - 1
    } else {
        -1
    }
}

/// Whether block `n` is a paragraph or heading with identity `id`.
pub open spec fn is_para_of(n: BlockNode, id: u64) -> bool {
    match node_paragraph(n) {
        Some(p) => p.id == id,
        None => false,
    }
}

/// The first block of `s` that is paragraph `id` itself, or -1.
pub open spec fn para_index(s: Seq<BlockNode>, id: u64) -> int
    decreases s.len(),
{
    if s.len() == 0 {
        -1
    } else if para_index(s.drop_last(), id) >= 0 {
        para_index(s.drop_last(), id)
    } else if is_para_of(s.last(), id) {
        s.len() - 1
    } else {
        -1
    }
}

/// Whether `n` is a list of one plain item holding just `inner`.
pub open spec fn wraps(n: BlockNode, inner: BlockNode, ordered: bool) -> bool {
    match n {
        BlockNode::List { children, ordered: o } => {
            &&& o == ordered
            &&& children@.len() == 1
            &&& match children@[0] {
                BlockNode::ListItem { children: c, checked, spread } => checked is None && !spread && c@ == seq![inner],
                _ => false,
            }
        },
        _ => false,
    }
}

pub proof fn lemma_first_has(s: Seq<BlockNode>, id: u64)
    ensures
        -1 <= first_has(s, id) < s.len(),
        first_has(s, id) >= 0 <==> seq_has_item(s, id),
        first_has(s, id) >= 0 ==> node_has_item(s[first_has(s, id)], id),
        forall|k: int| 0 <= k < first_has(s, id) ==> !node_has_item(#[trigger] s[k], id),
        first_has(s, id) < 0 ==> forall|k: int| 0 <= k < s.len() ==> !node_has_item(#[trigger] s[k], id),
    decreases s.len(),
{
    if s.len() > 0 {
        let d = s.drop_last();
        lemma_first_has(d, id);
        assert forall|k: int| 0 <= k < s.len() - 1 implies s[k] == #[trigger] d[k] by {}
        assert forall|k: int| 0 <= k < first_has(s, id) implies !node_has_item(#[trigger] s[k], id) by {
            assert(s[k] == d[k]);
        }
        if first_has(s, id) < 0 {
            assert forall|k: int| 0 <= k < s.len() implies !node_has_item(#[trigger] s[k], id) by {
                if k < s.len() - 1 {
                    assert(s[k] == d[k]);
                }
            }
        }
    }
}

pub proof fn lemma_para_index(s: Seq<BlockNode>, id: u64)
    ensures
        -1 <= para_index(s, id) < s.len(),
        para_index(s, id) >= 0 ==> is_para_of(s[para_index(s, id)], id),
        forall|k: int| 0 <= k < para_index(s, id) ==> !is_para_of(#[trigger] s[k], id),
        para_index(s, id) < 0 ==> forall|k: int| 0 <= k < s.len() ==> !is_para_of(#[trigger] s[k], id),
    decreases s.len(),
{
    if s.len() > 0 {
        let d = s.drop_last();
        lemma_para_index(d, id);
        assert forall|k: int| 0 <= k < s.len() - 1 implies s[k] == #[trigger] d[k] by {}
        assert forall|k: int| 0 <= k < para_index(s, id) implies !is_para_of(#[trigger] s[k], id) by {
            assert(s[k] == d[k]);
        }
        if para_index(s, id) < 0 {
            assert forall|k: int| 0 <= k < s.len() implies !is_para_of(#[trigger] s[k], id) by {
                if k < s.len() - 1 {
                    assert(s[k] == d[k]);
                }
            }
        }
    }
}

/// Whether the tree of `n` holds the item headed by `id`.
pub fn node_has_item_of(n: &BlockNode, id: u64) -> (r: bool)
    ensures
        r == node_has_item(*n, id),
    decreases *n,
{
    match n {
        BlockNode::List { children, .. } => {
            if find_head_item(children, id).is_some() {
                true
            } else {
                assert(decreases_to!(*n => children));
                has_item_of(children, id)
            }
        },
        BlockNode::ListItem { children, .. } => {
            assert(decreases_to!(*n => children));
            has_item_of(children, id)
        },
        BlockNode::Blockquote { children } => {
            assert(decreases_to!(*n => children));
            has_item_of(children, id)
        },
        _ => false,
    }
}

/// Whether the trees of `nodes` hold the item headed by `id`.
pub fn has_item_of(nodes: &Vec<BlockNode>, id: u64) -> (r: bool)
    ensures
        r == seq_has_item(nodes@, id),
    decreases nodes@,
{
    first_has_of(nodes, id).is_some()
}

/// The first block of `nodes` whose tree holds the item headed by `id`.
pub fn first_has_of(nodes: &Vec<BlockNode>, id: u64) -> (r: Option<usize>)
    ensures
        r is Some <==> seq_has_item(nodes@, id),
        r matches Some(k) ==> k == first_has(nodes@, id),
    decreases nodes@, 0nat,
{
    proof {
        lemma_first_has(nodes@, id);
    }
    let n = nodes.len();
    let mut k: usize = 0;
    while k < n
        invariant
            n == nodes@.len(),
            k <= n,
            forall|j: int| 0 <= j < k ==> !node_has_item(#[trigger] nodes@[j], id),
            -1 <= first_has(nodes@, id) < nodes@.len(),
            first_has(nodes@, id) >= 0 <==> seq_has_item(nodes@, id),
            first_has(nodes@, id) >= 0 ==> node_has_item(nodes@[first_has(nodes@, id)], id),
            forall|j: int| 0 <= j < first_has(nodes@, id) ==> !node_has_item(#[trigger] nodes@[j], id),
            first_has(nodes@, id) < 0 ==> forall|j: int| 0 <= j < nodes@.len() ==> !node_has_item(#[trigger] nodes@[j], id),
        decreases n - k,
    {
        assert(decreases_to!(nodes@ => nodes@[k as int]));
        if node_has_item_of(&nodes[k], id) {
            proof {
                let h = first_has(nodes@, id);
                if h != k as int {
                    if h >= 0 && h < k as int {
                        assert(!node_has_item(nodes@[h], id));
                    } else {
                        assert(!node_has_item(nodes@[k as int], id));
                    }
                }
            }
            return Some(k);
        }
        k = k + 1;
    }
    None
}

/// The first top-level block of `nodes` that is paragraph `id` itself.
pub fn para_index_of(nodes: &Vec<BlockNode>, id: u64) -> (r: Option<usize>)
    ensures
        r is Some <==> para_index(nodes@, id) >= 0,
        r matches Some(k) ==> k == para_index(nodes@, id),
{
    proof {
        lemma_para_index(nodes@, id);
    }
    let n = nodes.len();
    let mut k: usize = 0;
    while k < n
        invariant
            n == nodes@.len(),
            k <= n,
            forall|j: int| 0 <= j < k ==> !is_para_of(#[trigger] nodes@[j], id),
            -1 <= para_index(nodes@, id) < nodes@.len(),
            para_index(nodes@, id) >= 0 ==> is_para_of(nodes@[para_index(nodes@, id)], id),
            forall|j: int| 0 <= j < para_index(nodes@, id) ==> !is_para_of(#[trigger] nodes@[j], id),
            para_index(nodes@, id) < 0 ==> forall|j: int| 0 <= j < nodes@.len() ==> !is_para_of(#[trigger] nodes@[j], id),
        decreases n - k,
    {
        let hit = match &nodes[k] {
            BlockNode::Paragraph(p) => p.id == id,
            BlockNode::Heading { children, .. } => children.id == id,
            _ => false,
        };
        if hit {
            proof {
                let h = para_index(nodes@, id);
                if h != k as int {
                    if h >= 0 && h < k as int {
                        assert(!is_para_of(nodes@[h], id));
                    } else {
                        assert(!is_para_of(nodes@[k as int], id));
                    }
                }
            }
            return Some(k);
        }
        k = k + 1;
    }
    None
}

/// Wrap the top-level paragraph `id` of `nodes` in a list of one item.
pub fn wrap_in_list(nodes: Vec<BlockNode>, id: u64, ordered: bool) -> (r: Vec<BlockNode>)
    ensures
        seq_paras(r@) == seq_paras(nodes@),
        para_index(nodes@, id) < 0 ==> r@ == nodes@,
        para_index(nodes@, id) >= 0 ==> {
            let ix = para_index(nodes@, id);
            &&& r@.len() == nodes@.len()
            &&& forall|k: int| 0 <= k < nodes@.len() && k != ix ==> #[trigger] r@[k] == nodes@[k]
            &&& wraps(r@[ix], nodes@[ix], ordered)
        },
{
    match para_index_of(&nodes, id) {
        None => nodes,
        Some(ix) => {
            let ghost orig = nodes@;
            proof {
                lemma_para_index(orig, id);
            }
            let mut nodes = nodes;
            let node = nodes.remove(ix);
            let ghost inner = node;
            let mut inner_children: Vec<BlockNode> = Vec::new();
            inner_children.push(node);
            let item = BlockNode::ListItem { children: inner_children, checked: None, spread: false };
            let mut items: Vec<BlockNode> = Vec::new();
            items.push(item);
            let list = BlockNode::List { children: items, ordered };
            nodes.insert(ix, list);
            proof {
                assert(nodes@ == orig.update(ix as int, list));
                lemma_seq_paras_split3(orig, ix as int);
                lemma_seq_paras_split3(nodes@, ix as int);
                assert(nodes@.take(ix as int) == orig.take(ix as int));
                assert(nodes@.skip(ix + 1) == orig.skip(ix + 1));
                lemma_seq_paras_one(inner);
                lemma_seq_paras_one(item);
                assert(node_paras(list) == node_paras(inner));
            }
            nodes
        },
    }
}


/// `pre + [x] + post` splits its paragraphs the same way.
proof fn lemma_paras3(pre: Seq<BlockNode>, x: Seq<BlockNode>, post: Seq<BlockNode>)
    ensures
        seq_paras(pre + x + post) == seq_paras(pre) + seq_paras(x) + seq_paras(post),
{
    lemma_seq_paras_add(pre + x, post);
    lemma_seq_paras_add(pre, x);
}

/// Whether `n` is a list, numbered when `ordered`, of exactly `items`.
pub open spec fn is_list_of(n: BlockNode, items: Seq<BlockNode>, ordered: bool) -> bool {
    match n {
        BlockNode::List { children, ordered: o } => o == ordered && children@ == items,
        _ => false,
    }
}

/// Whether `mid` is what replaces a list of `items` when its item `j` is
/// taken out: a list of the items before it (when there are any), the
/// item's own blocks, and a list of the items after it (when there are any).
pub open spec fn split_list(items: Seq<BlockNode>, ordered: bool, j: int, mid: Seq<BlockNode>) -> bool {
    let pre: int = if j > 0 { 1 } else { 0 };
    let post: int = if j + 1 < items.len() { 1 } else { 0 };
    match items[j] {
        BlockNode::ListItem { children, .. } => {
            &&& mid.len() == pre + children@.len() + post
            &&& j > 0 ==> is_list_of(mid[0], items.take(j), ordered)
            &&& mid.subrange(pre, pre + children@.len()) == children@
            &&& j + 1 < items.len() ==> is_list_of(mid[mid.len() - 1], items.skip(j + 1), ordered)
        },
        _ => false,
    }
}

/// Whether the blocks `r` are `s` with the item headed by `id` taken out of
/// the first list that holds it (see `split_list`); every other block stays
/// as it is.
pub open spec fn unwrapped(s: Seq<BlockNode>, r: Seq<BlockNode>, id: u64) -> bool
    decreases s,
{
    let k = first_has(s, id);
    let t = s.len() - k - 1;
    &&& 0 <= k < s.len()
    &&& k + t <= r.len()
    &&& r.take(k) == s.take(k)
    &&& r.skip(r.len() - t) == s.skip(k + 1)
    &&& node_unwrapped(s[k], r.subrange(k, r.len() - t), id)
}

/// Whether the blocks `mid` are what block `n` becomes when the item headed
/// by `id` in its tree is taken out of its list.
pub open spec fn node_unwrapped(n: BlockNode, mid: Seq<BlockNode>, id: u64) -> bool
    decreases n,
{
    match n {
        BlockNode::List { children, ordered } => if head_index(children@, id) >= 0 {
            split_list(children@, ordered, head_index(children@, id), mid)
        } else {
            mid.len() == 1 && match mid[0] {
                BlockNode::List { children: c, ordered: o } => o == ordered && unwrapped(children@, c@, id),
                _ => false,
            }
        },
        BlockNode::ListItem { children, checked, spread } => mid.len() == 1 && match mid[0] {
            BlockNode::ListItem { children: c, checked: k, spread: sp } => k == checked && sp == spread
                && unwrapped(children@, c@, id),
            _ => false,
        },
        BlockNode::Blockquote { children } => mid.len() == 1 && match mid[0] {
            BlockNode::Blockquote { children: c } => unwrapped(children@, c@, id),
            _ => false,
        },
        _ => false,
    }
}

/// The blocks that replace a list of `items` when its item `j` is taken
/// out (see `split_list`).
fn split_out_item(items: Vec<BlockNode>, ordered: bool, j: usize) -> (mid: Vec<BlockNode>)
    requires
        j < items@.len(),
        items@[j as int] is ListItem,
    ensures
        split_list(items@, ordered, j as int, mid@),
        seq_paras(mid@) == seq_paras(items@.take(j as int)) + node_paras(items@[j as int]) + seq_paras(
            items@.skip(j + 1),
        ),
{
    let ghost all = items@;
    let n = items.len();
    assert(j < n);
    let mut before = items;
    let after = before.split_off(j + 1);
    let item = match before.pop() {
        Some(x) => x,
        None => {
            proof {
                assert(false);
            }
            return before;
        },
    };
    assert(before@ == all.take(j as int));
    assert(after@ == all.skip(j + 1));
    assert(item == all[j as int]);
    let ghost bv = before@;
    let ghost av = after@;
    let mut mid: Vec<BlockNode> = Vec::new();
    if before.len() > 0 {
        let first = BlockNode::List { children: before, ordered };
        mid.push(first);
        proof {
            lemma_seq_paras_one(first);
            assert(is_list_of(mid@[0], bv, ordered));
        }
    }
    let ghost m1 = mid@;
    assert(seq_paras(m1) == seq_paras(bv)) by {
        if bv.len() == 0 {
            assert(m1.len() == 0);
        }
    }
    let ghost mut cv: Seq<BlockNode> = Seq::empty();
    match item {
        BlockNode::ListItem { children: c, .. } => {
            let mut c = c;
            proof {
                cv = c@;
            }
            mid.append(&mut c);
            proof {
                lemma_seq_paras_add(m1, cv);
            }
        },
        _ => {
            proof {
                assert(false);
            }
        },
    }
    let ghost m2 = mid@;
    assert(m2 == m1 + cv);
    if after.len() > 0 {
        let last_list = BlockNode::List { children: after, ordered };
        mid.push(last_list);
        proof {
            lemma_seq_paras_push(m2, last_list);
            assert(is_list_of(mid@[mid@.len() - 1], av, ordered));
        }
    } else {
        assert(seq_paras(av) == Seq::<ParaView>::empty());
    }
    proof {
        let pre: int = if j > 0 { 1 } else { 0 };
        assert(m1.len() == pre);
        assert(mid@.subrange(pre, pre + cv.len()) == cv);
        if j > 0 {
            assert(mid@[0] == m1[0]);
        }
    }
    mid
}

/// Take the item headed by `id` out of its list: the items before it stay
/// a list, its own blocks take its place, and the items after it form a
/// second list. The paragraphs keep their order.
#[verifier::spinoff_prover]
pub fn unwrap_item(nodes: Vec<BlockNode>, id: u64) -> (r: Vec<BlockNode>)
    requires
        seq_has_item(nodes@, id),
    ensures
        seq_paras(r@) == seq_paras(nodes@),
        unwrapped(nodes@, r@, id),
    decreases nodes@,
{
    let ghost orig = nodes@;
    proof {
        lemma_first_has(orig, id);
    }
    let k = match first_has_of(&nodes, id) {
        Some(k) => k,
        None => {
            return nodes;
        },
    };
    let mut front = nodes;
    let len = front.len();
    assert(k < len);
    let mut tail = front.split_off(k + 1);
    let node = match front.pop() {
        Some(x) => x,
        None => {
            proof {
                assert(false);
            }
            return front;
        },
    };
    let ghost pre = front@;
    let ghost post = tail@;
    proof {
        assert(node == orig[k as int]);
        assert(pre == orig.take(k as int));
        assert(post == orig.skip(k + 1));
        lemma_seq_paras_split3(orig, k as int);
        assert(decreases_to!(orig => node));
    }
    let mut mid: Vec<BlockNode> = Vec::new();
    match node {
        BlockNode::List { children, ordered } => {
            match find_head_item(&children, id) {
                Some(j) => {
                    proof {
                        lemma_head_index(children@, id);
                    }
                    let ghost all = children@;
                    mid = split_out_item(children, ordered, j);
                    proof {
                        lemma_seq_paras_split3(all, j as int);
                    }
                },
                None => {
                    assert(decreases_to!(node => children));
                    let c = unwrap_item(children, id);
                    let nn = BlockNode::List { children: c, ordered };
                    mid.push(nn);
                    proof {
                        lemma_seq_paras_one(nn);
                    }
                },
            }
        },
        BlockNode::ListItem { children, checked, spread } => {
            assert(decreases_to!(node => children));
            let c = unwrap_item(children, id);
            let nn = BlockNode::ListItem { children: c, checked, spread };
            mid.push(nn);
            proof {
                lemma_seq_paras_one(nn);
            }
        },
        BlockNode::Blockquote { children } => {
            assert(decreases_to!(node => children));
            let c = unwrap_item(children, id);
            let nn = BlockNode::Blockquote { children: c };
            mid.push(nn);
            proof {
                lemma_seq_paras_one(nn);
            }
        },
        _ => {
            proof {
                assert(false);
            }
        },
    }
    let ghost mv = mid@;
    assert(seq_paras(mv) == node_paras(orig[k as int]));
    assert(node_unwrapped(orig[k as int], mv, id));
    let mut out = front;
    out.append(&mut mid);
    out.append(&mut tail);
    proof {
        assert(out@ == pre + mv + post);
        lemma_paras3(pre, mv, post);
        let t = orig.len() - k - 1;
        assert(out@.take(k as int) == pre);
        assert(out@.skip(out@.len() - t) == post);
        assert(out@.subrange(k as int, out@.len() - t) == mv);
    }
    out
}


/// The place of the item headed by `id` in the first list holding it, or -1.
pub open spec fn seq_item_pos(s: Seq<BlockNode>, id: u64) -> int
    decreases s,
{
    let k = first_has(s, id);
    if 0 <= k < s.len() {
        node_item_pos(s[k], id)
    } else {
        -1
    }
}

/// The place of the item headed by `id` in the first list of `n` holding it.
pub open spec fn node_item_pos(n: BlockNode, id: u64) -> int
    decreases n,
{
    match n {
        BlockNode::List { children, .. } => if head_index(children@, id) >= 0 {
            head_index(children@, id)
        } else {
            seq_item_pos(children@, id)
        },
        BlockNode::ListItem { children, .. } => seq_item_pos(children@, id),
        BlockNode::Blockquote { children } => seq_item_pos(children@, id),
        _ => -1,
    }
}

/// The items of the first list holding the item headed by `id`.
pub open spec fn seq_item_list(s: Seq<BlockNode>, id: u64) -> Seq<BlockNode>
    decreases s,
{
    let k = first_has(s, id);
    if 0 <= k < s.len() {
        node_item_list(s[k], id)
    } else {
        seq![]
    }
}

/// The items of the first list of `n` holding the item headed by `id`.
pub open spec fn node_item_list(n: BlockNode, id: u64) -> Seq<BlockNode>
    decreases n,
{
    match n {
        BlockNode::List { children, .. } => if head_index(children@, id) >= 0 {
            children@
        } else {
            seq_item_list(children@, id)
        },
        BlockNode::ListItem { children, .. } => seq_item_list(children@, id),
        BlockNode::Blockquote { children } => seq_item_list(children@, id),
        _ => seq![],
    }
}

/// Whether the item headed by `id` can be nested under the item before it:
/// it has one, and that one can hold blocks.
pub open spec fn can_indent(s: Seq<BlockNode>, id: u64) -> bool {
    let pos = seq_item_pos(s, id);
    &&& seq_has_item(s, id)
    &&& pos > 0
    &&& node_children(seq_item_list(s, id)[pos - 1]) is Some
}

/// The children of a container block.
pub open spec fn node_children(n: BlockNode) -> Option<Seq<BlockNode>> {
    crate::document::node_children(n)
}

/// A list item headed by `id` starts with that paragraph.
pub proof fn lemma_head_para(item: BlockNode, id: u64)
    requires
        is_head_item(item, id),
    ensures
        node_paras(item).len() > 0,
        node_paras(item)[0].id == id,
{
    match item {
        BlockNode::ListItem { children, .. } => {
            let c = children@;
            assert(c == seq![c[0]] + c.skip(1));
            lemma_seq_paras_add(seq![c[0]], c.skip(1));
            lemma_seq_paras_one(c[0]);
        },
        _ => {},
    }
}

/// Whether the last of `children` is a list numbered as `ordered`.
pub open spec fn trailing_list_of(children: Seq<BlockNode>, ordered: bool) -> bool {
    children.len() > 0 && match children.last() {
        BlockNode::List { ordered: o, .. } => o == ordered,
        _ => false,
    }
}

/// Whether `new` is the list `old` with `item` added last.
pub open spec fn list_extended(old: BlockNode, new: BlockNode, item: BlockNode) -> bool {
    match old {
        BlockNode::List { children, ordered } => is_list_of(new, children@.push(item), ordered),
        _ => false,
    }
}

/// Whether the blocks `c` are `children` with `item` put last: into their
/// trailing list when it is numbered as `ordered`, else into a new list of
/// just that item.
pub open spec fn appended_into(children: Seq<BlockNode>, c: Seq<BlockNode>, item: BlockNode, ordered: bool) -> bool {
    if trailing_list_of(children, ordered) {
        &&& c.len() == children.len()
        &&& c.drop_last() == children.drop_last()
        &&& list_extended(children.last(), c.last(), item)
    } else {
        &&& c.len() == children.len() + 1
        &&& c.drop_last() == children
        &&& is_list_of(c.last(), seq![item], ordered)
    }
}

/// Whether `r` is the container block `prev` with `item` nested last in it
/// (see `appended_into`).
pub open spec fn nested_into(prev: BlockNode, r: BlockNode, item: BlockNode, ordered: bool) -> bool {
    match prev {
        BlockNode::List { children, ordered: o } => match r {
            BlockNode::List { children: c, ordered: o2 } => o2 == o && appended_into(children@, c@, item, ordered),
            _ => false,
        },
        BlockNode::ListItem { children, checked, spread } => match r {
            BlockNode::ListItem { children: c, checked: k, spread: sp } => k == checked && sp == spread
                && appended_into(children@, c@, item, ordered),
            _ => false,
        },
        BlockNode::Blockquote { children } => match r {
            BlockNode::Blockquote { children: c } => appended_into(children@, c@, item, ordered),
            _ => false,
        },
        _ => false,
    }
}

/// Whether the blocks `r` are `s` with the item headed by `id`, in the first
/// list that holds it, nested last in the item before it (see
/// `nested_into`); nothing else changes.
pub open spec fn indented(s: Seq<BlockNode>, r: Seq<BlockNode>, id: u64) -> bool
    decreases s,
{
    let k = first_has(s, id);
    &&& 0 <= k < s.len()
    &&& r.len() == s.len()
    &&& forall|i: int| 0 <= i < s.len() && i != k ==> #[trigger] r[i] == s[i]
    &&& node_indented(s[k], r[k], id)
}

/// Whether block `m` is `n` with the item headed by `id` in its tree nested
/// in the item before it.
pub open spec fn node_indented(n: BlockNode, m: BlockNode, id: u64) -> bool
    decreases n,
{
    match n {
        BlockNode::List { children, ordered } => match m {
            BlockNode::List { children: c, ordered: o } => o == ordered && if head_index(children@, id) >= 0 {
                let j = head_index(children@, id);
                &&& j > 0
                &&& c@.len() == children@.len() - 1
                &&& c@.take(j - 1) == children@.take(j - 1)
                &&& c@.skip(j) == children@.skip(j + 1)
                &&& nested_into(children@[j - 1], c@[j - 1], children@[j], ordered)
            } else {
                indented(children@, c@, id)
            },
            _ => false,
        },
        BlockNode::ListItem { children, checked, spread } => match m {
            BlockNode::ListItem { children: c, checked: k, spread: sp } => k == checked && sp == spread && indented(
                children@,
                c@,
                id,
            ),
            _ => false,
        },
        BlockNode::Blockquote { children } => match m {
            BlockNode::Blockquote { children: c } => indented(children@, c@, id),
            _ => false,
        },
        _ => false,
    }
}

/// Put `item` last among the children of `prev`: into its trailing list
/// when that list has the same numbering, else into a new list.
fn nest_into(prev: BlockNode, item: BlockNode, ordered: bool) -> (r: BlockNode)
    requires
        node_children(prev) is Some,
    ensures
        node_paras(r) == node_paras(prev) + node_paras(item),
        nested_into(prev, r, item, ordered),
{
    let ghost iv = node_paras(item);
    let (mut children, shell) = match prev {
        BlockNode::List { children, ordered: o } => (children, BlockNode::List { children: Vec::new(), ordered: o }),
        BlockNode::ListItem { children, checked, spread } => (children, BlockNode::ListItem { children: Vec::new(), checked, spread }),
        BlockNode::Blockquote { children } => (children, BlockNode::Blockquote { children: Vec::new() }),
        _ => {
            proof {
                assert(false);
            }
            return item;
        },
    };
    let ghost cv = children@;
    let n = children.len();
    let joins = n > 0 && match &children[n - 1] {
        BlockNode::List { ordered: o, .. } => *o == ordered,
        _ => false,
    };
    if joins {
        let last = children.pop();
        let ghost rest = children@;
        match last {
            Some(BlockNode::List { children: siblings, ordered: o }) => {
                let ghost sv = siblings@;
                let mut siblings = siblings;
                siblings.push(item);
                let l = BlockNode::List { children: siblings, ordered: o };
                children.push(l);
                proof {
                    lemma_seq_paras_push(sv, item);
                    lemma_seq_paras_push(rest, l);
                    assert(cv == rest.push(cv.last()));
                    lemma_seq_paras_push(rest, cv.last());
                    assert(children@.drop_last() == rest);
                    assert(list_extended(cv.last(), l, item));
                    assert(appended_into(cv, children@, item, ordered));
                }
            },
            _ => {
                proof {
                    assert(false);
                }
            },
        }
    } else {
        let mut one: Vec<BlockNode> = Vec::new();
        one.push(item);
        let l = BlockNode::List { children: one, ordered };
        children.push(l);
        proof {
            lemma_seq_paras_one(item);
            lemma_seq_paras_push(cv, l);
            assert(children@.drop_last() == cv);
            assert(one@ == seq![item]);
            assert(appended_into(cv, children@, item, ordered));
        }
    }
    let r = match shell {
        BlockNode::List { ordered: o, .. } => BlockNode::List { children, ordered: o },
        BlockNode::ListItem { checked, spread, .. } => BlockNode::ListItem { children, checked, spread },
        _ => BlockNode::Blockquote { children },
    };
    r
}

/// The place of the item headed by `id` in the first list of `n` holding it.
pub fn node_item_pos_of(n: &BlockNode, id: u64) -> (r: Option<usize>)
    ensures
        r is Some <==> node_item_pos(*n, id) >= 0,
        r matches Some(k) ==> k == node_item_pos(*n, id),
    decreases *n,
{
    match n {
        BlockNode::List { children, .. } => {
            proof {
                lemma_head_index(children@, id);
            }
            match find_head_item(children, id) {
                Some(j) => Some(j),
                None => {
                    assert(decreases_to!(*n => children));
                    item_pos_of(children, id)
                },
            }
        },
        BlockNode::ListItem { children, .. } => {
            assert(decreases_to!(*n => children));
            item_pos_of(children, id)
        },
        BlockNode::Blockquote { children } => {
            assert(decreases_to!(*n => children));
            item_pos_of(children, id)
        },
        _ => None,
    }
}

/// The place of the item headed by `id` in the first list holding it.
pub fn item_pos_of(nodes: &Vec<BlockNode>, id: u64) -> (r: Option<usize>)
    ensures
        r is Some <==> seq_item_pos(nodes@, id) >= 0,
        r matches Some(k) ==> k == seq_item_pos(nodes@, id),
    decreases nodes@,
{
    proof {
        lemma_first_has(nodes@, id);
    }
    match first_has_of(nodes, id) {
        Some(k) => {
            assert(decreases_to!(nodes@ => nodes@[k as int]));
            node_item_pos_of(&nodes[k], id)
        },
        None => None,
    }
}

/// Nest the item headed by `id` under the item before it in its list; the
/// paragraphs keep their order.
#[verifier::spinoff_prover]
#[verifier::rlimit(60)]
pub fn indent_item(nodes: Vec<BlockNode>, id: u64) -> (r: Vec<BlockNode>)
    requires
        can_indent(nodes@, id),
    ensures
        seq_paras(r@) == seq_paras(nodes@),
        indented(nodes@, r@, id),
    decreases nodes@,
{
    let ghost orig = nodes@;
    proof {
        lemma_first_has(orig, id);
    }
    let k = match first_has_of(&nodes, id) {
        Some(k) => k,
        None => {
            return nodes;
        },
    };
    let mut front = nodes;
    let len = front.len();
    assert(k < len);
    let mut tail = front.split_off(k + 1);
    let node = match front.pop() {
        Some(x) => x,
        None => {
            proof {
                assert(false);
            }
            return front;
        },
    };
    let ghost pre = front@;
    let ghost post = tail@;
    proof {
        assert(node == orig[k as int]);
        assert(pre == orig.take(k as int));
        assert(post == orig.skip(k + 1));
        assert(decreases_to!(orig => node));
        assert(orig == pre + seq![node] + post);
    }
    let new_node = match node {
        BlockNode::List { children, ordered } => {
            match find_head_item(&children, id) {
                Some(j) => {
                    proof {
                        lemma_head_index(children@, id);
                    }
                    let ghost all = children@;
                    let mut items = children;
                    let item = items.remove(j);
                    let prev = items.remove(j - 1);
                    let ghost rest = items@;
                    proof {
                        assert(all == rest.take(j - 1) + seq![prev] + seq![item] + rest.skip(j - 1));
                    }
                    let nested = nest_into(prev, item, ordered);
                    items.insert(j - 1, nested);
                    proof {
                        assert(items@ == rest.take(j - 1) + seq![nested] + rest.skip(j - 1));
                        lemma_paras3(rest.take(j - 1), seq![nested], rest.skip(j - 1));
                        lemma_seq_paras_one(nested);
                        lemma_paras3(rest.take(j - 1) + seq![prev], seq![item], rest.skip(j - 1));
                        lemma_seq_paras_add(rest.take(j - 1), seq![prev]);
                        lemma_seq_paras_one(prev);
                        lemma_seq_paras_one(item);
                        assert(items@.take(j - 1) == all.take(j - 1));
                        assert(items@.skip(j as int) == all.skip(j + 1));
                        assert(prev == all[j - 1] && item == all[j as int]);
                    }
                    BlockNode::List { children: items, ordered }
                },
                None => {
                    assert(decreases_to!(node => children));
                    let c = indent_item(children, id);
                    BlockNode::List { children: c, ordered }
                },
            }
        },
        BlockNode::ListItem { children, checked, spread } => {
            assert(decreases_to!(node => children));
            let c = indent_item(children, id);
            BlockNode::ListItem { children: c, checked, spread }
        },
        BlockNode::Blockquote { children } => {
            assert(decreases_to!(node => children));
            let c = indent_item(children, id);
            BlockNode::Blockquote { children: c }
        },
        other => {
            proof {
                assert(false);
            }
            other
        },
    };
    let mut out = front;
    out.push(new_node);
    out.append(&mut tail);
    proof {
        assert(out@ == pre + seq![new_node] + post);
        lemma_paras3(pre, seq![new_node], post);
        lemma_seq_paras_one(new_node);
        lemma_paras3(pre, seq![node], post);
        lemma_seq_paras_one(node);
        assert(out@[k as int] == new_node);
        assert(node_indented(node, new_node, id));
        assert forall|i: int| 0 <= i < orig.len() && i != k implies #[trigger] out@[i] == orig[i] by {
            if i < k {
                assert(out@[i] == pre[i]);
            } else {
                assert(out@[i] == post[i - k - 1]);
            }
        }
    }
    out
}

/// Where the item headed by `id` sits among the trees of `c`, the children
/// of a block that is an item of a list when `p`, and a list itself when
/// `is_list`: -1 when no list holds it, 1 when the list holding it is a
/// child of an item of an outer list, else 0.
pub open spec fn inner_loc(c: Seq<BlockNode>, id: u64, p: bool, is_list: bool) -> int
    decreases c,
{
    let k = first_has(c, id);
    if 0 <= k < c.len() {
        if p && lists_item(c[k], id) {
            1
        } else {
            node_loc(c[k], id, is_list)
        }
    } else {
        -1
    }
}

/// Where the item headed by `id` sits in the tree of `n`, an item of a list
/// when `p` (see `inner_loc`).
pub open spec fn node_loc(n: BlockNode, id: u64, p: bool) -> int
    decreases n,
{
    if lists_item(n, id) {
        0
    } else {
        match n {
            BlockNode::List { children, .. } => inner_loc(children@, id, p, true),
            BlockNode::ListItem { children, .. } => inner_loc(children@, id, p, false),
            BlockNode::Blockquote { children } => inner_loc(children@, id, p, false),
            _ => -1,
        }
    }
}

/// Whether the item headed by `id` is in a list nested in an item of an
/// outer list.
pub open spec fn is_nested(blocks: Seq<BlockNode>, id: u64) -> bool {
    inner_loc(blocks, id, false, false) == 1
}

/// `inner_loc` computed.
pub fn inner_loc_of(c: &Vec<BlockNode>, id: u64, p: bool, is_list: bool) -> (r: i8)
    ensures
        r == inner_loc(c@, id, p, is_list),
    decreases c@,
{
    proof {
        lemma_first_has(c@, id);
    }
    match first_has_of(c, id) {
        Some(k) => {
            let here = match &c[k] {
                BlockNode::List { children, .. } => find_head_item(children, id).is_some(),
                _ => false,
            };
            if p && here {
                1
            } else {
                assert(decreases_to!(c@ => c@[k as int]));
                node_loc_of(&c[k], id, is_list)
            }
        },
        None => -1,
    }
}

/// `node_loc` computed.
pub fn node_loc_of(n: &BlockNode, id: u64, p: bool) -> (r: i8)
    ensures
        r == node_loc(*n, id, p),
    decreases *n,
{
    match n {
        BlockNode::List { children, .. } => {
            if find_head_item(children, id).is_some() {
                0
            } else {
                assert(decreases_to!(*n => children));
                inner_loc_of(children, id, p, true)
            }
        },
        BlockNode::ListItem { children, .. } => {
            assert(decreases_to!(*n => children));
            inner_loc_of(children, id, p, false)
        },
        BlockNode::Blockquote { children } => {
            assert(decreases_to!(*n => children));
            inner_loc_of(children, id, p, false)
        },
        _ => -1,
    }
}

/// Promote the item headed by `id` out of its nested list. Within the
/// trees of `c` (see `inner_loc`), the item leaves its list, taking the
/// items after it along as its own nested list; the list goes when it is
/// left empty. When the outer list is the one `c` belongs to, the item is
/// handed back for the caller to place; else it is placed right after the
/// item of the outer list that held its list.
#[verifier::spinoff_prover]
#[verifier::rlimit(60)]
pub fn outdent_in(c: Vec<BlockNode>, id: u64, p: bool, is_list: bool) -> (r: (Vec<BlockNode>, Option<BlockNode>))
    requires
        inner_loc(c@, id, p, is_list) == 1,
    ensures
        r.1 is Some ==> p,
        r.1 matches Some(item) ==> {
            &&& node_paras(item).len() > 0
            &&& node_paras(item)[0].id == id
            &&& pulled(seq_paras(c@), seq_paras(r.0@), node_paras(item))
        },
        r.1 is None ==> swapped(seq_paras(c@), seq_paras(r.0@), id),
        seq_outdented(c@, r.0@, id, p, is_list, r.1),
    decreases c@,
{
    let ghost orig = c@;
    proof {
        lemma_first_has(orig, id);
    }
    let k = match first_has_of(&c, id) {
        Some(k) => k,
        None => {
            return (c, None);
        },
    };
    let mut front = c;
    let len = front.len();
    assert(k < len);
    let mut tail = front.split_off(k + 1);
    let node = match front.pop() {
        Some(x) => x,
        None => {
            proof {
                assert(false);
            }
            return (front, None);
        },
    };
    let ghost pre = front@;
    let ghost post = tail@;
    proof {
        assert(node == orig[k as int]);
        assert(pre == orig.take(k as int));
        assert(post == orig.skip(k + 1));
        assert(decreases_to!(orig => node));
        assert(orig == pre + seq![node] + post);
        lemma_paras3(pre, seq![node], post);
        lemma_seq_paras_one(node);
    }
    let here = match &node {
        BlockNode::List { children, .. } => find_head_item(children, id).is_some(),
        _ => false,
    };
    if p && here {
        let (rem, promoted) = take_item(node, id);
        let mut out = front;
        match rem {
            Some(l) => {
                out.push(l);
                proof {
                    lemma_seq_paras_push(pre, l);
                }
            },
            None => {
                assert(seq_paras(pre) + Seq::<ParaView>::empty() == seq_paras(pre));
            },
        }
        let ghost o1 = out@;
        out.append(&mut tail);
        proof {
            lemma_seq_paras_add(o1, post);
            let q = seq_paras(o1);
            assert(seq_paras(orig) == q + node_paras(promoted) + seq_paras(post));
            assert(seq_paras(out@) == q + seq_paras(post));
            let t = orig.len() - k - 1;
            assert(o1 == pre + opt_seq(rem));
            assert(out@ == pre + opt_seq(rem) + post);
            assert(out@.take(k as int) == pre);
            assert(out@.skip(out@.len() - t) == post);
            assert(out@.subrange(k as int, out@.len() - t) == opt_seq(rem));
            assert(lists_item(node, id));
        }
        (out, Some(promoted))
    } else {
        let ghost np = node_paras(node);
        let (new_node, promoted) = outdent_node(node, id, is_list);
        let ghost nn = node_paras(new_node);
        let mut out = front;
        out.push(new_node);
        match promoted {
            Some(item) => {
                // `c` are the items of the outer list: the item goes after
                // the one that held its list.
                let ghost ip = node_paras(item);
                out.push(item);
                let ghost o1 = out@;
                out.append(&mut tail);
                proof {
                    assert(o1 == pre + seq![new_node] + seq![item]);
                    lemma_seq_paras_add(pre + seq![new_node], seq![item]);
                    lemma_seq_paras_add(pre, seq![new_node]);
                    lemma_seq_paras_one(new_node);
                    lemma_seq_paras_one(item);
                    lemma_seq_paras_add(o1, post);
                    lemma_pulled_placed(seq_paras(pre), np, nn, ip, seq_paras(post), id);
                    assert(seq_paras(out@) == seq_paras(pre) + nn + ip + seq_paras(post));
                    let t = orig.len() - k - 1;
                    assert(out@ == pre + seq![new_node, item] + post);
                    assert(out@.take(k as int) == pre);
                    assert(out@.skip(out@.len() - t) == post);
                    assert(out@[k as int] == new_node && out@[k + 1] == item);
                }
                (out, None)
            },
            None => {
                out.append(&mut tail);
                proof {
                    assert(out@ == pre + seq![new_node] + post);
                    lemma_paras3(pre, seq![new_node], post);
                    lemma_seq_paras_one(new_node);
                    lemma_swapped_in(seq_paras(pre), np, nn, seq_paras(post), id);
                    let t = orig.len() - k - 1;
                    assert(out@.take(k as int) == pre);
                    assert(out@.skip(out@.len() - t) == post);
                    assert(out@[k as int] == new_node);
                }
                (out, None)
            },
        }
    }
}

/// Whether `item` is the list item `old` with the items `trailing` nested
/// last under it as a list numbered as `ordered`, when there are any.
pub open spec fn carries(old: BlockNode, item: BlockNode, trailing: Seq<BlockNode>, ordered: bool) -> bool {
    match old {
        BlockNode::ListItem { children, checked, spread } => match item {
            BlockNode::ListItem { children: c, checked: k, spread: sp } => k == checked && sp == spread && if trailing.len()
                == 0 {
                c@ == children@
            } else {
                &&& c@.len() == children@.len() + 1
                &&& c@.drop_last() == children@
                &&& is_list_of(c@.last(), trailing, ordered)
            },
            _ => false,
        },
        _ => false,
    }
}

/// Whether taking the item headed by `id` out of `list` leaves the blocks
/// `rest` (a list of the items before it, or nothing when there are none)
/// and gives `item`, which carries the items after it (see `carries`).
pub open spec fn taken(list: BlockNode, rest: Seq<BlockNode>, item: BlockNode, id: u64) -> bool {
    match list {
        BlockNode::List { children, ordered } => {
            let j = head_index(children@, id);
            &&& 0 <= j < children@.len()
            &&& if j == 0 {
                rest.len() == 0
            } else {
                rest.len() == 1 && is_list_of(rest[0], children@.take(j), ordered)
            }
            &&& carries(children@[j], item, children@.skip(j + 1), ordered)
        },
        _ => false,
    }
}

/// Whether the blocks `r` are the trees `c` (see `inner_loc` for `p` and
/// `is_list`) after the item headed by `id` is promoted out of its nested
/// list. When the list holding it is one of `c`, the item leaves it (see
/// `taken`) and is handed up as `handed`; else the block holding it changes
/// in its tree, and when that block hands the item up, the item follows it.
pub open spec fn seq_outdented(c: Seq<BlockNode>, r: Seq<BlockNode>, id: u64, p: bool, is_list: bool, handed: Option<BlockNode>) -> bool
    decreases c,
{
    let k = first_has(c, id);
    let t = c.len() - k - 1;
    &&& 0 <= k < c.len()
    &&& k + t <= r.len()
    &&& r.take(k) == c.take(k)
    &&& r.skip(r.len() - t) == c.skip(k + 1)
    &&& if p && lists_item(c[k], id) {
        handed is Some && taken(c[k], r.subrange(k, r.len() - t), handed.unwrap(), id)
    } else {
        &&& handed is None
        &&& r.len() - t - k == 1 || r.len() - t - k == 2
        &&& r.len() - t - k == 1 ==> node_outdented(c[k], r[k], id, is_list, None)
        &&& r.len() - t - k == 2 ==> node_outdented(c[k], r[k], id, is_list, Some(r[k + 1]))
    }
}

/// Whether block `m` is `n`, a child of a list when `p`, after the item
/// headed by `id` in its tree is promoted out of its nested list, handing
/// it up as `handed` (see `seq_outdented`).
pub open spec fn node_outdented(n: BlockNode, m: BlockNode, id: u64, p: bool, handed: Option<BlockNode>) -> bool
    decreases n,
{
    match n {
        BlockNode::List { children, ordered } => match m {
            BlockNode::List { children: c, ordered: o } => o == ordered && seq_outdented(children@, c@, id, p, true, handed),
            _ => false,
        },
        BlockNode::ListItem { children, checked, spread } => match m {
            BlockNode::ListItem { children: c, checked: k, spread: sp } => k == checked && sp == spread
                && seq_outdented(children@, c@, id, p, false, handed),
            _ => false,
        },
        BlockNode::Blockquote { children } => match m {
            BlockNode::Blockquote { children: c } => seq_outdented(children@, c@, id, p, false, handed),
            _ => false,
        },
        _ => false,
    }
}

/// Whether `new` is `old` with the run `y` taken out.
pub open spec fn pulled(old: Seq<ParaView>, new: Seq<ParaView>, y: Seq<ParaView>) -> bool {
    exists|pre: Seq<ParaView>, x: Seq<ParaView>| old == pre + y + x && new == pre + x
}

/// Whether `new` is `old` with a run that starts with paragraph `id` moved
/// past the run right after it.
pub open spec fn swapped(old: Seq<ParaView>, new: Seq<ParaView>, id: u64) -> bool {
    exists|pre: Seq<ParaView>, x: Seq<ParaView>, y: Seq<ParaView>, post: Seq<ParaView>|
        old == pre + y + x + post && new == pre + x + y + post && y.len() > 0 && y[0].id == id
}

pub proof fn lemma_swapped_in(a: Seq<ParaView>, old: Seq<ParaView>, new: Seq<ParaView>, b: Seq<ParaView>, id: u64)
    requires
        swapped(old, new, id),
    ensures
        swapped(a + old + b, a + new + b, id),
{
    let (pre, x, y, post) = choose|pre: Seq<ParaView>, x: Seq<ParaView>, y: Seq<ParaView>, post: Seq<ParaView>|
        old == pre + y + x + post && new == pre + x + y + post && y.len() > 0 && y[0].id == id;
    assert(a + old + b == (a + pre) + y + x + (post + b));
    assert(a + new + b == (a + pre) + x + y + (post + b));
}

pub proof fn lemma_pulled_placed(a: Seq<ParaView>, old: Seq<ParaView>, new: Seq<ParaView>, y: Seq<ParaView>, b: Seq<ParaView>, id: u64)
    requires
        pulled(old, new, y),
        y.len() > 0,
        y[0].id == id,
    ensures
        swapped(a + old + b, a + new + y + b, id),
{
    let (pre, x) = choose|pre: Seq<ParaView>, x: Seq<ParaView>| old == pre + y + x && new == pre + x;
    assert(a + old + b == (a + pre) + y + x + b);
    assert(a + new + y + b == (a + pre) + x + y + b);
}

/// A block that may be gone, as a run of blocks.
pub open spec fn opt_seq(o: Option<BlockNode>) -> Seq<BlockNode> {
    match o {
        Some(n) => seq![n],
        None => seq![],
    }
}

/// The paragraphs of a block that may be gone.
pub open spec fn opt_paras(o: Option<BlockNode>) -> Seq<ParaView> {
    match o {
        Some(n) => node_paras(n),
        None => seq![],
    }
}

/// Take the item headed by `id` out of `list`, with the items after it
/// nested under it as a list of the same numbering. Returns what is left
/// of the list (nothing when it is left empty) and the item.
fn take_item(list: BlockNode, id: u64) -> (r: (Option<BlockNode>, BlockNode))
    requires
        lists_item(list, id),
    ensures
        node_paras(list) == opt_paras(r.0) + node_paras(r.1),
        node_paras(r.1).len() > 0,
        node_paras(r.1)[0].id == id,
        taken(list, opt_seq(r.0), r.1, id),
{
    match list {
        BlockNode::List { children, ordered } => {
            proof {
                lemma_head_index(children@, id);
            }
            let j = match find_head_item(&children, id) {
                Some(j) => j,
                None => {
                    proof {
                        assert(false);
                    }
                    return (None, BlockNode::List { children, ordered });
                },
            };
            let ghost all = children@;
            let mut items = children;
            let ilen = items.len();
            assert(j < ilen);
            let trailing = items.split_off(j + 1);
            let item = match items.pop() {
                Some(x) => x,
                None => {
                    proof {
                        assert(false);
                    }
                    return (None, BlockNode::List { children: trailing, ordered });
                },
            };
            let ghost bv = items@;
            let ghost tv = trailing@;
            proof {
                assert(item == all[j as int]);
                assert(bv == all.take(j as int));
                assert(tv == all.skip(j + 1));
                lemma_seq_paras_split3(all, j as int);
                lemma_head_para(item, id);
            }
            let ghost ip = node_paras(item);
            let promoted = if trailing.len() > 0 {
                match item {
                    BlockNode::ListItem { children: ic, checked, spread } => {
                        let ghost icv = ic@;
                        let mut ic = ic;
                        let l = BlockNode::List { children: trailing, ordered };
                        ic.push(l);
                        proof {
                            lemma_seq_paras_push(icv, l);
                            assert(icv.len() > 0);
                            assert(ic@[0] == icv[0]);
                            assert(seq_paras(icv).len() > 0 && seq_paras(icv)[0].id == id);
                            assert((seq_paras(icv) + seq_paras(tv))[0] == seq_paras(icv)[0]);
                            assert(ic@.drop_last() == icv);
                            assert(is_list_of(ic@.last(), tv, ordered));
                        }
                        BlockNode::ListItem { children: ic, checked, spread }
                    },
                    other => {
                        proof {
                            assert(false);
                        }
                        other
                    },
                }
            } else {
                proof {
                    assert(seq_paras(tv) == Seq::<ParaView>::empty());
                    assert(ip + seq_paras(tv) == ip);
                }
                item
            };
            assert(node_paras(promoted) == ip + seq_paras(tv));
            assert(carries(all[j as int], promoted, tv, ordered));
            if items.len() > 0 {
                let rest = BlockNode::List { children: items, ordered };
                assert(opt_seq(Some(rest))[0] == rest);
                (Some(rest), promoted)
            } else {
                assert(seq_paras(bv) == Seq::<ParaView>::empty());
                (None, promoted)
            }
        },
        other => {
            proof {
                assert(false);
            }
            (None, other)
        },
    }
}

/// `outdent_in` on the children of `n`, an item of a list when `p`.
pub fn outdent_node(n: BlockNode, id: u64, p: bool) -> (r: (BlockNode, Option<BlockNode>))
    requires
        node_loc(n, id, p) == 1,
    ensures
        r.1 is Some ==> p,
        r.1 matches Some(item) ==> {
            &&& node_paras(item).len() > 0
            &&& node_paras(item)[0].id == id
            &&& pulled(node_paras(n), node_paras(r.0), node_paras(item))
        },
        r.1 is None ==> swapped(node_paras(n), node_paras(r.0), id),
        node_outdented(n, r.0, id, p, r.1),
    decreases n,
{
    match n {
        BlockNode::List { children, ordered } => {
            assert(decreases_to!(n => children));
            let (c, prom) = outdent_in(children, id, p, true);
            (BlockNode::List { children: c, ordered }, prom)
        },
        BlockNode::ListItem { children, checked, spread } => {
            assert(decreases_to!(n => children));
            let (c, prom) = outdent_in(children, id, p, false);
            (BlockNode::ListItem { children: c, checked, spread }, prom)
        },
        BlockNode::Blockquote { children } => {
            assert(decreases_to!(n => children));
            let (c, prom) = outdent_in(children, id, p, false);
            (BlockNode::Blockquote { children: c }, prom)
        },
        other => {
            proof {
                assert(false);
            }
            (other, None)
        },
    }
}

/// The item headed by `id` in the first list of the trees of `s` holding it.
pub open spec fn seq_item(s: Seq<BlockNode>, id: u64) -> Option<BlockNode>
    decreases s,
{
    let k = first_has(s, id);
    if 0 <= k < s.len() {
        node_item(s[k], id)
    } else {
        None
    }
}

/// The item headed by `id` in the first list of the tree of `n` holding it.
pub open spec fn node_item(n: BlockNode, id: u64) -> Option<BlockNode>
    decreases n,
{
    match n {
        BlockNode::List { children, .. } => if 0 <= head_index(children@, id) < children@.len() {
            Some(children@[head_index(children@, id)])
        } else {
            seq_item(children@, id)
        },
        BlockNode::ListItem { children, .. } => seq_item(children@, id),
        BlockNode::Blockquote { children } => seq_item(children@, id),
        _ => None,
    }
}

/// The task state of an item, if it is one.
pub open spec fn task_of(item: Option<BlockNode>) -> Option<bool> {
    match item {
        Some(BlockNode::ListItem { checked, .. }) => checked,
        _ => None,
    }
}

/// The first block holding the item is found where it is.
proof fn lemma_first_at(s: Seq<BlockNode>, id: u64, k: int)
    requires
        0 <= k < s.len(),
        node_has_item(s[k], id),
        forall|j: int| 0 <= j < k ==> !node_has_item(#[trigger] s[j], id),
    ensures
        first_has(s, id) == k,
        seq_has_item(s, id),
{
    lemma_first_has(s, id);
    let f = first_has(s, id);
    if f < 0 {
        assert(!node_has_item(s[k], id));
    } else if f < k {
        assert(!node_has_item(s[f], id));
    } else if f > k {
        assert(!node_has_item(s[k], id));
    }
}

/// The first item headed by `id` is found where it is.
proof fn lemma_head_at(items: Seq<BlockNode>, id: u64, j: int)
    requires
        0 <= j < items.len(),
        is_head_item(items[j], id),
        forall|i: int| 0 <= i < j ==> !is_head_item(#[trigger] items[i], id),
    ensures
        head_index(items, id) == j,
{
    lemma_head_index(items, id);
    let h = head_index(items, id);
    if h < 0 {
        assert(!is_head_item(items[j], id));
    } else if h < j {
        assert(!is_head_item(items[h], id));
    } else if h > j {
        assert(!is_head_item(items[j], id));
    }
}

/// Whether `n` is a bullet list of one task item, done when `checked`,
/// holding just `inner`.
pub open spec fn wraps_task(n: BlockNode, inner: BlockNode, checked: bool) -> bool {
    match n {
        BlockNode::List { children, ordered } => {
            &&& !ordered
            &&& children@.len() == 1
            &&& match children@[0] {
                BlockNode::ListItem { children: c, checked: k, spread } => k == Some(checked) && !spread && c@ == seq![
                    inner,
                ],
                _ => false,
            }
        },
        _ => false,
    }
}

/// Whether `new` is the list item `item` made a task, done when `checked`.
pub open spec fn task_set(item: BlockNode, new: BlockNode, checked: bool) -> bool {
    match item {
        BlockNode::ListItem { children, spread, .. } => match new {
            BlockNode::ListItem { children: c, checked: k, spread: sp } => c@ == children@ && sp == spread && k == Some(
                checked,
            ),
            _ => false,
        },
        _ => false,
    }
}

/// Whether the blocks `r` are `s` with the item headed by `id` in the first
/// list that holds it made a task, done when `checked`; nothing else changes.
pub open spec fn tasked(s: Seq<BlockNode>, r: Seq<BlockNode>, id: u64, checked: bool) -> bool
    decreases s,
{
    let k = first_has(s, id);
    &&& 0 <= k < s.len()
    &&& r.len() == s.len()
    &&& forall|i: int| 0 <= i < s.len() && i != k ==> #[trigger] r[i] == s[i]
    &&& node_tasked(s[k], r[k], id, checked)
}

/// Whether block `m` is `n` with the item headed by `id` in its tree made a
/// task, done when `checked`.
pub open spec fn node_tasked(n: BlockNode, m: BlockNode, id: u64, checked: bool) -> bool
    decreases n,
{
    match n {
        BlockNode::List { children, ordered } => match m {
            BlockNode::List { children: c, ordered: o } => o == ordered && if head_index(children@, id) >= 0 {
                let j = head_index(children@, id);
                &&& c@.len() == children@.len()
                &&& forall|i: int| 0 <= i < c@.len() && i != j ==> #[trigger] c@[i] == children@[i]
                &&& task_set(children@[j], c@[j], checked)
            } else {
                tasked(children@, c@, id, checked)
            },
            _ => false,
        },
        BlockNode::ListItem { children, checked: k, spread } => match m {
            BlockNode::ListItem { children: c, checked: k2, spread: sp } => k2 == k && sp == spread && tasked(
                children@,
                c@,
                id,
                checked,
            ),
            _ => false,
        },
        BlockNode::Blockquote { children } => match m {
            BlockNode::Blockquote { children: c } => tasked(children@, c@, id, checked),
            _ => false,
        },
        _ => false,
    }
}

/// Make the item headed by `id` a task, done when `checked`.
pub fn set_task(nodes: Vec<BlockNode>, id: u64, checked: bool) -> (r: Vec<BlockNode>)
    requires
        seq_has_item(nodes@, id),
    ensures
        seq_paras(r@) == seq_paras(nodes@),
        seq_has_item(r@, id),
        task_of(seq_item(r@, id)) == Some(checked),
        r@.len() == nodes@.len(),
        forall|j: int| 0 <= j < r@.len() ==> node_paragraph(#[trigger] r@[j]) == node_paragraph(nodes@[j])
            && is_head_item(r@[j], id) == is_head_item(nodes@[j], id),
        tasked(nodes@, r@, id, checked),
    decreases nodes@,
{
    let ghost orig = nodes@;
    proof {
        lemma_first_has(orig, id);
    }
    let k = match first_has_of(&nodes, id) {
        Some(k) => k,
        None => {
            return nodes;
        },
    };
    let mut front = nodes;
    let len = front.len();
    assert(k < len);
    let mut tail = front.split_off(k + 1);
    let node = match front.pop() {
        Some(x) => x,
        None => {
            proof {
                assert(false);
            }
            return front;
        },
    };
    let ghost pre = front@;
    let ghost post = tail@;
    proof {
        assert(node == orig[k as int]);
        assert(pre == orig.take(k as int));
        assert(post == orig.skip(k + 1));
        assert(decreases_to!(orig => node));
        assert(orig == pre + seq![node] + post);
    }
    let new_node = match node {
        BlockNode::List { children, ordered } => {
            proof {
                lemma_head_index(children@, id);
            }
            match find_head_item(&children, id) {
                Some(j) => {
                    let ghost all = children@;
                    let mut items = children;
                    let item = items.remove(j);
                    let new_item = match item {
                        BlockNode::ListItem { children: c, spread, .. } => BlockNode::ListItem { children: c, checked: Some(checked), spread },
                        other => {
                            proof {
                                assert(false);
                            }
                            other
                        },
                    };
                    items.insert(j, new_item);
                    proof {
                        assert(items@ == all.update(j as int, new_item));
                        assert forall|i: int| 0 <= i < j implies !is_head_item(#[trigger] items@[i], id) by {
                            assert(items@[i] == all[i]);
                        }
                        lemma_head_at(items@, id, j as int);
                        assert(all == all.take(j as int) + seq![all[j as int]] + all.skip(j + 1));
                        assert(items@ == all.take(j as int) + seq![new_item] + all.skip(j + 1));
                        lemma_paras3(all.take(j as int), seq![all[j as int]], all.skip(j + 1));
                        lemma_paras3(all.take(j as int), seq![new_item], all.skip(j + 1));
                        lemma_seq_paras_one(new_item);
                        lemma_seq_paras_one(all[j as int]);
                    }
                    BlockNode::List { children: items, ordered }
                },
                None => {
                    assert(decreases_to!(node => children));
                    let ghost cv = children@;
                    let c = set_task(children, id, checked);
                    proof {
                        assert forall|i: int| 0 <= i < c@.len() implies !is_head_item(#[trigger] c@[i], id) by {
                            assert(!is_head_item(cv[i], id));
                        }
                        lemma_head_index(c@, id);
                    }
                    BlockNode::List { children: c, ordered }
                },
            }
        },
        BlockNode::ListItem { children, checked: ck, spread } => {
            assert(decreases_to!(node => children));
            let ghost cv = children@;
            let c = set_task(children, id, checked);
            proof {
                if cv.len() > 0 {
                    assert(node_paragraph(c@[0]) == node_paragraph(cv[0]));
                }
            }
            BlockNode::ListItem { children: c, checked: ck, spread }
        },
        BlockNode::Blockquote { children } => {
            assert(decreases_to!(node => children));
            let c = set_task(children, id, checked);
            BlockNode::Blockquote { children: c }
        },
        other => {
            proof {
                assert(false);
            }
            other
        },
    };
    let mut out = front;
    out.push(new_node);
    out.append(&mut tail);
    proof {
        assert(out@ == pre + seq![new_node] + post);
        lemma_paras3(pre, seq![new_node], post);
        lemma_seq_paras_one(new_node);
        lemma_paras3(pre, seq![node], post);
        lemma_seq_paras_one(node);
        assert forall|j: int| 0 <= j < k implies !node_has_item(#[trigger] out@[j], id) by {
            assert(out@[j] == orig[j]);
        }
        assert(out@[k as int] == new_node);
        lemma_first_at(out@, id, k as int);
        assert(node_tasked(node, new_node, id, checked));
        assert forall|i: int| 0 <= i < orig.len() && i != k implies #[trigger] out@[i] == orig[i] by {
            if i < k {
                assert(out@[i] == pre[i]);
            } else {
                assert(out@[i] == post[i - k - 1]);
            }
        }
    }
    out
}

/// The block at `path` among the trees of `s`: an index into `s`, then into
/// the children of that block, and so on.
pub open spec fn node_at(s: Seq<BlockNode>, path: Seq<usize>) -> Option<BlockNode>
    decreases path.len(),
{
    if path.len() == 0 || path[0] >= s.len() {
        None
    } else if path.len() == 1 {
        Some(s[path[0] as int])
    } else {
        match node_children(s[path[0] as int]) {
            Some(c) => node_at(c, path.drop_first()),
            None => None,
        }
    }
}

/// Whether `path` leads to a list whose item `ix` is headed by `id`.
pub open spec fn path_to_item(s: Seq<BlockNode>, path: Seq<usize>, ix: usize, id: u64) -> bool {
    match node_at(s, path) {
        Some(BlockNode::List { children, .. }) => head_index(children@, id) == ix && ix < children@.len(),
        _ => false,
    }
}

/// The path to the first list holding the item headed by `id`, and the
/// item's place in it.
pub fn item_path(nodes: &Vec<BlockNode>, id: u64) -> (r: Option<(Vec<usize>, usize)>)
    ensures
        r is Some <==> seq_has_item(nodes@, id),
        r matches Some((path, ix)) ==> path_to_item(nodes@, path@, ix, id) && ix == seq_item_pos(nodes@, id),
    decreases nodes@,
{
    proof {
        lemma_first_has(nodes@, id);
    }
    let k = match first_has_of(nodes, id) {
        Some(k) => k,
        None => {
            return None;
        },
    };
    assert(decreases_to!(nodes@ => nodes@[k as int]));
    let sub = match &nodes[k] {
        BlockNode::List { children, .. } => {
            proof {
                lemma_head_index(children@, id);
            }
            match find_head_item(children, id) {
                Some(j) => {
                    let mut path: Vec<usize> = Vec::new();
                    path.push(k);
                    return Some((path, j));
                },
                None => {
                    assert(decreases_to!(nodes@[k as int] => children));
                    item_path(children, id)
                },
            }
        },
        BlockNode::ListItem { children, .. } => {
            assert(decreases_to!(nodes@[k as int] => children));
            item_path(children, id)
        },
        BlockNode::Blockquote { children } => {
            assert(decreases_to!(nodes@[k as int] => children));
            item_path(children, id)
        },
        _ => None,
    };
    match sub {
        Some((rest, j)) => {
            let mut path: Vec<usize> = Vec::new();
            path.push(k);
            let ghost rv = rest@;
            let mut rest = rest;
            path.append(&mut rest);
            proof {
                assert(path@.drop_first() == rv);
                assert(rv.len() > 0) by {
                    if rv.len() == 0 {
                        assert(node_at(seq![], rv) is None);
                    }
                }
            }
            Some((path, j))
        },
        None => None,
    }
}

/// The items of the first list of `n` holding the item headed by `id`.
fn node_item_list_of(n: &BlockNode, id: u64) -> (r: Option<&Vec<BlockNode>>)
    ensures
        r matches Some(l) ==> l@ == node_item_list(*n, id),
        r is Some <==> node_item_pos(*n, id) >= 0,
    decreases *n,
{
    match n {
        BlockNode::List { children, .. } => {
            proof {
                lemma_head_index(children@, id);
            }
            match find_head_item(children, id) {
                Some(_) => Some(children),
                None => {
                    assert(decreases_to!(*n => children));
                    item_list_of(children, id)
                },
            }
        },
        BlockNode::ListItem { children, .. } => {
            assert(decreases_to!(*n => children));
            item_list_of(children, id)
        },
        BlockNode::Blockquote { children } => {
            assert(decreases_to!(*n => children));
            item_list_of(children, id)
        },
        _ => None,
    }
}

/// The items of the first list holding the item headed by `id`.
fn item_list_of(nodes: &Vec<BlockNode>, id: u64) -> (r: Option<&Vec<BlockNode>>)
    ensures
        r matches Some(l) ==> l@ == seq_item_list(nodes@, id),
        r is Some <==> seq_item_pos(nodes@, id) >= 0,
    decreases nodes@,
{
    proof {
        lemma_first_has(nodes@, id);
    }
    match first_has_of(nodes, id) {
        Some(k) => {
            assert(decreases_to!(nodes@ => nodes@[k as int]));
            node_item_list_of(&nodes[k], id)
        },
        None => None,
    }
}

/// Whether the item headed by `id` may be nested under the one before it:
/// there is one, and it can hold blocks.
pub fn can_indent_of(nodes: &Vec<BlockNode>, id: u64) -> (r: bool)
    ensures
        r == can_indent(nodes@, id),
{
    proof {
        lemma_first_has(nodes@, id);
    }
    let pos = match item_pos_of(nodes, id) {
        Some(p) => p,
        None => {
            return false;
        },
    };
    if pos == 0 {
        return false;
    }
    let items = match item_list_of(nodes, id) {
        Some(l) => l,
        None => {
            return false;
        },
    };
    proof {
        lemma_item_pos_in_list(nodes@, id);
    }
    match &items[pos - 1] {
        BlockNode::List { .. } | BlockNode::ListItem { .. } | BlockNode::Blockquote { .. } => true,
        _ => false,
    }
}

/// The place of the item lies within the items of its list.
proof fn lemma_item_pos_in_list(s: Seq<BlockNode>, id: u64)
    ensures
        seq_item_pos(s, id) < seq_item_list(s, id).len(),
    decreases s,
{
    let k = first_has(s, id);
    if 0 <= k < s.len() {
        lemma_node_item_pos_in_list(s[k], id);
    }
}

proof fn lemma_node_item_pos_in_list(n: BlockNode, id: u64)
    ensures
        node_item_pos(n, id) < node_item_list(n, id).len(),
    decreases n,
{
    match n {
        BlockNode::List { children, .. } => {
            lemma_head_index(children@, id);
            if head_index(children@, id) < 0 {
                lemma_item_pos_in_list(children@, id);
            }
        },
        BlockNode::ListItem { children, .. } => lemma_item_pos_in_list(children@, id),
        BlockNode::Blockquote { children } => lemma_item_pos_in_list(children@, id),
        _ => {},
    }
}

} // verus!
