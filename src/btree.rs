//! The B+tree over the pages: what a well-formed tree is, the cells it holds in key order, and
//! the proofs that inserting and splitting keep it so.

use crate::layout::TABLE_MAX_PAGES;
use crate::node::internal::InternalNode;
use crate::node::leaf::{
    ascending, cell_keys, cell_pairs, is_rank, lemma_rank_unique, valid_value, LeafCell, LeafNode,
};
use crate::node::common::{Header, NodeType};
use crate::node::internal::INTERNAL_NODE_MAX_CELLS;
use crate::node::leaf::{LEAF_NODE_LEFT_SPLIT_COUNT, LEAF_NODE_MAX_CELLS};
use crate::node::{decoded_as, lemma_page_round_trip, page_bytes, u32_at, Node};
use vstd::prelude::*;
use vstd::seq_lib::lemma_flatten_concat;

verus! {

/// The leaf stored at page `p`.
pub open spec fn leaf_at(pages: Seq<Node>, p: int) -> LeafNode {
    match pages[p] {
        Node::Leaf(l) => l,
        Node::Internal(_) => arbitrary(),
    }
}

/// The root, read as an internal node.
pub open spec fn root_internal(pages: Seq<Node>) -> InternalNode {
    match pages[0] {
        Node::Internal(r) => r,
        Node::Leaf(_) => arbitrary(),
    }
}

/// The page numbers of the leaves from left to right.
pub open spec fn leaf_order(pages: Seq<Node>) -> Seq<u32> {
    match pages[0] {
        Node::Leaf(_) => seq![0u32],
        Node::Internal(r) => r.children(),
    }
}

/// The (key, row) cells of each listed leaf.
pub open spec fn leaf_rows(pages: Seq<Node>, order: Seq<u32>) -> Seq<Seq<(u32, Seq<u8>)>> {
    order.map_values(|p: u32| leaf_at(pages, p as int).pairs())
}

/// Every (key, row) cell of the tree, leaf after leaf.
pub open spec fn content(pages: Seq<Node>) -> Seq<(u32, Seq<u8>)> {
    leaf_rows(pages, leaf_order(pages)).flatten()
}

/// The keys of a sequence of cells.
pub open spec fn row_keys(rows: Seq<(u32, Seq<u8>)>) -> Seq<u32> {
    rows.map_values(|r: (u32, Seq<u8>)| r.0)
}

/// The `i`-th leaf of `order` is a non-empty leaf under the root that links to the next one,
/// the last one to 0.
pub open spec fn leaf_child_wf(pages: Seq<Node>, order: Seq<u32>, i: int) -> bool {
    let l = leaf_at(pages, order[i] as int);
    &&& pages[order[i] as int] is Leaf
    &&& l.node.header.parent == 0
    &&& l.cells@.len() >= 1
    &&& l.next_leaf == if i + 1 < order.len() {
        order[i + 1]
    } else {
        0
    }
}

/// Separator `i` is the largest key of child `i` and below every key of child `i + 1`.
pub open spec fn separator_wf(pages: Seq<Node>, r: InternalNode, i: int) -> bool {
    let ch = r.children();
    &&& r.keys()[i] == leaf_at(pages, ch[i] as int).keys().last()
    &&& r.keys()[i] < leaf_at(pages, ch[i + 1] as int).keys()[0]
}

/// An internal root over leaves: every other page is one of its children, once.
pub open spec fn internal_root_wf(pages: Seq<Node>, r: InternalNode) -> bool {
    let ch = r.children();
    let k = r.cells@.len();
    &&& 1 <= k
    &&& pages.len() == k + 2
    &&& forall|i: int| 0 <= i < ch.len() ==> 1 <= #[trigger] ch[i] < pages.len()
    &&& forall|i: int, j: int|
        0 <= i < ch.len() && 0 <= j < ch.len() && i != j ==> ch[i] != ch[j]
    &&& forall|p: u32| 1 <= p < pages.len() ==> #[trigger] ch.contains(p)
    &&& forall|i: int| 0 <= i < ch.len() ==> #[trigger] leaf_child_wf(pages, ch, i)
    &&& forall|i: int| 0 <= i < k ==> #[trigger] separator_wf(pages, r, i)
}

/// The pages form a B+tree rooted at page 0: a lone root leaf, or an internal root whose
/// children are the other pages, all leaves.
pub open spec fn tree_wf(pages: Seq<Node>) -> bool {
    &&& 1 <= pages.len() <= TABLE_MAX_PAGES
    &&& forall|p: int| 0 <= p < pages.len() ==> (#[trigger] pages[p]).wf()
    &&& pages[0].is_root_spec()
    &&& forall|p: int| 1 <= p < pages.len() ==> !(#[trigger] pages[p]).is_root_spec()
    &&& match pages[0] {
        Node::Leaf(l) => pages.len() == 1 && l.next_leaf == 0,
        Node::Internal(r) => internal_root_wf(pages, r),
    }
}

/// Cell `c` of the `j`-th leaf is where `key` belongs: the leaf is the one the separators pick,
/// and `c` is the key's place in it.
pub open spec fn find_spec(pages: Seq<Node>, key: u32, j: int, c: int) -> bool {
    let ord = leaf_order(pages);
    &&& 0 <= j < ord.len()
    &&& is_rank(leaf_at(pages, ord[j] as int).keys(), key, c)
    &&& (pages[0] is Internal && j > 0) ==> root_internal(pages).keys()[j - 1] < key
    &&& (pages[0] is Internal && j + 1 < ord.len()) ==> key <= root_internal(pages).keys()[j]
}

/// Cells before the `j`-th leaf.
pub open spec fn offset(pages: Seq<Node>, j: int) -> int {
    leaf_rows(pages, leaf_order(pages)).subrange(0, j).flatten().len() as int
}

pub proof fn lemma_flatten_split<X>(ss: Seq<Seq<X>>, j: int)
    requires
        0 <= j < ss.len(),
    ensures
        ss.flatten() == ss.subrange(0, j).flatten() + ss[j] + ss.subrange(j + 1, ss.len() as int).flatten(),
{
    let a = ss.subrange(0, j);
    let b = ss.subrange(j + 1, ss.len() as int);
    assert(ss =~= a + seq![ss[j]] + b);
    lemma_flatten_concat(a + seq![ss[j]], b);
    lemma_flatten_concat(a, seq![ss[j]]);
    seq![ss[j]].lemma_flatten_one_element();
}

pub proof fn lemma_row_keys_concat(a: Seq<(u32, Seq<u8>)>, b: Seq<(u32, Seq<u8>)>)
    ensures
        row_keys(a + b) == row_keys(a) + row_keys(b),
{
    assert(row_keys(a + b) =~= row_keys(a) + row_keys(b));
}

/// Two ascending key sequences, the first ending below where the second starts, make an
/// ascending sequence.
pub proof fn lemma_ascending_concat(a: Seq<u32>, b: Seq<u32>)
    requires
        ascending(a),
        ascending(b),
        a.len() > 0 && b.len() > 0 ==> a.last() < b[0],
    ensures
        ascending(a + b),
{
    let s = a + b;
    assert forall|i: int, j: int| 0 <= i < j < s.len() implies s[i] < s[j] by {
        if j < a.len() {
        } else if i >= a.len() {
            assert(s[i] == b[i - a.len()] && s[j] == b[j - a.len()]);
        } else {
            assert(s[j] == b[j - a.len()]);
            if i < a.len() - 1 {
                assert(a[i] < a.last());
            }
            if j > a.len() {
                assert(b[0] < b[j - a.len()]);
            }
        }
    }
}

/// The cells of the first `m` leaves are in ascending key order, the last of them being the
/// largest key of the `m`-th leaf.
proof fn lemma_prefix_sorted(pages: Seq<Node>, m: int)
    requires
        tree_wf(pages),
        0 <= m <= leaf_order(pages).len(),
    ensures
        ascending(row_keys(leaf_rows(pages, leaf_order(pages)).subrange(0, m).flatten())),
        m > 0 ==> row_keys(leaf_rows(pages, leaf_order(pages)).subrange(0, m).flatten()).len() > 0
            && row_keys(leaf_rows(pages, leaf_order(pages)).subrange(0, m).flatten()).last()
            == leaf_at(pages, leaf_order(pages)[m - 1] as int).keys().last() || (pages[0] is Leaf
            && leaf_at(pages, 0).cells@.len() == 0),
    decreases m,
{
    let ord = leaf_order(pages);
    let ss = leaf_rows(pages, ord);
    if m == 0 {
        assert(ss.subrange(0, 0) =~= Seq::<Seq<(u32, Seq<u8>)>>::empty());
        assert(row_keys(Seq::<(u32, Seq<u8>)>::empty()) =~= Seq::<u32>::empty());
    } else {
        lemma_prefix_sorted(pages, m - 1);
        let pre = ss.subrange(0, m - 1);
        assert(ss.subrange(0, m) =~= pre.push(ss[m - 1]));
        pre.lemma_flatten_push(ss[m - 1]);
        lemma_row_keys_concat(pre.flatten(), ss[m - 1]);
        let l = leaf_at(pages, ord[m - 1] as int);
        assert(pages[ord[m - 1] as int].wf());
        assert(row_keys(ss[m - 1]) =~= l.keys());
        if pages[0] is Internal {
            assert(leaf_child_wf(pages, ord, m - 1));
        }
        if m > 1 {
            let r = root_internal(pages);
            assert(separator_wf(pages, r, m - 2));
        }
        lemma_ascending_concat(row_keys(pre.flatten()), l.keys());
        let all = row_keys(ss.subrange(0, m).flatten());
        assert(all == row_keys(pre.flatten()) + l.keys());
        if l.cells@.len() > 0 {
            assert(all.last() == l.keys().last());
        }
    }
}

/// In-order scan: the keys of the tree's cells, leaf after leaf, are strictly ascending.
pub proof fn lemma_content_sorted(pages: Seq<Node>)
    requires
        tree_wf(pages),
    ensures
        ascending(row_keys(content(pages))),
{
    let ss = leaf_rows(pages, leaf_order(pages));
    lemma_prefix_sorted(pages, ss.len() as int);
    assert(ss.subrange(0, ss.len() as int) =~= ss);
}

} // verus!

verus! {

/// The root of well-formed pages is page 0 and every leaf of the order is a leaf page other
/// than the root when the root is internal.
pub proof fn lemma_order_facts(pages: Seq<Node>, j: int)
    requires
        tree_wf(pages),
        0 <= j < leaf_order(pages).len(),
    ensures
        0 <= leaf_order(pages)[j] < pages.len(),
        pages[leaf_order(pages)[j] as int] is Leaf,
        pages[0] is Leaf ==> j == 0 && leaf_order(pages)[j] == 0,
        pages[0] is Internal ==> leaf_order(pages)[j] != 0 && leaf_child_wf(
            pages,
            leaf_order(pages),
            j,
        ),
        leaf_at(pages, leaf_order(pages)[j] as int).wf(),
{
    let ord = leaf_order(pages);
    if pages[0] is Internal {
        assert(1 <= ord[j] < pages.len());
        assert(leaf_child_wf(pages, ord, j));
    }
    assert(pages[ord[j] as int].wf());
}

/// The keys of a leaf are the keys of its (key, row) pairs.
pub proof fn lemma_leaf_keys(l: LeafNode)
    ensures
        l.keys() == row_keys(l.pairs()),
        l.keys().len() == l.cells@.len(),
        l.pairs().len() == l.cells@.len(),
{
    assert(l.keys() =~= row_keys(l.pairs()));
}

/// Putting a cell into the leaf that `find_spec` picks, where it picks, keeps the tree well
/// formed and puts the cell into the tree's cells at the matching place.
#[verifier::rlimit(40)]
pub proof fn lemma_insert_in_leaf(
    pages: Seq<Node>,
    j: int,
    c: int,
    key: u32,
    value: Seq<u8>,
    new_leaf: LeafNode,
)
    requires
        tree_wf(pages),
        find_spec(pages, key, j, c),
        ({
            let l = leaf_at(pages, leaf_order(pages)[j] as int);
            &&& c == l.cells@.len() || l.keys()[c] != key
            &&& new_leaf.wf()
            &&& new_leaf.node == l.node
            &&& new_leaf.next_leaf == l.next_leaf
            &&& new_leaf.pairs() == l.pairs().insert(c, (key, value))
        }),
    ensures
        ({
            let p = leaf_order(pages)[j] as int;
            let new_pages = pages.update(p, Node::Leaf(new_leaf));
            &&& tree_wf(new_pages)
            &&& leaf_order(new_pages) == leaf_order(pages)
            &&& content(new_pages) == content(pages).insert(offset(pages, j) + c, (key, value))
        }),
{
    let ord = leaf_order(pages);
    let p = ord[j] as int;
    let l = leaf_at(pages, p);
    let new_pages = pages.update(p, Node::Leaf(new_leaf));
    lemma_order_facts(pages, j);
    lemma_leaf_keys(l);
    lemma_leaf_keys(new_leaf);
    assert(new_leaf.keys() =~= l.keys().insert(c, key)) by {
        assert forall|i: int| 0 <= i < new_leaf.keys().len() implies new_leaf.keys()[i] == l.keys().insert(c, key)[i] by {
            assert(new_leaf.keys()[i] == new_leaf.pairs()[i].0);
            if i < c {
                assert(l.keys()[i] == l.pairs()[i].0);
            } else if i > c {
                assert(l.keys()[i - 1] == l.pairs()[i - 1].0);
            }
        }
    }
    assert(leaf_at(new_pages, p) == new_leaf);
    assert forall|q: int| 0 <= q < new_pages.len() implies (#[trigger] new_pages[q]).wf() by {
        if q != p {
            assert(new_pages[q] == pages[q]);
        }
    }
    assert forall|q: int| 1 <= q < new_pages.len() implies !(#[trigger] new_pages[q]).is_root_spec() by {
        assert(!pages[q].is_root_spec());
    }
    if pages[0] is Leaf {
        assert(leaf_order(new_pages) =~= ord);
    } else {
        let r = root_internal(pages);
        let ch = r.children();
        assert(new_pages[0] == pages[0]);
        assert(leaf_order(new_pages) == ord);
        let k = r.cells@.len();
        // The key is not beyond the leaf's last key unless this is the last leaf.
        if j < k {
            assert(separator_wf(pages, r, j));
            assert(c < l.cells@.len()) by {
                if c == l.cells@.len() {
                    assert(l.keys()[c - 1] < key);
                }
            }
        }
        assert forall|i: int| 0 <= i < ch.len() implies #[trigger] leaf_child_wf(new_pages, ch, i) by {
            assert(leaf_child_wf(pages, ch, i));
            if i != j {
                assert(ch[i] != ch[j]);
            }
        }
        assert forall|i: int| 0 <= i < k implies #[trigger] separator_wf(new_pages, r, i) by {
            assert(separator_wf(pages, r, i));
            if i != j {
                assert(ch[i] != ch[j]);
            }
            if i + 1 != j {
                assert(ch[i + 1] != ch[j]);
            }
            if i + 1 == j && c == 0 {
                assert(new_leaf.keys()[0] == key);
            }
            if i + 1 == j && c > 0 {
                assert(new_leaf.keys()[0] == l.keys()[0]);
            }
        }
        assert(internal_root_wf(new_pages, r));
    }
    // The cells, leaf after leaf.
    let ss = leaf_rows(pages, ord);
    let new_ss = leaf_rows(new_pages, ord);
    assert(new_ss =~= ss.update(j, ss[j].insert(c, (key, value)))) by {
        assert forall|i: int| 0 <= i < ord.len() && i != j implies ord[i] != ord[j] by {
            if pages[0] is Internal {
                let ch = root_internal(pages).children();
                assert(ch[i] != ch[j]);
            }
        }
    }
    lemma_flatten_split(ss, j);
    lemma_flatten_split(new_ss, j);
    assert(new_ss.subrange(0, j) =~= ss.subrange(0, j));
    assert(new_ss.subrange(j + 1, new_ss.len() as int) =~= ss.subrange(j + 1, ss.len() as int));
    assert(content(new_pages) =~= content(pages).insert(offset(pages, j) + c, (key, value)));
}

} // verus!

verus! {

/// The cells of a leaf with one more cell put where its key falls: keys ascending, values rows.
pub open spec fn cells_ok(cells: Seq<LeafCell>) -> bool {
    &&& ascending(cell_keys(cells))
    &&& forall|i: int| 0 <= i < cells.len() ==> valid_value(#[trigger] cells[i])
}

pub proof fn lemma_cells_insert(cells: Seq<LeafCell>, c: int, cell: LeafCell)
    requires
        cells_ok(cells),
        0 <= c <= cells.len(),
        valid_value(cell),
        forall|i: int| 0 <= i < c ==> cells[i].key < cell.key,
        forall|i: int| c <= i < cells.len() ==> cell.key < cells[i].key,
    ensures
        cells_ok(cells.insert(c, cell)),
        cell_pairs(cells.insert(c, cell)) == cell_pairs(cells).insert(c, (cell.key, cell.value@)),
{
    let s = cells.insert(c, cell);
    let ok = cell_keys(cells);
    let nk = cell_keys(s);
    assert forall|i: int, j: int| 0 <= i < j < nk.len() implies nk[i] < nk[j] by {
        if j < c {
            assert(nk[i] == ok[i] && nk[j] == ok[j]);
        } else if j == c {
            assert(nk[i] == ok[i]);
        } else if i < c {
            assert(nk[i] == ok[i] && nk[j] == ok[j - 1]);
        } else if i == c {
            assert(nk[j] == ok[j - 1]);
        } else {
            assert(nk[i] == ok[i - 1] && nk[j] == ok[j - 1]);
        }
    }
    assert forall|i: int| 0 <= i < s.len() implies valid_value(#[trigger] s[i]) by {
        if i < c {
            assert(s[i] == cells[i]);
        } else if i > c {
            assert(s[i] == cells[i - 1]);
        }
    }
    assert(cell_pairs(s) =~= cell_pairs(cells).insert(c, (cell.key, cell.value@)));
}

pub proof fn lemma_cells_subrange(cells: Seq<LeafCell>, a: int, b: int)
    requires
        cells_ok(cells),
        0 <= a <= b <= cells.len(),
    ensures
        cells_ok(cells.subrange(a, b)),
        cell_pairs(cells.subrange(a, b)) == cell_pairs(cells).subrange(a, b),
        cell_keys(cells.subrange(a, b)) == cell_keys(cells).subrange(a, b),
{
    let s = cells.subrange(a, b);
    assert(cell_keys(s) =~= cell_keys(cells).subrange(a, b));
    assert(cell_pairs(s) =~= cell_pairs(cells).subrange(a, b));
    assert forall|i: int| 0 <= i < s.len() implies valid_value(#[trigger] s[i]) by {
        assert(s[i] == cells[a + i]);
    }
}

} // verus!

verus! {

pub proof fn lemma_keys_insert(s: Seq<u32>, c: int, key: u32)
    requires
        ascending(s),
        is_rank(s, key, c),
        c == s.len() || s[c] != key,
    ensures
        ascending(s.insert(c, key)),
{
    let t = s.insert(c, key);
    assert forall|i: int, j: int| 0 <= i < j < t.len() implies t[i] < t[j] by {
        if j < c {
            assert(t[i] == s[i] && t[j] == s[j]);
        } else if j == c {
            assert(t[i] == s[i]);
        } else if i < c {
            assert(t[i] == s[i] && t[j] == s[j - 1]);
        } else if i == c {
            assert(t[j] == s[j - 1]);
            assert(key <= s[c]);
            if j - 1 > c {
                assert(s[c] < s[j - 1]);
            }
        } else {
            assert(t[i] == s[i - 1] && t[j] == s[j - 1]);
        }
    }
}

/// The pages after the full `j`-th leaf, with one more cell at `c`, was split in two: the left
/// half stays at its page and links to a new last page with the right half, and the internal
/// root takes the new page right after the split one.
pub open spec fn split_shape(
    pages: Seq<Node>,
    j: int,
    c: int,
    key: u32,
    value: Seq<u8>,
    new_pages: Seq<Node>,
) -> bool {
    let ord = leaf_order(pages);
    let p = ord[j] as int;
    let l = leaf_at(pages, p);
    let r = root_internal(pages);
    let t = l.pairs().insert(c, (key, value));
    let n = pages.len() as int;
    let k = r.cells@.len() as int;
    &&& tree_wf(pages)
    &&& pages[0] is Internal
    &&& find_spec(pages, key, j, c)
    &&& l.cells@.len() == LEAF_NODE_MAX_CELLS
    &&& (c == l.cells@.len() || l.keys()[c] != key)
    &&& k < INTERNAL_NODE_MAX_CELLS
    &&& pages.len() < TABLE_MAX_PAGES
    &&& new_pages.len() == n + 1
    &&& forall|q: int| 1 <= q < n && q != p ==> new_pages[q] == pages[q]
    &&& new_pages[p] matches Node::Leaf(nl) && nl.wf() && nl.node == l.node && nl.next_leaf == n
        && nl.pairs() == t.subrange(0, LEAF_NODE_LEFT_SPLIT_COUNT as int)
    &&& new_pages[n] matches Node::Leaf(nr) && nr.wf() && nr.node.header == (Header {
        node_type: NodeType::Leaf,
        is_root: false,
        parent: l.node.header.parent,
    }) && nr.next_leaf == l.next_leaf && nr.pairs() == t.subrange(
        LEAF_NODE_LEFT_SPLIT_COUNT as int,
        t.len() as int,
    )
    &&& new_pages[0] matches Node::Internal(nroot) && nroot.node == r.node && nroot.cells@.len()
        == k + 1 && nroot.children() == r.children().insert(j + 1, n as u32) && nroot.keys() == if j
        < k {
        r.keys().update(j, t[6].0).insert(j + 1, t[13].0)
    } else {
        r.keys().push(t[6].0)
    }
}

/// Key facts of a split: the halves' keys are the two parts of the fourteen ascending keys,
/// the left half starts above the separator before it, and a leaf other than the last was
/// not appended to.
proof fn lemma_split_keys(pages: Seq<Node>, j: int, c: int, key: u32, value: Seq<u8>, new_pages: Seq<Node>)
    requires
        split_shape(pages, j, c, key, value, new_pages),
    ensures
        ({
            let ord = leaf_order(pages);
            let p = ord[j] as int;
            let l = leaf_at(pages, p);
            let r = root_internal(pages);
            let t = l.pairs().insert(c, (key, value));
            let tk = row_keys(t);
            let nl = leaf_at(new_pages, p);
            let nr = leaf_at(new_pages, pages.len() as int);
            &&& ascending(tk)
            &&& tk.len() == 14
            &&& nl.keys() == tk.subrange(0, 7)
            &&& nr.keys() == tk.subrange(7, 14)
            &&& t[6].0 == tk[6] && t[13].0 == tk[13]
            &&& j > 0 ==> r.keys()[j - 1] < tk[0]
            &&& j < r.cells@.len() ==> tk[13] == r.keys()[j]
            &&& ord[j] != 0
            &&& 1 <= ord[j] < pages.len()
        }),
{
    let ord = leaf_order(pages);
    let p = ord[j] as int;
    let l = leaf_at(pages, p);
    let r = root_internal(pages);
    let t = l.pairs().insert(c, (key, value));
    let k = r.cells@.len() as int;
    let nl = leaf_at(new_pages, p);
    let nr = leaf_at(new_pages, pages.len() as int);
    lemma_order_facts(pages, j);
    lemma_leaf_keys(l);
    lemma_leaf_keys(nl);
    lemma_leaf_keys(nr);
    let tk = row_keys(t);
    assert(tk =~= l.keys().insert(c, key));
    lemma_keys_insert(l.keys(), c, key);
    assert(nl.keys() =~= tk.subrange(0, 7));
    assert(nr.keys() =~= tk.subrange(7, 14));
    if j > 0 {
        assert(separator_wf(pages, r, j - 1));
        if c == 0 {
            assert(tk[0] == key);
        } else {
            assert(tk[0] == l.keys()[0]);
        }
    }
    if j < k {
        assert(separator_wf(pages, r, j));
        assert(c < l.cells@.len()) by {
            if c == l.cells@.len() {
                assert(l.keys()[c - 1] < key);
            }
        }
        assert(tk[13] == l.keys().last());
    }
}

#[verifier::rlimit(40)]
proof fn lemma_split_root_wf(pages: Seq<Node>, j: int, c: int, key: u32, value: Seq<u8>, new_pages: Seq<Node>)
    requires
        split_shape(pages, j, c, key, value, new_pages),
    ensures
        new_pages[0].wf(),
{
    let ord = leaf_order(pages);
    let p = ord[j] as int;
    let l = leaf_at(pages, p);
    let r = root_internal(pages);
    let t = l.pairs().insert(c, (key, value));
    let tk = row_keys(t);
    let k = r.cells@.len() as int;
    let nroot = root_internal(new_pages);
    let keys = r.keys();
    let keys2 = nroot.keys();
    lemma_split_keys(pages, j, c, key, value, new_pages);
    assert(pages[0].wf());
    assert(tk[0] <= tk[6]);
    assert forall|a: int, b: int| 0 <= a < b < keys2.len() implies keys2[a] < keys2[b] by {
        if j < k {
            if b < j {
                assert(keys[a] < keys[b]);
            } else if b == j {
                if j > 0 {
                    assert(keys[a] <= keys[j - 1]);
                }
            } else if b == j + 1 {
                if a < j {
                    assert(keys[a] < keys[j]);
                }
            } else {
                assert(keys2[b] == keys[b - 1]);
                if a < j {
                    assert(keys[a] < keys[b - 1]);
                } else if a == j {
                    assert(keys[j] < keys[b - 1]);
                } else if a == j + 1 {
                    assert(keys[j] < keys[b - 1]);
                } else {
                    assert(keys[a - 1] < keys[b - 1]);
                }
            }
        } else {
            if b < k {
                assert(keys[a] < keys[b]);
            } else {
                assert(keys[a] <= keys[k - 1]);
            }
        }
    }
}

#[verifier::rlimit(40)]
proof fn lemma_split_children(pages: Seq<Node>, j: int, c: int, key: u32, value: Seq<u8>, new_pages: Seq<Node>)
    requires
        split_shape(pages, j, c, key, value, new_pages),
    ensures
        ({
            let ch2 = root_internal(new_pages).children();
            &&& forall|i: int| 0 <= i < ch2.len() ==> 1 <= #[trigger] ch2[i] < new_pages.len()
            &&& forall|a: int, b: int|
                0 <= a < ch2.len() && 0 <= b < ch2.len() && a != b ==> ch2[a] != ch2[b]
            &&& forall|q: u32| 1 <= q < new_pages.len() ==> #[trigger] ch2.contains(q)
            &&& forall|i: int| 0 <= i < ch2.len() ==> #[trigger] leaf_child_wf(new_pages, ch2, i)
        }),
{
    let ord = leaf_order(pages);
    let p = ord[j] as int;
    let r = root_internal(pages);
    let n = pages.len() as int;
    let ch = r.children();
    let ch2 = root_internal(new_pages).children();
    lemma_split_keys(pages, j, c, key, value, new_pages);
    assert forall|i: int| 0 <= i < ch2.len() implies 1 <= #[trigger] ch2[i] < new_pages.len() by {
        if i < j + 1 {
            assert(ch2[i] == ch[i]);
        } else if i > j + 1 {
            assert(ch2[i] == ch[i - 1]);
        }
    }
    assert forall|a: int, b: int|
        0 <= a < ch2.len() && 0 <= b < ch2.len() && a != b implies ch2[a] != ch2[b] by {
        let a0 = if a < j + 1 { a } else { a - 1 };
        let b0 = if b < j + 1 { b } else { b - 1 };
        if a != j + 1 && b != j + 1 {
            assert(ch2[a] == ch[a0] && ch2[b] == ch[b0]);
        } else if a == j + 1 {
            assert(ch2[b] == ch[b0]);
        } else {
            assert(ch2[a] == ch[a0]);
        }
    }
    assert forall|q: u32| 1 <= q < new_pages.len() implies #[trigger] ch2.contains(q) by {
        if q == n {
            assert(ch2[j + 1] == q);
        } else {
            assert(ch.contains(q));
            let i = choose|i: int| 0 <= i < ch.len() && ch[i] == q;
            if i < j + 1 {
                assert(ch2[i] == q);
            } else {
                assert(ch2[i + 1] == q);
            }
        }
    }
    assert forall|i: int| 0 <= i < ch2.len() implies #[trigger] leaf_child_wf(new_pages, ch2, i) by {
        if i < j {
            assert(leaf_child_wf(pages, ch, i));
            assert(ch2[i] == ch[i] && ch2[i + 1] == ch[i + 1]);
            assert(ch[i] != ch[j]);
        } else if i == j {
            assert(ch2[j] == ch[j]);
            assert(ch2[j + 1] == n);
            assert(leaf_child_wf(pages, ch, j));
            lemma_leaf_keys(leaf_at(new_pages, p));
        } else if i == j + 1 {
            assert(ch2[j + 1] == n);
            assert(leaf_child_wf(pages, ch, j));
            lemma_leaf_keys(leaf_at(new_pages, n));
            if j + 2 < ch2.len() {
                assert(ch2[j + 2] == ch[j + 1]);
            }
        } else {
            assert(leaf_child_wf(pages, ch, i - 1));
            assert(ch2[i] == ch[i - 1]);
            if i + 1 < ch2.len() {
                assert(ch2[i + 1] == ch[i]);
            }
            assert(ch[i - 1] != ch[j]);
        }
    }
}

#[verifier::rlimit(40)]
proof fn lemma_split_separators(pages: Seq<Node>, j: int, c: int, key: u32, value: Seq<u8>, new_pages: Seq<Node>)
    requires
        split_shape(pages, j, c, key, value, new_pages),
    ensures
        forall|i: int| 0 <= i < root_internal(new_pages).cells@.len() ==> #[trigger] separator_wf(new_pages, root_internal(new_pages), i),
{
    let ord = leaf_order(pages);
    let p = ord[j] as int;
    let r = root_internal(pages);
    let n = pages.len() as int;
    let k = r.cells@.len() as int;
    let ch = r.children();
    let nroot = root_internal(new_pages);
    let ch2 = nroot.children();
    let keys = r.keys();
    let keys2 = nroot.keys();
    let l = leaf_at(pages, p);
    let t = l.pairs().insert(c, (key, value));
    let tk = row_keys(t);
    lemma_split_keys(pages, j, c, key, value, new_pages);
    assert(tk[6] < tk[7]);
    assert forall|i: int| 0 <= i < k + 1 implies #[trigger] separator_wf(new_pages, nroot, i) by {
        if i < j {
            assert(separator_wf(pages, r, i));
            assert(ch2[i] == ch[i] && ch2[i + 1] == ch[i + 1]);
            assert(ch[i] != ch[j]);
            assert(keys2[i] == keys[i]);
            if i + 1 < j {
                assert(ch[i + 1] != ch[j]);
            }
        } else if i == j {
            assert(ch2[j] == p && ch2[j + 1] == n);
            assert(keys2[j] == tk[6]);
        } else if i == j + 1 {
            assert(separator_wf(pages, r, j));
            assert(ch2[j + 2] == ch[j + 1]);
            assert(keys2[j + 1] == tk[13]);
            assert(ch[j + 1] != ch[j]);
            assert(leaf_at(new_pages, ch[j + 1] as int) == leaf_at(pages, ch[j + 1] as int));
        } else {
            assert(separator_wf(pages, r, i - 1));
            assert(ch2[i] == ch[i - 1] && ch2[i + 1] == ch[i]);
            assert(keys2[i] == keys[i - 1]);
            assert(ch[i - 1] != ch[j] && ch[i] != ch[j]);
        }
    }
}

#[verifier::rlimit(40)]
proof fn lemma_split_content(pages: Seq<Node>, j: int, c: int, key: u32, value: Seq<u8>, new_pages: Seq<Node>)
    requires
        split_shape(pages, j, c, key, value, new_pages),
        leaf_order(new_pages) == root_internal(new_pages).children(),
    ensures
        content(new_pages) == content(pages).insert(offset(pages, j) + c, (key, value)),
{
    let ord = leaf_order(pages);
    let p = ord[j] as int;
    let r = root_internal(pages);
    let n = pages.len() as int;
    let ch = r.children();
    let ch2 = root_internal(new_pages).children();
    let l = leaf_at(pages, p);
    let t = l.pairs().insert(c, (key, value));
    let nl = leaf_at(new_pages, p);
    let nr = leaf_at(new_pages, n);
    lemma_split_keys(pages, j, c, key, value, new_pages);
    let ss = leaf_rows(pages, ch);
    let ss2 = leaf_rows(new_pages, ch2);
    let a = ss.subrange(0, j);
    let b = ss.subrange(j + 1, ss.len() as int);
    let mid = seq![nl.pairs(), nr.pairs()];
    assert(ss2.len() == ss.len() + 1);
    assert forall|i: int| 0 <= i < ss2.len() implies #[trigger] ss2[i] == (a + mid + b)[i] by {
        if i < j {
            lemma_order_facts(pages, i);
            assert(ch[i] != ch[j]);
            assert(ch2[i] == ch[i]);
            assert(new_pages[ch[i] as int] == pages[ch[i] as int]);
        } else if i == j {
            assert(ch2[i] == ch[j]);
        } else if i == j + 1 {
            assert(ch2[i] == n);
        } else {
            lemma_order_facts(pages, i - 1);
            assert(ch[i - 1] != ch[j]);
            assert(ch2[i] == ch[i - 1]);
            assert(new_pages[ch[i - 1] as int] == pages[ch[i - 1] as int]);
            assert((a + mid + b)[i] == b[i - j - 2]);
        }
    }
    assert(ss2 =~= a + mid + b);
    lemma_flatten_split(ss, j);
    lemma_flatten_concat(a + mid, b);
    lemma_flatten_concat(a, mid);
    assert(mid =~= seq![nl.pairs()].push(nr.pairs()));
    seq![nl.pairs()].lemma_flatten_push(nr.pairs());
    seq![nl.pairs()].lemma_flatten_one_element();
    assert(nl.pairs() + nr.pairs() =~= t);
    assert(content(new_pages) =~= content(pages).insert(offset(pages, j) + c, (key, value)));
}

/// The cells of a full leaf with one more, split in two leaves under an internal root: the
/// tree stays well formed and holds the new cell where its key falls.
#[verifier::rlimit(40)]
pub proof fn lemma_split_under_internal(
    pages: Seq<Node>,
    j: int,
    c: int,
    key: u32,
    value: Seq<u8>,
    new_pages: Seq<Node>,
)
    requires
        split_shape(pages, j, c, key, value, new_pages),
    ensures
        tree_wf(new_pages),
        content(new_pages) == content(pages).insert(offset(pages, j) + c, (key, value)),
{
    let ord = leaf_order(pages);
    let p = ord[j] as int;
    let n = pages.len() as int;
    let nroot = root_internal(new_pages);
    lemma_order_facts(pages, j);
    lemma_split_keys(pages, j, c, key, value, new_pages);
    lemma_split_root_wf(pages, j, c, key, value, new_pages);
    lemma_split_children(pages, j, c, key, value, new_pages);
    lemma_split_separators(pages, j, c, key, value, new_pages);
    assert forall|q: int| 0 <= q < new_pages.len() implies (#[trigger] new_pages[q]).wf() by {
        if q != 0 && q != p && q != n {
            assert(new_pages[q] == pages[q]);
        }
    }
    assert(pages[0].is_root_spec());
    assert(!pages[p].is_root_spec());
    assert forall|q: int| 1 <= q < new_pages.len() implies !(#[trigger] new_pages[q]).is_root_spec() by {
        if q == n {
            assert(new_pages[n] == Node::Leaf(leaf_at(new_pages, n)));
        } else if q == p {
            assert(new_pages[p] == Node::Leaf(leaf_at(new_pages, p)));
            assert(pages[p] == Node::Leaf(leaf_at(pages, p)));
        } else {
            assert(new_pages[q] == pages[q]);
            assert(!pages[q].is_root_spec());
        }
    }
    assert(internal_root_wf(new_pages, nroot));
    assert(leaf_order(new_pages) == nroot.children());
    lemma_split_content(pages, j, c, key, value, new_pages);
}

} // verus!

verus! {

/// The pages after the full root leaf, with one more cell at `c`, was split: the root becomes
/// an internal node over the left half (page 2) and the right half (page 1).
pub open spec fn root_split_shape(pages: Seq<Node>, c: int, key: u32, value: Seq<u8>, new_pages: Seq<Node>) -> bool {
    let l = leaf_at(pages, 0);
    let t = l.pairs().insert(c, (key, value));
    &&& tree_wf(pages)
    &&& pages[0] is Leaf
    &&& find_spec(pages, key, 0, c)
    &&& l.cells@.len() == LEAF_NODE_MAX_CELLS
    &&& (c == l.cells@.len() || l.keys()[c] != key)
    &&& new_pages.len() == 3
    &&& new_pages[0] matches Node::Internal(nroot) && nroot.node.header == (Header {
        node_type: NodeType::Internal,
        is_root: true,
        parent: 0,
    }) && nroot.children() == seq![2u32, 1u32] && nroot.keys() == seq![t[6].0]
    &&& new_pages[1] matches Node::Leaf(nr) && nr.wf() && nr.node.header == (Header {
        node_type: NodeType::Leaf,
        is_root: false,
        parent: 0,
    }) && nr.next_leaf == 0 && nr.pairs() == t.subrange(7, 14)
    &&& new_pages[2] matches Node::Leaf(nl) && nl.wf() && nl.node.header == (Header {
        node_type: NodeType::Leaf,
        is_root: false,
        parent: 0,
    }) && nl.next_leaf == 1 && nl.pairs() == t.subrange(0, 7)
}

/// Splitting the full root leaf keeps the tree well formed and holds the new cell where its
/// key falls.
#[verifier::rlimit(40)]
pub proof fn lemma_split_root(pages: Seq<Node>, c: int, key: u32, value: Seq<u8>, new_pages: Seq<Node>)
    requires
        root_split_shape(pages, c, key, value, new_pages),
    ensures
        tree_wf(new_pages),
        content(new_pages) == content(pages).insert(c, (key, value)),
{
    let l = leaf_at(pages, 0);
    let t = l.pairs().insert(c, (key, value));
    let nroot = root_internal(new_pages);
    let nl = leaf_at(new_pages, 2);
    let nr = leaf_at(new_pages, 1);
    assert(pages[0].wf());
    lemma_leaf_keys(l);
    lemma_leaf_keys(nl);
    lemma_leaf_keys(nr);
    let tk = row_keys(t);
    assert(tk =~= l.keys().insert(c, key));
    lemma_keys_insert(l.keys(), c, key);
    assert(nl.keys() =~= tk.subrange(0, 7));
    assert(nr.keys() =~= tk.subrange(7, 14));
    assert(tk[6] < tk[7]);
    assert(nroot.cells@.len() == 1) by {
        assert(nroot.keys().len() == nroot.cells@.len());
    }
    assert(ascending(nroot.keys()));
    assert(new_pages[0].wf());
    let ch = nroot.children();
    assert(leaf_order(new_pages) == ch);
    assert forall|q: int| 0 <= q < new_pages.len() implies (#[trigger] new_pages[q]).wf() by {}
    assert forall|q: int| 1 <= q < new_pages.len() implies !(#[trigger] new_pages[q]).is_root_spec() by {}
    assert forall|q: u32| 1 <= q < new_pages.len() implies #[trigger] ch.contains(q) by {
        if q == 1 {
            assert(ch[1] == q);
        } else {
            assert(ch[0] == q);
        }
    }
    assert forall|i: int| 0 <= i < ch.len() implies #[trigger] leaf_child_wf(new_pages, ch, i) by {}
    assert forall|i: int| 0 <= i < 1 implies #[trigger] separator_wf(new_pages, nroot, i) by {
        assert(nroot.keys()[0] == tk[6]);
    }
    assert(internal_root_wf(new_pages, nroot));
    let ss2 = leaf_rows(new_pages, ch);
    assert(ss2 =~= seq![nl.pairs()].push(nr.pairs()));
    seq![nl.pairs()].lemma_flatten_push(nr.pairs());
    seq![nl.pairs()].lemma_flatten_one_element();
    let ss = leaf_rows(pages, leaf_order(pages));
    assert(ss =~= seq![l.pairs()]);
    ss.lemma_flatten_one_element();
    assert(nl.pairs() + nr.pairs() =~= t);
}

} // verus!

verus! {

/// How the separators change when the full `j`-th leaf under an internal root is split: where
/// its old largest key falls, and where the right half's largest key falls once that separator
/// is lowered to the left half's largest key.
pub proof fn lemma_split_parent_keys(pages: Seq<Node>, j: int, c: int, key: u32, value: Seq<u8>)
    requires
        tree_wf(pages),
        pages[0] is Internal,
        find_spec(pages, key, j, c),
        ({
            let l = leaf_at(pages, leaf_order(pages)[j] as int);
            &&& l.cells@.len() == LEAF_NODE_MAX_CELLS
            &&& (c == l.cells@.len() || l.keys()[c] != key)
        }),
    ensures
        ({
            let ord = leaf_order(pages);
            let l = leaf_at(pages, ord[j] as int);
            let r = root_internal(pages);
            let keys = r.keys();
            let k = r.cells@.len() as int;
            let t = l.pairs().insert(c, (key, value));
            let tk = row_keys(t);
            &&& ascending(tk)
            &&& tk.len() == 14
            &&& t[6].0 == tk[6] && t[13].0 == tk[13]
            &&& keys.len() == k
            &&& ord.len() == k + 1
            &&& j < k ==> {
                &&& tk[13] == l.keys().last()
                &&& is_rank(keys, l.keys().last(), j)
                &&& ascending(keys.update(j, tk[6]))
                &&& is_rank(keys.update(j, tk[6]), tk[13], j + 1)
                &&& tk[13] <= leaf_at(pages, ord[k] as int).keys().last()
                &&& leaf_at(pages, ord[k] as int).cells@.len() > 0
            }
            &&& j == k ==> is_rank(keys, l.keys().last(), k)
        }),
{
    let ord = leaf_order(pages);
    let p = ord[j] as int;
    let l = leaf_at(pages, p);
    let r = root_internal(pages);
    let keys = r.keys();
    let k = r.cells@.len() as int;
    let t = l.pairs().insert(c, (key, value));
    let tk = row_keys(t);
    lemma_order_facts(pages, j);
    lemma_leaf_keys(l);
    assert(pages[0].wf());
    assert(tk =~= l.keys().insert(c, key));
    lemma_keys_insert(l.keys(), c, key);
    assert(keys.len() == k);
    assert(ord.len() == k + 1);
    assert(tk.len() == 14);
    assert(t[6].0 == tk[6] && t[13].0 == tk[13]);
    if j > 0 {
        assert(separator_wf(pages, r, j - 1));
        if c == 0 {
            assert(tk[0] == key);
        } else {
            assert(tk[0] == l.keys()[0]);
        }
    }
    if j < k {
        assert(separator_wf(pages, r, j));
        assert(c < l.cells@.len()) by {
            if c == l.cells@.len() {
                assert(l.keys()[c - 1] < key);
            }
        }
        assert(tk[13] == l.keys().last());
        let keys1 = keys.update(j, tk[6]);
        assert(tk[0] <= tk[6] && tk[6] < tk[13]);
        assert forall|a: int, b: int| 0 <= a < b < keys1.len() implies keys1[a] < keys1[b] by {
            if b == j {
                assert(keys[a] <= keys[j - 1]);
            } else if a == j {
                assert(keys[j] < keys[b]);
            } else {
                assert(keys[a] < keys[b]);
            }
        }
        assert forall|i: int| 0 <= i < j + 1 implies keys1[i] < tk[13] by {
            if i < j {
                assert(keys[i] < keys[j]);
            }
        }
        assert forall|i: int| j + 1 <= i < keys1.len() implies tk[13] <= keys1[i] by {
            assert(keys[j] < keys[i]);
        }
        assert forall|i: int| j <= i < keys.len() implies l.keys().last() <= keys[i] by {
            if i > j {
                assert(keys[j] < keys[i]);
            }
        }
        // The last leaf ends above every separator.
        assert(separator_wf(pages, r, k - 1));
        lemma_order_facts(pages, k);
        let last = leaf_at(pages, ord[k] as int);
        assert(keys[j] <= keys[k - 1]);
        if last.cells@.len() > 1 {
            assert(last.keys()[0] < last.keys().last());
        }
    } else {
        assert(j == k);
        assert(separator_wf(pages, r, k - 1));
        if l.cells@.len() > 1 {
            assert(l.keys()[0] < l.keys().last());
        }
        assert forall|i: int| 0 <= i < k implies keys[i] < l.keys().last() by {
            assert(keys[i] <= keys[k - 1]);
        }
        assert(is_rank(keys, l.keys().last(), k));
    }
}

} // verus!

verus! {

/// Cell `c` of the `j`-th leaf is cell `offset(j) + c` of the tree.
pub proof fn lemma_cell_in_content(pages: Seq<Node>, j: int, c: int)
    requires
        tree_wf(pages),
        0 <= j < leaf_order(pages).len(),
        0 <= c < leaf_at(pages, leaf_order(pages)[j] as int).cells@.len(),
    ensures
        0 <= offset(pages, j) + c < content(pages).len(),
        content(pages)[offset(pages, j) + c] == leaf_at(pages, leaf_order(pages)[j] as int).pairs()[c],
        row_keys(content(pages))[offset(pages, j) + c] == leaf_at(pages, leaf_order(pages)[j] as int).keys()[c],
{
    let ss = leaf_rows(pages, leaf_order(pages));
    lemma_flatten_split(ss, j);
    lemma_leaf_keys(leaf_at(pages, leaf_order(pages)[j] as int));
}

} // verus!

verus! {

/// Where `find_spec` puts a key that the tree does not hold, the leaf holds another key, or
/// none; and the matching place in the tree's cells is within them.
pub proof fn lemma_absent_key_at(pages: Seq<Node>, key: u32, j: int, c: int)
    requires
        tree_wf(pages),
        find_spec(pages, key, j, c),
        !row_keys(content(pages)).contains(key),
    ensures
        ({
            let l = leaf_at(pages, leaf_order(pages)[j] as int);
            &&& c == l.cells@.len() || l.keys()[c] != key
            &&& 0 <= offset(pages, j) + c <= content(pages).len()
        }),
{
    let l = leaf_at(pages, leaf_order(pages)[j] as int);
    let ss = leaf_rows(pages, leaf_order(pages));
    lemma_flatten_split(ss, j);
    lemma_leaf_keys(l);
    if c < l.cells@.len() {
        lemma_cell_in_content(pages, j, c);
        assert(row_keys(content(pages))[offset(pages, j) + c] == l.keys()[c]);
    }
}

} // verus!

verus! {

/// The position of the leaf at page `page` in the leaf order.
pub open spec fn leaf_index(pages: Seq<Node>, page: u32) -> int {
    choose|j: int| 0 <= j < leaf_order(pages).len() && leaf_order(pages)[j] == page
}

pub proof fn lemma_leaf_index(pages: Seq<Node>, j: int)
    requires
        tree_wf(pages),
        0 <= j < leaf_order(pages).len(),
    ensures
        leaf_index(pages, leaf_order(pages)[j]) == j,
{
    let ord = leaf_order(pages);
    let i = leaf_index(pages, ord[j]);
    assert(0 <= i < ord.len() && ord[i] == ord[j]);
    if i != j && pages[0] is Internal {
        assert(root_internal(pages).children()[i] != root_internal(pages).children()[j]);
    }
}

/// The cells of the leaves before `j + 1` are those before `j` and the `j`-th leaf's; before
/// the end, all of them.
pub proof fn lemma_offset_step(pages: Seq<Node>, j: int)
    requires
        tree_wf(pages),
        0 <= j < leaf_order(pages).len(),
    ensures
        offset(pages, j + 1) == offset(pages, j) + leaf_at(pages, leaf_order(pages)[j] as int).cells@.len(),
        offset(pages, leaf_order(pages).len() as int) == content(pages).len(),
        0 <= offset(pages, j),
{
    let ss = leaf_rows(pages, leaf_order(pages));
    assert(ss.subrange(0, j + 1) =~= ss.subrange(0, j).push(ss[j]));
    ss.subrange(0, j).lemma_flatten_push(ss[j]);
    assert(ss.subrange(0, ss.len() as int) =~= ss);
    lemma_leaf_keys(leaf_at(pages, leaf_order(pages)[j] as int));
}

} // verus!

verus! {

/// Every cell of the tree from the `i`-th leaf on lies in some leaf.
proof fn lemma_locate_from(pages: Seq<Node>, m: int, i: int)
    requires
        tree_wf(pages),
        0 <= i < leaf_order(pages).len(),
        offset(pages, i) <= m < content(pages).len(),
    ensures
        exists|q: int|
            0 <= q < leaf_order(pages).len() && #[trigger] offset(pages, q) <= m < offset(pages, q)
                + leaf_at(pages, leaf_order(pages)[q] as int).cells@.len(),
    decreases leaf_order(pages).len() - i,
{
    lemma_offset_step(pages, i);
    if m >= offset(pages, i + 1) {
        if i + 1 == leaf_order(pages).len() {
            assert(false);
        } else {
            lemma_locate_from(pages, m, i + 1);
        }
    }
}

/// Every cell of the tree lies in some leaf.
pub proof fn lemma_locate(pages: Seq<Node>, m: int)
    requires
        tree_wf(pages),
        0 <= m < content(pages).len(),
    ensures
        exists|i: int|
            0 <= i < leaf_order(pages).len() && #[trigger] offset(pages, i) <= m < offset(pages, i)
                + leaf_at(pages, leaf_order(pages)[i] as int).cells@.len(),
{
    assert(leaf_rows(pages, leaf_order(pages)).subrange(0, 0) =~= Seq::<Seq<(u32, Seq<u8>)>>::empty());
    lemma_locate_from(pages, m, 0);
}

/// The cell `find_spec` picks holds `key` whenever the tree does.
pub proof fn lemma_find_complete(pages: Seq<Node>, key: u32, j: int, c: int)
    requires
        tree_wf(pages),
        find_spec(pages, key, j, c),
        row_keys(content(pages)).contains(key),
    ensures
        ({
            let l = leaf_at(pages, leaf_order(pages)[j] as int);
            c < l.cells@.len() && l.keys()[c] == key
        }),
{
    let ord = leaf_order(pages);
    let l = leaf_at(pages, ord[j] as int);
    let m = choose|m: int| 0 <= m < row_keys(content(pages)).len() && row_keys(content(pages))[m] == key;
    lemma_locate(pages, m);
    let i = choose|i: int|
        0 <= i < ord.len() && #[trigger] offset(pages, i) <= m < offset(pages, i) + leaf_at(pages, ord[i] as int).cells@.len();
    let d = m - offset(pages, i);
    let li = leaf_at(pages, ord[i] as int);
    lemma_cell_in_content(pages, i, d);
    lemma_order_facts(pages, i);
    lemma_order_facts(pages, j);
    lemma_leaf_keys(l);
    lemma_leaf_keys(li);
    assert(li.keys()[d] == key);
    if i < j {
        let r = root_internal(pages);
        assert(pages[0].wf());
        assert(separator_wf(pages, r, i));
        assert(r.keys()[i] <= r.keys()[j - 1]);
        if d < li.cells@.len() - 1 {
            assert(li.keys()[d] < li.keys().last());
        }
        assert(false);
    } else if i > j {
        let r = root_internal(pages);
        assert(pages[0].wf());
        assert(separator_wf(pages, r, i - 1));
        assert(r.keys()[j] <= r.keys()[i - 1]);
        if d > 0 {
            assert(li.keys()[0] < li.keys()[d]);
        }
        assert(false);
    } else {
        if d < c {
            assert(false);
        } else if d > c {
            assert(l.keys()[c] < l.keys()[d]);
            assert(false);
        }
    }
}

} // verus!

verus! {

/// `find_spec` picks one leaf and one cell.
pub proof fn lemma_find_unique(pages: Seq<Node>, key: u32, j1: int, c1: int, j2: int, c2: int)
    requires
        tree_wf(pages),
        find_spec(pages, key, j1, c1),
        find_spec(pages, key, j2, c2),
    ensures
        j1 == j2,
        c1 == c2,
{
    if j1 != j2 {
        let r = root_internal(pages);
        assert(pages[0].wf());
        if pages[0] is Leaf {
            assert(false);
        } else if j1 < j2 {
            assert(r.keys()[j1] <= r.keys()[j2 - 1]);
        } else {
            assert(r.keys()[j2] <= r.keys()[j1 - 1]);
        }
    }
    let l = leaf_at(pages, leaf_order(pages)[j1] as int);
    lemma_rank_unique(l.keys(), key, c1);
    lemma_rank_unique(l.keys(), key, c2);
}

} // verus!

verus! {

/// Inserting a key the table lacks adds exactly that key: afterwards the keys are the ones
/// before and the new one, each once.
pub proof fn lemma_insert_adds_key(
    pages: Seq<Node>,
    new_pages: Seq<Node>,
    pos: int,
    key: u32,
    value: Seq<u8>,
)
    requires
        tree_wf(pages),
        tree_wf(new_pages),
        !row_keys(content(pages)).contains(key),
        0 <= pos <= content(pages).len(),
        content(new_pages) == content(pages).insert(pos, (key, value)),
    ensures
        row_keys(content(new_pages)).to_set() == row_keys(content(pages)).to_set().insert(key),
        row_keys(content(new_pages)).no_duplicates(),
        row_keys(content(new_pages)).len() == row_keys(content(pages)).len() + 1,
{
    let a = row_keys(content(pages));
    let b = row_keys(content(new_pages));
    assert(b =~= a.insert(pos, key));
    lemma_content_sorted(new_pages);
    assert forall|x: u32| b.to_set().contains(x) <==> a.to_set().insert(key).contains(x) by {
        if b.contains(x) {
            let i = choose|i: int| 0 <= i < b.len() && b[i] == x;
            if i < pos {
                assert(a[i] == x);
            } else if i > pos {
                assert(a[i - 1] == x);
            }
        }
        if a.contains(x) {
            let i = choose|i: int| 0 <= i < a.len() && a[i] == x;
            if i < pos {
                assert(b[i] == x);
            } else {
                assert(b[i + 1] == x);
            }
        }
        if x == key {
            assert(b[pos] == x);
        }
    }
    assert(b.to_set() =~= a.to_set().insert(key));
}

/// Separator keys: each key of an internal root is the largest key under the child it pairs
/// with, and every key under the next child is larger.
pub proof fn lemma_separators(pages: Seq<Node>)
    requires
        tree_wf(pages),
        pages[0] is Internal,
    ensures
        ({
            let r = root_internal(pages);
            let ch = r.children();
            forall|i: int|
                0 <= i < r.cells@.len() ==> {
                    &&& (#[trigger] r.keys()[i]) == leaf_at(pages, ch[i] as int).keys().last()
                    &&& forall|m: int|
                        0 <= m < leaf_at(pages, ch[i] as int).keys().len() ==> #[trigger] leaf_at(pages, ch[i] as int).keys()[m] <= r.keys()[i]
                    &&& forall|m: int|
                        0 <= m < leaf_at(pages, ch[i + 1] as int).keys().len() ==> r.keys()[i] < #[trigger] leaf_at(pages, ch[i + 1] as int).keys()[m]
                }
        }),
{
    let r = root_internal(pages);
    let ch = r.children();
    assert forall|i: int| 0 <= i < r.cells@.len() implies {
        &&& (#[trigger] r.keys()[i]) == leaf_at(pages, ch[i] as int).keys().last()
        &&& forall|m: int|
            0 <= m < leaf_at(pages, ch[i] as int).keys().len() ==> #[trigger] leaf_at(pages, ch[i] as int).keys()[m] <= r.keys()[i]
        &&& forall|m: int|
            0 <= m < leaf_at(pages, ch[i + 1] as int).keys().len() ==> r.keys()[i] < #[trigger] leaf_at(pages, ch[i + 1] as int).keys()[m]
    } by {
        assert(separator_wf(pages, r, i));
        lemma_order_facts(pages, i);
        lemma_order_facts(pages, i + 1);
        let a = leaf_at(pages, ch[i] as int);
        let b = leaf_at(pages, ch[i + 1] as int);
        assert forall|m: int| 0 <= m < a.keys().len() implies a.keys()[m] <= r.keys()[i] by {
            if m < a.keys().len() - 1 {
                assert(a.keys()[m] < a.keys().last());
            }
        }
        assert forall|m: int| 0 <= m < b.keys().len() implies r.keys()[i] < b.keys()[m] by {
            if m > 0 {
                assert(b.keys()[0] < b.keys()[m]);
            }
        }
    }
}

/// The leaf chain: the leaf order lists every leaf page once, each leaf's next leaf is the one
/// after it, and the last one's is 0.
pub proof fn lemma_leaf_chain(pages: Seq<Node>)
    requires
        tree_wf(pages),
    ensures
        ({
            let ord = leaf_order(pages);
            &&& ord.no_duplicates()
            &&& forall|p: int| 0 <= p < pages.len() ==> ((#[trigger] pages[p]) is Leaf <==> ord.contains(p as u32))
            &&& forall|i: int| 0 <= i < ord.len() ==> pages[ord[i] as int] is Leaf
            &&& forall|i: int| 0 <= i < ord.len() ==> #[trigger] leaf_at(pages, ord[i] as int).next_leaf
                == if i + 1 < ord.len() {
                ord[i + 1]
            } else {
                0
            }
        }),
{
    let ord = leaf_order(pages);
    assert forall|i: int| 0 <= i < ord.len() implies pages[ord[i] as int] is Leaf && leaf_at(pages, ord[i] as int).next_leaf == if i + 1 < ord.len() {
        ord[i + 1]
    } else {
        0
    } by {
        lemma_order_facts(pages, i);
    }
    assert forall|a: int, b: int| 0 <= a < ord.len() && 0 <= b < ord.len() && a != b implies ord[a] != ord[b] by {
        if pages[0] is Internal {
            assert(root_internal(pages).children()[a] != root_internal(pages).children()[b]);
        }
    }
    assert forall|p: int| 0 <= p < pages.len() implies ((#[trigger] pages[p]) is Leaf <==> ord.contains(p as u32)) by {
        if pages[0] is Internal {
            if p >= 1 {
                assert(ord.contains(p as u32));
                let i = choose|i: int| 0 <= i < ord.len() && ord[i] == p as u32;
                lemma_order_facts(pages, i);
            } else {
                if ord.contains(0) {
                    let i = choose|i: int| 0 <= i < ord.len() && ord[i] == 0;
                    lemma_order_facts(pages, i);
                }
            }
        } else {
            assert(ord[0] == 0);
        }
    }
}

} // verus!

verus! {

/// Two nodes that agree on everything the tree reads of them.
pub open spec fn same_view(a: Node, b: Node) -> bool {
    match (a, b) {
        (Node::Leaf(x), Node::Leaf(y)) => {
            &&& x.node == y.node
            &&& x.next_leaf == y.next_leaf
            &&& x.cells@.len() == y.cells@.len()
            &&& x.pairs() == y.pairs()
            &&& x.keys() == y.keys()
            &&& forall|i: int| 0 <= i < x.cells@.len() ==> #[trigger] x.cells@[i].value@ == y.cells@[i].value@
        },
        (Node::Internal(x), Node::Internal(y)) => {
            &&& x.node == y.node
            &&& x.right_child == y.right_child
            &&& x.cells@ == y.cells@
        },
        _ => false,
    }
}

/// A node read back from the page that holds a well-formed node agrees with it.
pub proof fn lemma_decoded_same_view(a: Node, b: Node)
    requires
        a.wf(),
        decoded_as(page_bytes(a), b),
    ensures
        same_view(a, b),
        b.wf(),
{
    lemma_page_round_trip(a);
    let bytes = page_bytes(a);
    match (a, b) {
        (Node::Leaf(x), Node::Leaf(y)) => {
            assert forall|i: int| 0 <= i < x.cells@.len() implies #[trigger] x.cells@[i].value@ == y.cells@[i].value@ && x.cells@[i].key == y.cells@[i].key by {
                assert(x.cells@[i].key == u32_at(bytes, 16 + 303 * i));
                assert(y.cells@[i].key == u32_at(bytes, 16 + 303 * i));
            }
            assert(x.pairs() =~= y.pairs());
            assert(x.keys() =~= y.keys());
            assert forall|i: int| 0 <= i < y.cells@.len() implies valid_value(#[trigger] y.cells@[i]) by {
                assert(valid_value(x.cells@[i]));
                assert(x.cells@[i].value@ == y.cells@[i].value@);
            }
        },
        (Node::Internal(x), Node::Internal(y)) => {
            assert forall|i: int| 0 <= i < x.cells@.len() implies x.cells@[i] == y.cells@[i] by {
                assert(x.cells@[i].key == u32_at(bytes, 16 + 8 * i + 4));
                assert(x.cells@[i].child == u32_at(bytes, 16 + 8 * i));
            }
            assert(x.cells@ =~= y.cells@);
        },
        _ => {},
    }
}

/// Pages that agree one by one form the same tree with the same cells.
pub proof fn lemma_same_view_tree(pages: Seq<Node>, new_pages: Seq<Node>)
    requires
        tree_wf(pages),
        new_pages.len() == pages.len(),
        forall|p: int| 0 <= p < pages.len() ==> same_view(#[trigger] pages[p], new_pages[p]),
        forall|p: int| 0 <= p < pages.len() ==> (#[trigger] new_pages[p]).wf(),
    ensures
        tree_wf(new_pages),
        leaf_order(new_pages) == leaf_order(pages),
        content(new_pages) == content(pages),
{
    assert(same_view(pages[0], new_pages[0]));
    let ord = leaf_order(pages);
    assert(leaf_order(new_pages) == ord) by {
        if pages[0] is Internal {
            let x = root_internal(pages);
            let y = root_internal(new_pages);
            assert(x.children() =~= y.children());
        }
    }
    assert forall|p: int| 1 <= p < new_pages.len() implies !(#[trigger] new_pages[p]).is_root_spec() by {
        assert(same_view(pages[p], new_pages[p]));
        assert(!pages[p].is_root_spec());
    }
    if pages[0] is Internal {
        let x = root_internal(pages);
        let y = root_internal(new_pages);
        assert(x.keys() =~= y.keys());
        assert(x.children() =~= y.children());
        let ch = x.children();
        assert forall|i: int| 0 <= i < ch.len() implies #[trigger] leaf_child_wf(new_pages, ch, i) by {
            assert(leaf_child_wf(pages, ch, i));
            lemma_order_facts(pages, i);
            assert(same_view(pages[ch[i] as int], new_pages[ch[i] as int]));
        }
        assert forall|i: int| 0 <= i < x.cells@.len() implies #[trigger] separator_wf(new_pages, y, i) by {
            assert(separator_wf(pages, x, i));
            lemma_order_facts(pages, i);
            lemma_order_facts(pages, i + 1);
            assert(same_view(pages[ch[i] as int], new_pages[ch[i] as int]));
            assert(same_view(pages[ch[i + 1] as int], new_pages[ch[i + 1] as int]));
        }
        assert(internal_root_wf(new_pages, y));
    }
    assert forall|i: int| 0 <= i < ord.len() implies leaf_at(new_pages, ord[i] as int).pairs() == leaf_at(pages, ord[i] as int).pairs() by {
        lemma_order_facts(pages, i);
        assert(same_view(pages[ord[i] as int], new_pages[ord[i] as int]));
    }
    assert(leaf_rows(new_pages, ord) =~= leaf_rows(pages, ord));
}

/// Persistence: pages read back from the bytes that hold a well-formed tree form the same tree
/// with the same cells in the same order.
pub proof fn lemma_persistence(pages: Seq<Node>, new_pages: Seq<Node>)
    requires
        tree_wf(pages),
        new_pages.len() == pages.len(),
        forall|p: int| 0 <= p < pages.len() ==> decoded_as(page_bytes(pages[p]), #[trigger] new_pages[p]),
    ensures
        tree_wf(new_pages),
        content(new_pages) == content(pages),
{
    assert forall|p: int| 0 <= p < pages.len() implies same_view(#[trigger] pages[p], new_pages[p]) && new_pages[p].wf() by {
        assert(pages[p].wf());
        lemma_decoded_same_view(pages[p], new_pages[p]);
    }
    lemma_same_view_tree(pages, new_pages);
}

} // verus!

verus! {

/// Offsets grow along the leaf order.
pub proof fn lemma_offset_mono(pages: Seq<Node>, a: int, b: int)
    requires
        tree_wf(pages),
        0 <= a <= b < leaf_order(pages).len(),
    ensures
        offset(pages, a) + leaf_at(pages, leaf_order(pages)[a] as int).cells@.len() <= offset(pages, b + 1),
        offset(pages, a) <= offset(pages, b),
    decreases b - a,
{
    lemma_offset_step(pages, a);
    if a < b {
        lemma_offset_mono(pages, a + 1, b);
    }
}

/// The cell `find_spec` picks is where `key` falls among all the tree's keys: every key before
/// it is smaller, none from it on is.
pub proof fn lemma_find_rank(pages: Seq<Node>, key: u32, j: int, c: int)
    requires
        tree_wf(pages),
        find_spec(pages, key, j, c),
    ensures
        is_rank(row_keys(content(pages)), key, offset(pages, j) + c),
{
    let ord = leaf_order(pages);
    let ks = row_keys(content(pages));
    let pos = offset(pages, j) + c;
    let lj = leaf_at(pages, ord[j] as int);
    lemma_order_facts(pages, j);
    lemma_offset_step(pages, j);
    lemma_offset_mono(pages, j, j);
    assert(offset(pages, ord.len() as int) == content(pages).len());
    if j + 1 < ord.len() {
        lemma_offset_mono(pages, j, ord.len() - 1);
    }
    assert(pos <= ks.len());
    assert forall|m: int| 0 <= m < ks.len() implies (m < pos ==> ks[m] < key) && (m >= pos ==> key <= ks[m]) by {
        lemma_locate(pages, m);
        let i = choose|i: int|
            0 <= i < ord.len() && #[trigger] offset(pages, i) <= m < offset(pages, i) + leaf_at(pages, ord[i] as int).cells@.len();
        let d = m - offset(pages, i);
        let li = leaf_at(pages, ord[i] as int);
        lemma_cell_in_content(pages, i, d);
        lemma_order_facts(pages, i);
        lemma_leaf_keys(li);
        lemma_leaf_keys(lj);
        let r = root_internal(pages);
        assert(pages[0].wf());
        if i < j {
            lemma_offset_mono(pages, i, j - 1);
            assert(separator_wf(pages, r, i));
            assert(r.keys()[i] <= r.keys()[j - 1]);
            if d < li.cells@.len() - 1 {
                assert(li.keys()[d] < li.keys().last());
            }
        } else if i > j {
            lemma_offset_mono(pages, j, i - 1);
            assert(separator_wf(pages, r, i - 1));
            assert(r.keys()[j] <= r.keys()[i - 1]);
            if d > 0 {
                assert(li.keys()[0] < li.keys()[d]);
            }
        }
    }
}

} // verus!

verus! {

/// The pages after `(key, value)` went in at cell `c` of the `j`-th leaf. A leaf with room takes
/// the cell and no other page changes. A full root leaf splits as `root_split_shape` says, any
/// other full leaf as `split_shape` says.
pub open spec fn insert_shape(
    pages: Seq<Node>,
    j: int,
    c: int,
    key: u32,
    value: Seq<u8>,
    new_pages: Seq<Node>,
) -> bool {
    let p = leaf_order(pages)[j] as int;
    let l = leaf_at(pages, p);
    if l.cells@.len() < LEAF_NODE_MAX_CELLS {
        &&& new_pages.len() == pages.len()
        &&& forall|q: int| 0 <= q < pages.len() && q != p ==> new_pages[q] == pages[q]
        &&& new_pages[p] matches Node::Leaf(nl) && nl.node == l.node && nl.next_leaf == l.next_leaf
            && nl.pairs() == l.pairs().insert(c, (key, value))
    } else if pages[0] is Leaf {
        root_split_shape(pages, c, key, value, new_pages)
    } else {
        split_shape(pages, j, c, key, value, new_pages)
    }
}

} // verus!

verus! {

/// `b` is the table's cells after an attempt to insert `key` into cells `a`: unchanged when the
/// key is there already, else `a` with one cell of that key put in.
pub open spec fn insert_step(a: Seq<(u32, Seq<u8>)>, b: Seq<(u32, Seq<u8>)>, key: u32) -> bool {
    if row_keys(a).contains(key) {
        b == a
    } else {
        exists|pos: int, v: Seq<u8>| 0 <= pos <= a.len() && b == a.insert(pos, (key, v))
    }
}

/// Completeness: inserting keys one after another into an empty table, a repeated key being
/// refused, leaves exactly those keys, each once.
pub proof fn lemma_completeness(steps: Seq<Seq<(u32, Seq<u8>)>>, keys: Seq<u32>)
    requires
        steps.len() == keys.len() + 1,
        steps[0].len() == 0,
        forall|i: int| 0 <= i < keys.len() ==> #[trigger] insert_step(steps[i], steps[i + 1], keys[i]),
    ensures
        row_keys(steps.last()).to_set() == keys.to_set(),
        row_keys(steps.last()).no_duplicates(),
    decreases keys.len(),
{
    if keys.len() == 0 {
        assert(row_keys(steps[0]) =~= Seq::<u32>::empty());
        assert(row_keys(steps.last()).to_set() =~= keys.to_set());
    } else {
        let n = keys.len() - 1;
        let ks = keys.drop_last();
        let ss = steps.drop_last();
        assert forall|i: int| 0 <= i < ks.len() implies #[trigger] insert_step(ss[i], ss[i + 1], ks[i]) by {
            assert(insert_step(steps[i], steps[i + 1], keys[i]));
        }
        lemma_completeness(ss, ks);
        let a = steps[n];
        let b = steps[n + 1];
        let k = keys[n];
        assert(ss.last() == a);
        assert(insert_step(a, b, k));
        assert(keys =~= ks.push(k));
        assert(keys.to_set() =~= ks.to_set().insert(k)) by {
            assert forall|x: u32| keys.to_set().contains(x) <==> ks.to_set().insert(k).contains(x) by {
                if keys.contains(x) {
                    let i = choose|i: int| 0 <= i < keys.len() && keys[i] == x;
                    if i < n {
                        assert(ks[i] == x);
                    }
                }
                if ks.contains(x) {
                    let i = choose|i: int| 0 <= i < ks.len() && ks[i] == x;
                    assert(keys[i] == x);
                }
                if x == k {
                    assert(keys[n] == x);
                }
            }
        }
        if row_keys(a).contains(k) {
            assert(row_keys(a).to_set().contains(k));
            assert(row_keys(a).to_set() =~= row_keys(a).to_set().insert(k));
        } else {
            let (pos, v) = choose|pos: int, v: Seq<u8>| 0 <= pos <= a.len() && b == a.insert(pos, (k, v));
            let ra = row_keys(a);
            let rb = row_keys(b);
            assert(rb =~= ra.insert(pos, k));
            assert(rb.to_set() =~= ra.to_set().insert(k)) by {
                assert forall|x: u32| rb.to_set().contains(x) <==> ra.to_set().insert(k).contains(x) by {
                    if rb.contains(x) {
                        let i = choose|i: int| 0 <= i < rb.len() && rb[i] == x;
                        if i < pos {
                            assert(ra[i] == x);
                        } else if i > pos {
                            assert(ra[i - 1] == x);
                        }
                    }
                    if ra.contains(x) {
                        let i = choose|i: int| 0 <= i < ra.len() && ra[i] == x;
                        if i < pos {
                            assert(rb[i] == x);
                        } else {
                            assert(rb[i + 1] == x);
                        }
                    }
                    if x == k {
                        assert(rb[pos] == x);
                    }
                }
            }
            assert forall|i: int, j: int| 0 <= i < rb.len() && 0 <= j < rb.len() && i != j implies rb[i] != rb[j] by {
                let i0 = if i < pos { i } else { i - 1 };
                let j0 = if j < pos { j } else { j - 1 };
                if i != pos && j != pos {
                    assert(rb[i] == ra[i0] && rb[j] == ra[j0]);
                } else if i == pos {
                    assert(rb[j] == ra[j0]);
                } else {
                    assert(rb[i] == ra[i0]);
                }
            }
        }
    }
}

} // verus!
