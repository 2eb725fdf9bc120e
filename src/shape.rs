//! Deciding whether pages read from storage form a well-formed tree.

use crate::btree::{internal_root_wf, leaf_at, leaf_child_wf, separator_wf, tree_wf};
use crate::layout::TABLE_MAX_PAGES;
use crate::node::internal::InternalNode;
use crate::node::Node;
use crate::pager::Pager;
use vstd::prelude::*;

verus! {

impl Node {
    pub fn is_root(&self) -> (r: bool)
        ensures
            r == self.is_root_spec(),
    {
        match self {
            Node::Internal(n) => n.node.is_root(),
            Node::Leaf(n) => n.node.is_root(),
        }
    }
}

/// The cached node at page `i`.
fn node_at<S>(pager: &Pager<S>, i: u32) -> (r: &Node)
    requires
        pager.wf(),
        pager.loaded(),
        i < pager.num_pages,
    ensures
        *r == pager.view()[i as int],
{
    pager.page(i)
}

/// Whether `child` is a non-empty leaf under page 0 linking to `next`.
fn is_leaf_child<S>(pager: &Pager<S>, child: u32, next: u32) -> (r: bool)
    requires
        pager.wf(),
        pager.loaded(),
        child < pager.view().len(),
    ensures
        r == {
            &&& pager.view()[child as int] is Leaf
            &&& leaf_at(pager.view(), child as int).node.header.parent == 0
            &&& leaf_at(pager.view(), child as int).cells@.len() >= 1
            &&& leaf_at(pager.view(), child as int).next_leaf == next
        },
{
    match node_at(pager, child) {
        Node::Leaf(l) => l.node.parent() == 0 && l.cells.len() >= 1 && l.next_leaf == next,
        Node::Internal(_) => false,
    }
}

/// Whether separator `i` of `r` is the largest key of child `i` and below the first key of
/// child `i + 1`, both non-empty leaves.
fn is_separator<S>(pager: &Pager<S>, r: &InternalNode, i: usize) -> (res: bool)
    requires
        pager.wf(),
        pager.loaded(),
        i < r.cells@.len(),
        r.wf(),
        forall|j: int| 0 <= j < r.children().len() ==> #[trigger] r.children()[j] < pager.view().len(),
        forall|j: int| 0 <= j < r.children().len() ==> #[trigger] leaf_child_wf(pager.view(), r.children(), j),
    ensures
        res == separator_wf(pager.view(), *r, i as int),
{
    let key = r.cells[i].key;
    let left = r.child(i as u32);
    let right = r.child((i + 1) as u32);
    assert(r.keys()[i as int] == key);
    assert(leaf_child_wf(pager.view(), r.children(), i as int));
    assert(leaf_child_wf(pager.view(), r.children(), i + 1));
    let lmax = match node_at(pager, left) {
        Node::Leaf(l) => {
            assert(*l == leaf_at(pager.view(), left as int));
            l.get_max_key()
        },
        Node::Internal(_) => 0,
    };
    let rmin = match node_at(pager, right) {
        Node::Leaf(l) => {
            assert(*l == leaf_at(pager.view(), right as int));
            l.key(0)
        },
        Node::Internal(_) => 0,
    };
    assert(leaf_at(pager.view(), left as int).keys().last() == leaf_at(pager.view(), left as int).cells@.last().key);
    key == lmax && key < rmin
}

/// Whether an internal root has the shape `internal_root_wf` asks for.
fn is_internal_root<S>(pager: &Pager<S>, r: &InternalNode) -> (res: bool)
    requires
        pager.wf(),
        pager.loaded(),
        r.wf(),
    ensures
        res == internal_root_wf(pager.view(), *r),
{
    let n = pager.num_pages as usize;
    let k = r.cells.len();
    if k < 1 || n != k + 2 {
        return false;
    }
    let ghost ch = r.children();
    // Every child is a page other than the root.
    let mut i: usize = 0;
    while i <= k
        invariant
            pager.wf(),
            pager.loaded(),
            0 <= i <= k + 1,
            ch == r.children(),
            k == r.cells@.len(),
            r.wf(),
            ch.len() == k + 1,
            n == pager.view().len(),
            forall|j: int| 0 <= j < i ==> 1 <= #[trigger] ch[j] < n,
        decreases k + 1 - i,
    {
        let c = r.child(i as u32);
        if c < 1 || c as usize >= n {
            assert(!(1 <= ch[i as int] < n));
            return false;
        }
        assert(1 <= ch[i as int] < n);
        i = i + 1;
    }
    // No child twice.
    let mut a: usize = 0;
    while a <= k
        invariant
            pager.wf(),
            pager.loaded(),
            0 <= a <= k + 1,
            ch == r.children(),
            k == r.cells@.len(),
            r.wf(),
            ch.len() == k + 1,
            forall|x: int, y: int| 0 <= x < a && 0 <= y < ch.len() && x != y ==> ch[x] != ch[y],
        decreases k + 1 - a,
    {
        let mut b: usize = 0;
        while b <= k
            invariant
                pager.wf(),
                pager.loaded(),
                0 <= a <= k,
                0 <= b <= k + 1,
                ch == r.children(),
                k == r.cells@.len(),
                r.wf(),
                ch.len() == k + 1,
                forall|x: int, y: int| 0 <= x < a && 0 <= y < ch.len() && x != y ==> ch[x] != ch[y],
                forall|y: int| 0 <= y < b && a != y ==> ch[a as int] != ch[y],
            decreases k + 1 - b,
        {
            if a != b && r.child(a as u32) == r.child(b as u32) {
                assert(ch[a as int] == ch[b as int]);
                return false;
            }
            b = b + 1;
        }
        a = a + 1;
    }
    // Every page but the root is a child.
    let mut p: usize = 1;
    while p < n
        invariant
            pager.wf(),
            pager.loaded(),
            1 <= p <= n,
            n == pager.view().len(),
            n == k + 2,
            ch == r.children(),
            k == r.cells@.len(),
            r.wf(),
            ch.len() == k + 1,
            forall|q: u32| 1 <= q < p ==> #[trigger] ch.contains(q),
        decreases n - p,
    {
        let mut found = false;
        let mut i: usize = 0;
        while i <= k
            invariant
                pager.wf(),
                pager.loaded(),
                0 <= i <= k + 1,
                1 <= p < n,
                n == k + 2,
                ch == r.children(),
                k == r.cells@.len(),
                r.wf(),
                ch.len() == k + 1,
                found ==> ch.contains(p as u32),
                !found ==> forall|j: int| 0 <= j < i ==> ch[j] != p as u32,
            decreases k + 1 - i,
        {
            if r.child(i as u32) as usize == p {
                found = true;
            }
            i = i + 1;
        }
        if !found {
            assert(!ch.contains(p as u32));
            return false;
        }
        p = p + 1;
    }
    // Each child is a non-empty leaf under the root linking to the next one.
    let mut i: usize = 0;
    while i <= k
        invariant
            pager.wf(),
            pager.loaded(),
            0 <= i <= k + 1,
            n == pager.view().len(),
            ch == r.children(),
            k == r.cells@.len(),
            r.wf(),
            ch.len() == k + 1,
            forall|j: int| 0 <= j < ch.len() ==> 1 <= #[trigger] ch[j] < n,
            forall|j: int| 0 <= j < i ==> #[trigger] leaf_child_wf(pager.view(), ch, j),
        decreases k + 1 - i,
    {
        let next = if i < k {
            r.child((i + 1) as u32)
        } else {
            0
        };
        if !is_leaf_child(pager, r.child(i as u32), next) {
            assert(!leaf_child_wf(pager.view(), ch, i as int));
            return false;
        }
        i = i + 1;
    }
    // Each separator splits its two children.
    let mut i: usize = 0;
    while i < k
        invariant
            pager.wf(),
            pager.loaded(),
            0 <= i <= k,
            n == pager.view().len(),
            ch == r.children(),
            k == r.cells@.len(),
            r.wf(),
            ch.len() == k + 1,
            forall|j: int| 0 <= j < ch.len() ==> 1 <= #[trigger] ch[j] < n,
            forall|j: int| 0 <= j < ch.len() ==> #[trigger] leaf_child_wf(pager.view(), ch, j),
            forall|j: int| 0 <= j < i ==> #[trigger] separator_wf(pager.view(), *r, j),
        decreases k - i,
    {
        if !is_separator(pager, r, i) {
            assert(!separator_wf(pager.view(), *r, i as int));
            return false;
        }
        i = i + 1;
    }
    true
}

/// Whether the pages form the tree `tree_wf` describes.
pub fn is_tree<S>(pager: &Pager<S>) -> (r: bool)
    requires
        pager.wf(),
        pager.loaded(),
        forall|p: int| 0 <= p < pager.view().len() ==> (#[trigger] pager.view()[p]).wf(),
    ensures
        r == tree_wf(pager.view()),
{
    let n = pager.num_pages as usize;
    if n < 1 || n > TABLE_MAX_PAGES {
        return false;
    }
    if !node_at(pager, 0).is_root() {
        return false;
    }
    let mut p: usize = 1;
    while p < n
        invariant
            pager.wf(),
            pager.loaded(),
            1 <= p <= n,
            n == pager.view().len(),
            forall|q: int| 1 <= q < p ==> !(#[trigger] pager.view()[q]).is_root_spec(),
        decreases n - p,
    {
        if node_at(pager, p as u32).is_root() {
            return false;
        }
        p = p + 1;
    }
    match node_at(pager, 0) {
        Node::Leaf(l) => n == 1 && l.next_leaf == 0,
        Node::Internal(r) => {
            assert(pager.view()[0].wf());
            is_internal_root(pager, r)
        },
    }
}

} // verus!
