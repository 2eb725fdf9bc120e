//! The page cache between the tree and its storage: pages are read on first use and written
//! back on close.

use crate::layout::{zeros, PAGE_SIZE, TABLE_MAX_PAGES};
use crate::node::common::{CommonNode, NodeType};
use crate::node::internal::InternalNode;
use crate::node::leaf::LeafNode;
use crate::node::{decoded_as, page_bytes, Node};
use crate::storage::Storage;
use vstd::prelude::*;

verus! {

/// The page cache: one slot per page number, filled the first time a page is asked for.
pub struct Pager<S> {
    pub storage: S,
    /// Pages in the storage when it was opened.
    pub file_pages: u32,
    /// Pages known, including those not yet written back.
    pub num_pages: u32,
    /// The cached node of each page number, if it was read or made.
    pub slots: Vec<Option<Node>>,
}

/// The node a filled slot holds.
pub open spec fn slot_node(slot: Option<Node>) -> Node {
    match slot {
        Some(n) => n,
        None => arbitrary(),
    }
}

/// An empty slot, or one holding a well-formed node.
pub open spec fn slot_wf(slot: Option<Node>) -> bool {
    match slot {
        Some(n) => n.wf(),
        None => true,
    }
}

/// Why a table could not be opened or a page could not be read.
#[derive(Debug, Clone, Copy, PartialEq, Eq, Structural)]
pub enum OpenError {
    /// The storage holds more pages than a table may have.
    TooManyPages,
    /// A page holds no well-formed node.
    CorruptPage,
    /// The pages do not form a B+tree rooted at page 0.
    CorruptTree,
}

/// Some well-formed node is what the page `b` holds.
pub open spec fn page_readable(b: Seq<u8>) -> bool {
    exists|n: Node| #[trigger] decoded_as(b, n) && n.wf()
}

impl<S> Pager<S> {
    /// One slot per possible page, none filled past the known pages.
    pub open spec fn wf(&self) -> bool {
        &&& self.slots@.len() == TABLE_MAX_PAGES
        &&& self.file_pages <= self.num_pages <= TABLE_MAX_PAGES
        &&& forall|i: int| self.num_pages <= i < TABLE_MAX_PAGES ==> (#[trigger] self.slots@[i]) is None
    }

    /// Every known page is in the cache.
    pub open spec fn loaded(&self) -> bool {
        forall|i: int| 0 <= i < self.num_pages ==> (#[trigger] self.slots@[i]) is Some
    }

    /// The cached nodes of the known pages, in page order.
    pub open spec fn view(&self) -> Seq<Node> {
        Seq::new(self.num_pages as nat, |i: int| slot_node(self.slots@[i]))
    }

    /// The cached node at `page_num`.
    pub fn page(&self, page_num: u32) -> (r: &Node)
        requires
            page_num < self.slots@.len(),
            self.slots@[page_num as int] is Some,
        ensures
            *r == slot_node(self.slots@[page_num as int]),
            page_num < self.num_pages ==> *r == self.view()[page_num as int],
    {
        match &self.slots[page_num as usize] {
            Some(n) => n,
            None => unreached(),
        }
    }

    /// Takes the node at `page_num` out, leaving an empty leaf in its place.
    pub fn take_page(&mut self, page_num: u32) -> (r: Node)
        requires
            old(self).wf(),
            old(self).loaded(),
            page_num < old(self).num_pages,
        ensures
            r == old(self).view()[page_num as int],
            final(self).wf(),
            final(self).loaded(),
            final(self).view().len() == old(self).view().len(),
            final(self).num_pages == old(self).num_pages,
            final(self).file_pages == old(self).file_pages,
            final(self).storage == old(self).storage,
            forall|i: int| 0 <= i < old(self).view().len() && i != page_num ==> final(self).view()[i]
                == old(self).view()[i],
    {
        let mut slot = Some(Node::Leaf(LeafNode::new(CommonNode::new(NodeType::Leaf))));
        self.slots.set_and_swap(page_num as usize, &mut slot);
        match slot {
            Some(n) => n,
            None => unreached(),
        }
    }

    /// Stores `node` at `page_num`.
    pub fn put_page(&mut self, page_num: u32, node: Node)
        requires
            old(self).wf(),
            page_num < old(self).num_pages,
        ensures
            final(self).wf(),
            old(self).loaded() ==> final(self).loaded(),
            final(self).view() == old(self).view().update(page_num as int, node),
            final(self).slots@[page_num as int] == Some(node),
            final(self).num_pages == old(self).num_pages,
            final(self).file_pages == old(self).file_pages,
            final(self).storage == old(self).storage,
    {
        self.slots.set(page_num as usize, Some(node));
        assert(final(self).view() =~= old(self).view().update(page_num as int, node));
    }

    /// Appends `node` as a new page.
    pub fn push_page(&mut self, node: Node)
        requires
            old(self).wf(),
            old(self).num_pages < TABLE_MAX_PAGES,
        ensures
            final(self).wf(),
            old(self).loaded() ==> final(self).loaded(),
            final(self).view() == old(self).view().push(node),
            final(self).num_pages == old(self).num_pages + 1,
            final(self).file_pages == old(self).file_pages,
            final(self).storage == old(self).storage,
    {
        self.slots.set(self.num_pages as usize, Some(node));
        self.num_pages = self.num_pages + 1;
        assert(final(self).view() =~= old(self).view().push(node));
    }

    /// Stores `node` at `page_num`, making the pages before it known.
    fn install(&mut self, page_num: u32, node: Node)
        requires
            old(self).wf(),
            page_num < TABLE_MAX_PAGES,
        ensures
            final(self).wf(),
            final(self).slots@ == old(self).slots@.update(page_num as int, Some(node)),
            final(self).num_pages == if page_num < old(self).num_pages {
                old(self).num_pages
            } else {
                (page_num + 1) as u32
            },
            final(self).file_pages == old(self).file_pages,
            final(self).storage == old(self).storage,
    {
        self.slots.set(page_num as usize, Some(node));
        if page_num >= self.num_pages {
            self.num_pages = page_num + 1;
        }
    }

    /// Makes page `page_num` an empty leaf that is not the root, with parent 0 and no next leaf.
    pub fn new_leaf_page(&mut self, page_num: u32)
        requires
            old(self).wf(),
            page_num < TABLE_MAX_PAGES,
        ensures
            final(self).wf(),
            final(self).slots@.len() == old(self).slots@.len(),
            forall|i: int| 0 <= i < old(self).slots@.len() && i != page_num ==> final(self).slots@[i]
                == old(self).slots@[i],
            final(self).slots@[page_num as int] matches Some(Node::Leaf(l)) && l.wf() && l.cells@.len()
                == 0 && l.next_leaf == 0 && l.node == CommonNode::new_spec(NodeType::Leaf),
            final(self).num_pages == if page_num < old(self).num_pages {
                old(self).num_pages
            } else {
                (page_num + 1) as u32
            },
            final(self).file_pages == old(self).file_pages,
            final(self).storage == old(self).storage,
    {
        self.install(page_num, Node::Leaf(LeafNode::new(CommonNode::new(NodeType::Leaf))));
    }

    /// Makes page `page_num` an internal node with no keys that is not the root, with parent 0.
    pub fn new_internal_page(&mut self, page_num: u32)
        requires
            old(self).wf(),
            page_num < TABLE_MAX_PAGES,
        ensures
            final(self).wf(),
            final(self).slots@.len() == old(self).slots@.len(),
            forall|i: int| 0 <= i < old(self).slots@.len() && i != page_num ==> final(self).slots@[i]
                == old(self).slots@[i],
            final(self).slots@[page_num as int] matches Some(Node::Internal(n)) && n.wf()
                && n.cells@.len() == 0 && n.right_child == 0 && n.node == CommonNode::new_spec(
                NodeType::Internal,
            ),
            final(self).num_pages == if page_num < old(self).num_pages {
                old(self).num_pages
            } else {
                (page_num + 1) as u32
            },
            final(self).file_pages == old(self).file_pages,
            final(self).storage == old(self).storage,
    {
        self.install(page_num, Node::Internal(InternalNode::new(CommonNode::new(NodeType::Internal))));
    }

    /// New pages always go at the end.
    pub fn get_unused_page_num(&self) -> (r: u32)
        ensures
            r == self.num_pages,
    {
        self.num_pages
    }
}

impl<S: Storage> Pager<S> {
    /// The storage is as it was opened: it keeps its invariant and holds `file_pages` pages.
    pub open spec fn storage_ok(&self) -> bool {
        &&& self.storage.inv()
        &&& self.storage.pages().len() == self.file_pages
    }

    /// Opens a pager over `storage`: the page count is the storage's, and no page is read yet.
    pub fn open(storage: S) -> (r: Result<Pager<S>, OpenError>)
        requires
            storage.inv(),
        ensures
            match r {
                Ok(p) => {
                    &&& p.wf()
                    &&& p.storage_ok()
                    &&& p.storage.pages() == storage.pages()
                    &&& p.num_pages == storage.pages().len()
                    &&& forall|i: int| 0 <= i < TABLE_MAX_PAGES ==> (#[trigger] p.slots@[i]) is None
                },
                Err(e) => e == OpenError::TooManyPages && storage.pages().len() > TABLE_MAX_PAGES,
            },
            storage.pages().len() <= TABLE_MAX_PAGES ==> r is Ok,
    {
        let mut store = storage;
        let file_length = store.size();
        let num_pages = file_length / (PAGE_SIZE as u64);
        assert(num_pages == storage.pages().len()) by (nonlinear_arith)
            requires
                file_length == storage.pages().len() * PAGE_SIZE,
                num_pages == file_length / (PAGE_SIZE as u64),
        ;
        if num_pages > TABLE_MAX_PAGES as u64 {
            return Err(OpenError::TooManyPages);
        }
        let mut slots: Vec<Option<Node>> = Vec::new();
        let mut i: usize = 0;
        while i < TABLE_MAX_PAGES
            invariant
                0 <= i <= TABLE_MAX_PAGES,
                slots@.len() == i,
                forall|k: int| 0 <= k < i ==> (#[trigger] slots@[k]) is None,
            decreases TABLE_MAX_PAGES - i,
        {
            slots.push(None);
            i = i + 1;
        }
        Ok(Pager { storage: store, file_pages: num_pages as u32, num_pages: num_pages as u32, slots })
    }

    /// Brings page `page_num` into the cache when it is not there: a stored page is read and
    /// decoded, a page past the stored ones is a zeroed page, an internal node with no keys.
    /// The page count grows to cover `page_num`.
    pub fn get_page(&mut self, page_num: u32) -> (r: Result<(), OpenError>)
        requires
            old(self).wf(),
            old(self).storage_ok(),
            page_num < TABLE_MAX_PAGES,
        ensures
            final(self).wf(),
            final(self).storage_ok(),
            final(self).storage.pages() == old(self).storage.pages(),
            final(self).file_pages == old(self).file_pages,
            old(self).slots@[page_num as int] is Some ==> *final(self) == *old(self),
            old(self).slots@[page_num as int] is None ==> match r {
                Ok(()) => {
                    &&& final(self).slots@.len() == old(self).slots@.len()
                    &&& forall|i: int| 0 <= i < old(self).slots@.len() && i != page_num ==> final(self).slots@[i]
                        == old(self).slots@[i]
                    &&& final(self).slots@[page_num as int] matches Some(n) && n.wf() && if page_num
                        < old(self).file_pages {
                        decoded_as(old(self).storage.pages()[page_num as int], n)
                    } else {
                        n matches Node::Internal(x) && x.cells@.len() == 0 && x.right_child == 0
                            && x.node == CommonNode::new_spec(NodeType::Internal)
                    }
                    &&& final(self).num_pages == if page_num < old(self).num_pages {
                        old(self).num_pages
                    } else {
                        (page_num + 1) as u32
                    }
                },
                Err(e) => {
                    &&& e == OpenError::CorruptPage
                    &&& final(self).slots == old(self).slots
                    &&& final(self).num_pages == old(self).num_pages
                },
            },
            (old(self).slots@[page_num as int] is None && page_num < old(self).file_pages
                && !page_readable(old(self).storage.pages()[page_num as int])) <==> r is Err,
    {
        if self.slots[page_num as usize].is_some() {
            return Ok(());
        }
        if page_num < self.file_pages {
            // Cache miss on a stored page: read and decode it.
            let mut buf = vec![0u8; PAGE_SIZE];
            proof {
                self.storage.lemma_whole_pages();
            }
            self.storage.read(page_num as usize, buf.as_mut_slice());
            match Node::from_buffer(buf.as_slice()) {
                Some(node) => {
                    assert(buf@ == old(self).storage.pages()[page_num as int]);
                    self.install(page_num, node);
                    assert(self.slots@[page_num as int] == Some(node));
                    Ok(())
                },
                None => {
                    proof {
                        let b = buf@;
                        assert forall|n: Node| !(#[trigger] decoded_as(b, n) && n.wf()) by {}
                    }
                    Err(OpenError::CorruptPage)
                },
            }
        } else {
            self.new_internal_page(page_num);
            assert(self.slots@.len() == old(self).slots@.len());
            Ok(())
        }
    }

    /// Writes every cached page back and hands the storage back. A known page that was never
    /// cached keeps its stored bytes, or is zeros past the stored pages.
    pub fn close(self) -> (r: S)
        requires
            self.wf(),
            self.storage_ok(),
            forall|i: int| 0 <= i < self.num_pages ==> slot_wf(#[trigger] self.slots@[i]),
        ensures
            r.inv(),
            r.pages().len() == self.num_pages,
            forall|i: int|
                0 <= i < self.num_pages ==> #[trigger] r.pages()[i] == closed_page(
                    self.slots@[i],
                    self.storage.pages(),
                    i,
                ),
            self.loaded() ==> r.pages() == self.view().map_values(|n: Node| page_bytes(n)),
    {
        let ghost slots = self.slots@;
        let ghost stored = self.storage.pages();
        let Pager { storage, file_pages, num_pages, slots: cache } = self;
        let mut storage = storage;
        let mut i: u32 = 0;
        while i < num_pages
            invariant
                0 <= i <= num_pages <= TABLE_MAX_PAGES,
                file_pages <= num_pages,
                cache@ == slots,
                cache@.len() == TABLE_MAX_PAGES,
                storage.inv(),
                stored.len() == file_pages,
                forall|k: int| 0 <= k < num_pages ==> slot_wf(#[trigger] slots[k]),
                storage.pages().len() == if i <= file_pages {
                    file_pages as int
                } else {
                    i as int
                },
                forall|k: int| 0 <= k < i ==> #[trigger] storage.pages()[k] == closed_page(slots[k], stored, k),
                forall|k: int| i <= k < storage.pages().len() ==> #[trigger] storage.pages()[k] == stored[k],
            decreases num_pages - i,
        {
            let ghost before = storage.pages();
            proof {
                storage.lemma_whole_pages();
            }
            let ghost padded = if (i as int) < before.len() {
                before
            } else {
                before + Seq::new((i + 1 - before.len()) as nat, |j: int| zeros(PAGE_SIZE as nat))
            };
            match &cache[i as usize] {
                Some(node) => {
                    let bytes = node.buffer();
                    storage.write(i as usize, bytes.as_slice());
                    assert(bytes@ + padded[i as int].subrange(PAGE_SIZE as int, PAGE_SIZE as int)
                        =~= bytes@);
                },
                None => {
                    if i >= file_pages {
                        let zero_page = vec![0u8; PAGE_SIZE];
                        assert(zero_page@ =~= zeros(PAGE_SIZE as nat));
                        storage.write(i as usize, zero_page.as_slice());
                        assert(zero_page@ + padded[i as int].subrange(PAGE_SIZE as int, PAGE_SIZE as int)
                            =~= zero_page@);
                    }
                },
            }
            i = i + 1;
        }
        proof {
            if self.loaded() {
                assert(storage.pages() =~= self.view().map_values(|n: Node| page_bytes(n)));
            }
        }
        storage
    }
}

/// What page `i` holds after closing: the cached node's bytes, else the stored bytes, else
/// zeros.
pub open spec fn closed_page(slot: Option<Node>, stored: Seq<Seq<u8>>, i: int) -> Seq<u8> {
    match slot {
        Some(n) => page_bytes(n),
        None => if i < stored.len() {
            stored[i]
        } else {
            zeros(PAGE_SIZE as nat)
        },
    }
}

} // verus!
