//! The pages of a virtual-memory object, by their offsets in the object.
use vstd::prelude::*;
use crate::defines::PAGE_SIZE;
use crate::errors::ErrNO;
use crate::klib::rbtree::{bound_pos, lemma_bound_pos, lemma_bound_props, RBTree};
use crate::types::paddr_t;

verus! {

/// The number of low bits of a slot that say what the slot holds.
pub const K_TYPE_BITS: usize = 2;

/// The slot holds a page, or nothing if all of it is 0.
pub const K_PAGE_TYPE: usize = 0;

/// The slot holds a marker for a page of zeros.
pub const K_ZERO_MARKER_TYPE: usize = 1;

/// The slot holds a reference to content that lives elsewhere.
pub const K_REFERENCE_TYPE: usize = 2;

/// The number of slots in a node of a page list.
pub const K_PAGE_FAN_OUT: usize = 16;

/// Bytes of an object that a node of a page list covers.
pub const NODE_SPAN: usize = 65536;

/// What a slot of a page list holds: nothing, a page, a reference to
/// content that lives elsewhere, or a marker, which says that the slot is
/// not empty although it has no page.
#[derive(Clone, Copy, Debug)]
pub struct VmPageOrMarker {
    raw: usize,
}

impl VmPageOrMarker {
    /// The raw word of the slot.
    pub closed spec fn spec_raw(&self) -> usize {
        self.raw
    }

    /// The slot holds nothing.
    pub open spec fn spec_is_empty(&self) -> bool {
        self.spec_raw() == K_PAGE_TYPE
    }

    /// The slot holds a page.
    pub open spec fn spec_is_page(&self) -> bool {
        !self.spec_is_empty() && self.spec_raw() % 4 == K_PAGE_TYPE
    }

    /// A slot with the raw word `raw`.
    pub fn new(raw: usize) -> (r: Self)
        ensures
            r.spec_raw() == raw,
    {
        Self { raw }
    }

    /// The address of the descriptor of the page that the slot holds.
    pub fn page(&self) -> (r: paddr_t)
        requires
            self.spec_is_page(),
        ensures
            r == self.spec_raw(),
    {
        // Do not need to mask any bits out of the raw word, since a page
        // has 0's for the type anyway.
        self.raw
    }

    /// Makes the slot hold the page that `p` holds.
    pub fn set_page(&mut self, p: &VmPageOrMarker)
        requires
            p.spec_is_page(),
        ensures
            final(self).spec_raw() == p.spec_raw(),
            final(self).spec_is_page(),
    {
        let raw = p.page();
        self.raw = raw;
    }

    /// Makes the slot hold what `p` holds, which must be a page.
    pub fn set(&mut self, p: &VmPageOrMarker)
        requires
            p.spec_is_page(),
        ensures
            final(self).spec_raw() == p.spec_raw(),
    {
        self.set_page(p);
    }

    /// A slot that holds the page whose descriptor lies at `p`, which
    /// must not be 0 and must be a multiple of 4.
    pub fn as_page(p: paddr_t) -> (r: Self)
        requires
            p != 0,
            p % 4 == 0,
        ensures
            r.spec_is_page(),
            r.spec_raw() == p,
    {
        Self::new(p)
    }

    /// A slot that holds nothing.
    pub fn empty() -> (r: Self)
        ensures
            r.spec_is_empty(),
            r.spec_raw() == 0,
    {
        Self::new(K_PAGE_TYPE)
    }

    /// A slot that holds a marker.
    pub fn marker() -> (r: Self)
        ensures
            r.spec_raw() == K_ZERO_MARKER_TYPE,
            !r.spec_is_empty(),
            !r.spec_is_page(),
    {
        Self::new(K_ZERO_MARKER_TYPE)
    }

    /// Makes the slot hold nothing.
    pub fn set_empty(&mut self)
        ensures
            final(self).spec_is_empty(),
    {
        self.raw = K_PAGE_TYPE;
    }

    fn get_type(&self) -> (r: usize)
        ensures
            r == self.spec_raw() % 4,
    {
        self.raw % 4
    }

    /// Tells whether the slot holds a page.
    pub fn is_page(&self) -> (r: bool)
        ensures
            r == self.spec_is_page(),
    {
        !self.is_empty() && (self.get_type() == K_PAGE_TYPE)
    }

    /// Tells whether the slot holds a marker.
    pub fn is_marker(&self) -> (r: bool)
        ensures
            r == (self.spec_raw() % 4 == K_ZERO_MARKER_TYPE),
    {
        self.get_type() == K_ZERO_MARKER_TYPE
    }

    /// Tells whether the slot holds nothing.
    pub fn is_empty(&self) -> (r: bool)
        ensures
            r == self.spec_is_empty(),
    {
        self.raw == K_PAGE_TYPE
    }

    /// Tells whether the slot holds a reference.
    pub fn is_reference(&self) -> (r: bool)
        ensures
            r == (self.spec_raw() % 4 == K_REFERENCE_TYPE),
    {
        self.get_type() == K_REFERENCE_TYPE
    }

    /// Tells whether the slot holds a page or a reference.
    pub fn is_page_or_ref(&self) -> (r: bool)
        ensures
            r == (self.spec_is_page() || self.spec_raw() % 4 == K_REFERENCE_TYPE),
    {
        self.is_page() || self.is_reference()
    }
}

/// A node of a page list: the slots of 16 pages in a row, from an offset
/// in the object on.
pub struct VmPageListNode {
    obj_offset: usize,
    pages: Vec<VmPageOrMarker>,
}

impl VmPageListNode {
    /// The offset in the object of the first page of the node.
    pub closed spec fn spec_offset(&self) -> usize {
        self.obj_offset
    }

    /// The slots of the node.
    pub closed spec fn slots(&self) -> Seq<VmPageOrMarker> {
        self.pages@
    }

    /// The node has its 16 slots.
    pub open spec fn wf(&self) -> bool {
        self.slots().len() == K_PAGE_FAN_OUT
    }

    /// A node at `obj_offset` whose slots hold nothing.
    pub fn new(obj_offset: usize) -> (r: Self)
        ensures
            r.wf(),
            r.spec_offset() == obj_offset,
            forall|i: int| 0 <= i < K_PAGE_FAN_OUT ==> (#[trigger] r.slots()[i]).spec_is_empty(),
    {
        let mut pages: Vec<VmPageOrMarker> = Vec::new();
        let mut i: usize = 0;
        while i < K_PAGE_FAN_OUT
            invariant
                i <= K_PAGE_FAN_OUT,
                pages@.len() == i,
                forall|k: int| 0 <= k < i ==> (#[trigger] pages@[k]).spec_is_empty(),
            decreases K_PAGE_FAN_OUT - i,
        {
            pages.push(VmPageOrMarker::empty());
            i += 1;
        }
        Self { obj_offset, pages }
    }

    /// The offset in the object of the first page of the node.
    pub fn offset(&self) -> (r: usize)
        ensures
            r == self.spec_offset(),
    {
        self.obj_offset
    }

    /// The offset in the object behind the last page of the node.
    pub fn end_offset(&self) -> (r: usize)
        requires
            self.spec_offset() + NODE_SPAN <= usize::MAX,
        ensures
            r == self.spec_offset() + NODE_SPAN,
    {
        self.offset() + K_PAGE_FAN_OUT * PAGE_SIZE
    }

    /// The key under which the node is kept: its offset.
    pub fn key(&self) -> (r: usize)
        ensures
            r == self.spec_offset(),
    {
        self.obj_offset
    }

    /// The slot `index` of the node.
    pub fn lookup(&self, index: usize) -> (r: &VmPageOrMarker)
        requires
            self.wf(),
            index < K_PAGE_FAN_OUT,
        ensures
            *r == self.slots()[index as int],
    {
        &self.pages[index]
    }

    /// The slot `index` of the node, to be changed.
    pub fn lookup_mut(&mut self, index: usize) -> (r: &mut VmPageOrMarker)
        requires
            old(self).wf(),
            index < K_PAGE_FAN_OUT,
        ensures
            *r == old(self).slots()[index as int],
            final(self).slots() == old(self).slots().update(index as int, *final(r)),
            final(self).spec_offset() == old(self).spec_offset(),
    {
        &mut self.pages[index]
    }

    /// Stores `value` in the slot `index` of the node.
    pub fn store(&mut self, index: usize, value: VmPageOrMarker)
        requires
            old(self).wf(),
            index < K_PAGE_FAN_OUT,
        ensures
            final(self).wf(),
            final(self).slots() == old(self).slots().update(index as int, value),
            final(self).spec_offset() == old(self).spec_offset(),
    {
        self.pages[index] = value;
    }
}

/// The largest offset that a page list has room for.
pub const MAX_SIZE: usize = 0xfffe_0000;

/// The offset of the node that covers `offset` in a list with the skew
/// `skew`.
pub open spec fn spec_node_offset(offset: int, skew: int) -> int {
    (offset + skew) - (offset + skew) % (NODE_SPAN as int)
}

/// The slot in its node that covers `offset` in a list with the skew
/// `skew`.
pub open spec fn spec_node_index(offset: int, skew: int) -> int {
    ((offset + skew) / (PAGE_SIZE as int)) % (K_PAGE_FAN_OUT as int)
}

/// The pages of an object: nodes of 16 slots each, kept by their offsets.
pub struct VmPageList {
    list: RBTree<VmPageListNode>,
    /// A skew added to offsets before they are looked up, so that all the
    /// lists of a tree of clones keep their pages at the same places in
    /// their nodes.
    list_skew: usize,
}

impl VmPageList {
    /// The nodes of the list, in ascending order of their offsets.
    pub closed spec fn nodes(&self) -> Seq<(usize, VmPageListNode)> {
        self.list@
    }

    /// The skew of the list.
    pub closed spec fn spec_skew(&self) -> usize {
        self.list_skew
    }

    /// The nodes are sorted, no two have the same offset, and each node
    /// is kept under its own offset and has its 16 slots.
    pub closed spec fn wf(&self) -> bool {
        &&& self.list.wf()
        &&& forall|i: int|
            0 <= i < self.list@.len() ==> (#[trigger] self.list@[i]).1.wf() && self.list@[i].1.spec_offset()
                == self.list@[i].0
        &&& forall|i: int, j: int|
            0 <= i < j < self.list@.len() ==> (#[trigger] self.list@[i]).0 != (
            #[trigger] self.list@[j]).0
    }

    /// The list has a node at `node_offset`.
    pub closed spec fn has_node(&self, node_offset: usize) -> bool {
        self.list.spec_contains_key(node_offset)
    }

    /// The slot that covers `offset`, if the list has the node for it.
    pub closed spec fn slot(&self, offset: usize) -> VmPageOrMarker {
        let node_offset = spec_node_offset(offset as int, self.list_skew as int) as usize;
        let index = spec_node_index(offset as int, self.list_skew as int);
        self.list@[bound_pos(self.list@, node_offset, false)].1.slots()[index]
    }

    /// A list without nodes and without skew.
    pub fn new() -> (r: Self)
        ensures
            r.wf(),
            r.nodes().len() == 0,
            r.spec_skew() == 0,
    {
        Self { list: RBTree::new(), list_skew: 0 }
    }

    fn offset_to_node_offset(offset: usize, skew: usize) -> (r: usize)
        requires
            offset + skew <= usize::MAX,
        ensures
            r == spec_node_offset(offset as int, skew as int),
            r <= offset + skew,
    {
        let sum = offset + skew;
        sum - sum % NODE_SPAN
    }

    fn offset_to_node_index(offset: usize, skew: usize) -> (r: usize)
        requires
            offset + skew <= usize::MAX,
        ensures
            r == spec_node_index(offset as int, skew as int),
            r < K_PAGE_FAN_OUT,
    {
        ((offset + skew) / PAGE_SIZE) % K_PAGE_FAN_OUT
    }

    /// Tells what the slot that covers `offset` holds, making the node
    /// for it first if the list does not have it. An offset too large for
    /// the list is out of range.
    pub fn lookup_or_allocate(&mut self, offset: usize) -> (r: Result<VmPageOrMarker, ErrNO>)
        requires
            old(self).wf(),
        ensures
            final(self).wf(),
            final(self).spec_skew() == old(self).spec_skew(),
            r is Err <==> offset + old(self).spec_skew() > usize::MAX || spec_node_offset(
                offset as int,
                old(self).spec_skew() as int,
            ) >= MAX_SIZE,
            r is Err ==> r == Err::<VmPageOrMarker, ErrNO>(ErrNO::OutOfRange) && final(self).nodes()
                == old(self).nodes(),
            r is Ok ==> ({
                let node_offset = spec_node_offset(offset as int, old(self).spec_skew() as int) as usize;
                &&& final(self).has_node(node_offset)
                &&& r->Ok_0 == final(self).slot(offset)
                &&& old(self).has_node(node_offset) ==> final(self).nodes() == old(self).nodes()
                &&& !old(self).has_node(node_offset) ==> final(self).nodes().len() == old(self).nodes().len() + 1 && r->Ok_0.spec_is_empty()
            }),
    {
        if offset > usize::MAX - self.list_skew {
            return Err(ErrNO::OutOfRange);
        }
        let node_offset = Self::offset_to_node_offset(offset, self.list_skew);
        let index = Self::offset_to_node_index(offset, self.list_skew);
        if node_offset >= MAX_SIZE {
            return Err(ErrNO::OutOfRange);
        }
        if !self.list.contains_key(node_offset) {
            let pl = VmPageListNode::new(node_offset);
            let ghost before = self.list@;
            self.list.insert(node_offset, pl);
            proof {
                let p = bound_pos(before, node_offset, true);
                lemma_bound_props(before, node_offset, true);
                assert forall|i: int, j: int| 0 <= i < j < self.list@.len() implies (
                #[trigger] self.list@[i]).0 != (#[trigger] self.list@[j]).0 by {
                    let oi = if i < p {
                        i
                    } else {
                        i - 1
                    };
                    let oj = if j < p {
                        j
                    } else {
                        j - 1
                    };
                    if i != p && j != p {
                        assert(before[oi].0 != before[oj].0);
                    } else if i == p {
                        assert(before[oj].0 != node_offset);
                    } else {
                        assert(before[oi].0 != node_offset);
                    }
                }
                assert forall|i: int| 0 <= i < self.list@.len() implies (
                #[trigger] self.list@[i]).1.wf() && self.list@[i].1.spec_offset()
                    == self.list@[i].0 by {
                    let oi = if i < p {
                        i
                    } else {
                        i - 1
                    };
                    if i != p {
                        assert(before[oi].1.wf());
                    }
                }
                assert forall|i: int| 0 <= i < p implies (#[trigger] self.list@[i]).0
                    < node_offset by {
                    assert(before[i].0 != node_offset);
                }
                assert forall|i: int| p <= i < self.list@.len() implies (
                #[trigger] self.list@[i]).0 > node_offset || self.list@[i].0 == node_offset by {
                    if i > p {
                        assert(before[i - 1].0 > node_offset);
                    }
                }
                lemma_bound_pos(self.list@, node_offset, false, p);
            }
        }
        // Look up the node that holds this page.
        match self.list.get(node_offset) {
            Some(pln) => {
                let slot = *pln.lookup(index);
                Ok(slot)
            },
            None => Err(ErrNO::OutOfRange),
        }
    }
}

} // verus!
