//! Page-frame descriptors: one per physical page.
use vstd::prelude::*;
use crate::klib::list::{Linked, ListNode};
use crate::types::paddr_t;
use crate::vm_page_state;
use crate::vm_page_state::vm_page_state_t;

verus! {

/// Bit of the loaned state that marks a page as loaned.
pub const LOANED_STATE_IS_LOANED: u8 = 1;

/// Largest pin count a page can carry.
pub const VM_PAGE_OBJECT_MAX_PIN_COUNT: u8 = 31;

/// Flag in the pin-count byte: the left child of a hidden parent has
/// diverged from this page.
pub const VM_PAGE_OBJECT_COW_LEFT_SPLIT: u8 = 0x20;

/// Flag in the pin-count byte: the right child of a hidden parent has
/// diverged from this page.
pub const VM_PAGE_OBJECT_COW_RIGHT_SPLIT: u8 = 0x40;

/// Flag in the pin-count byte: the page should not be considered for
/// reclamation.
pub const VM_PAGE_OBJECT_ALWAYS_NEED: u8 = 0x80;

/// The page's dirtiness is not tracked.
pub const DIRTY_STATE_UNTRACKED: u8 = 0;

/// The page is clean.
pub const DIRTY_STATE_CLEAN: u8 = 1;

/// The page was written since it was last cleaned.
pub const DIRTY_STATE_DIRTY: u8 = 2;

/// A writeback of the page is in progress.
pub const DIRTY_STATE_AWAITINGCLEAN: u8 = 3;

/// The number of dirty states.
pub const DIRTY_STATE_NUM_STATES: u8 = 4;

/// Flag in the owner word: the word names a stack owner, not an object.
pub const OBJECT_OR_STACK_OWNER_IS_STACK_OWNER_FLAG: usize = 1;

/// What a page records about the virtual-memory object it is attached to.
pub struct vm_page_object {
    object_or_stack_owner: usize,
    /// The offset of this page in the object that contains it, else 0.
    page_offset_priv: usize,
    /// Identifies which queue this page is in.
    pub page_queue: u8,
    /// The pin count in the low five bits, and three flags above it.
    pub pin_count: u8,
    /// Whether the page is dirty and must be written back.
    dirty_state: u8,
}

/// The flag bits and the low five bits of a pin-count byte after one flag
/// was set or cleared.
proof fn lemma_flag_update(x: u8)
    ensures
        (x | 0x20u8) & 0x20u8 != 0,
        (x & !0x20u8) & 0x20u8 == 0,
        (x | 0x20u8) & 0xdfu8 == x & 0xdfu8,
        (x & !0x20u8) & 0xdfu8 == x & 0xdfu8,
        (x | 0x40u8) & 0x40u8 != 0,
        (x & !0x40u8) & 0x40u8 == 0,
        (x | 0x40u8) & 0xbfu8 == x & 0xbfu8,
        (x & !0x40u8) & 0xbfu8 == x & 0xbfu8,
        (x | 0x80u8) & 0x80u8 != 0,
        (x & !0x80u8) & 0x80u8 == 0,
        (x | 0x80u8) & 0x7fu8 == x & 0x7fu8,
        (x & !0x80u8) & 0x7fu8 == x & 0x7fu8,
{
    assert((x | 0x20u8) & 0x20u8 != 0 && (x & !0x20u8) & 0x20u8 == 0 && (x | 0x20u8) & 0xdfu8 == x
        & 0xdfu8 && (x & !0x20u8) & 0xdfu8 == x & 0xdfu8 && (x | 0x40u8) & 0x40u8 != 0 && (x
        & !0x40u8) & 0x40u8 == 0 && (x | 0x40u8) & 0xbfu8 == x & 0xbfu8 && (x & !0x40u8) & 0xbfu8
        == x & 0xbfu8 && (x | 0x80u8) & 0x80u8 != 0 && (x & !0x80u8) & 0x80u8 == 0 && (x | 0x80u8)
        & 0x7fu8 == x & 0x7fu8 && (x & !0x80u8) & 0x7fu8 == x & 0x7fu8) by (bit_vector);
}

impl vm_page_object {
    /// The raw owner word.
    pub closed spec fn spec_owner(&self) -> usize {
        self.object_or_stack_owner
    }

    /// The object the page is attached to, or 0 when the owner word names a
    /// stack owner.
    pub open spec fn spec_object(&self) -> usize {
        if self.spec_owner() % 2 != 0 {
            0
        } else {
            self.spec_owner()
        }
    }

    /// The offset of the page in its object.
    pub closed spec fn spec_page_offset(&self) -> usize {
        self.page_offset_priv
    }

    /// The dirty state.
    pub closed spec fn spec_dirty_state(&self) -> u8 {
        self.dirty_state
    }

    /// The pin-count byte, flags included.
    pub closed spec fn spec_pin_count(&self) -> u8 {
        self.pin_count
    }

    /// The queue the page is in.
    pub closed spec fn spec_page_queue(&self) -> u8 {
        self.page_queue
    }

    /// Whether the left-split flag is set.
    pub open spec fn spec_cow_left_split(&self) -> bool {
        self.spec_pin_count() & 0x20u8 != 0
    }

    /// Whether the right-split flag is set.
    pub open spec fn spec_cow_right_split(&self) -> bool {
        self.spec_pin_count() & 0x40u8 != 0
    }

    /// Whether the always-need flag is set.
    pub open spec fn spec_always_need(&self) -> bool {
        self.spec_pin_count() & 0x80u8 != 0
    }

    /// The record of a page attached to nothing.
    pub closed spec fn spec_new() -> vm_page_object {
        vm_page_object {
            object_or_stack_owner: 0,
            page_offset_priv: 0,
            page_queue: 0,
            pin_count: 0,
            dirty_state: DIRTY_STATE_UNTRACKED,
        }
    }

    /// A record of a page attached to nothing.
    pub fn new() -> (r: Self)
        ensures
            r == Self::spec_new(),
            r.spec_owner() == 0,
            r.spec_page_offset() == 0,
            r.spec_page_queue() == 0,
            r.spec_pin_count() == 0,
            r.spec_dirty_state() == DIRTY_STATE_UNTRACKED,
    {
        Self {
            object_or_stack_owner: 0,
            page_offset_priv: 0,
            page_queue: 0,
            pin_count: 0,
            dirty_state: DIRTY_STATE_UNTRACKED,
        }
    }

    fn is_stack_owned(&self) -> (r: bool)
        ensures
            r == (self.spec_owner() % 2 != 0),
    {
        self.object_or_stack_owner % 2 != 0
    }

    /// The object the page is attached to, or 0 when there is none or the
    /// page has a stack owner.
    pub fn get_object(&self) -> (r: usize)
        ensures
            r == self.spec_object(),
    {
        if self.is_stack_owned() {
            return 0;
        }
        self.object_or_stack_owner
    }

    /// Attaches the page to `obj`. Any stack owner is dropped with it.
    pub fn set_object(&mut self, obj: usize)
        requires
            obj != 0,
        ensures
            final(self).spec_owner() == obj,
            final(self).spec_page_offset() == old(self).spec_page_offset(),
            final(self).spec_page_queue() == old(self).spec_page_queue(),
            final(self).spec_pin_count() == old(self).spec_pin_count(),
            final(self).spec_dirty_state() == old(self).spec_dirty_state(),
    {
        self.object_or_stack_owner = obj;
    }

    /// The offset of the page in its object.
    pub fn get_page_offset(&self) -> (r: usize)
        ensures
            r == self.spec_page_offset(),
    {
        self.page_offset_priv
    }

    /// Records the offset of the page in its object.
    pub fn set_page_offset(&mut self, page_offset: usize)
        ensures
            final(self).spec_page_offset() == page_offset,
            final(self).spec_owner() == old(self).spec_owner(),
            final(self).spec_page_queue() == old(self).spec_page_queue(),
            final(self).spec_pin_count() == old(self).spec_pin_count(),
            final(self).spec_dirty_state() == old(self).spec_dirty_state(),
    {
        self.page_offset_priv = page_offset;
    }

    /// The pin-count byte, flags included.
    pub fn pin_count(&self) -> (r: u8)
        ensures
            r == self.spec_pin_count(),
    {
        self.pin_count
    }

    /// Stores a pin count. The three flags are cleared with it.
    pub fn set_pin_count(&mut self, pin_count: u8)
        requires
            pin_count <= VM_PAGE_OBJECT_MAX_PIN_COUNT,
        ensures
            final(self).spec_pin_count() == pin_count,
            final(self).spec_owner() == old(self).spec_owner(),
            final(self).spec_page_offset() == old(self).spec_page_offset(),
            final(self).spec_page_queue() == old(self).spec_page_queue(),
            final(self).spec_dirty_state() == old(self).spec_dirty_state(),
    {
        self.pin_count = pin_count;
    }

    /// Whether the left child of a hidden parent has diverged from the page.
    pub fn cow_left_split(&self) -> (r: bool)
        ensures
            r == self.spec_cow_left_split(),
    {
        (self.pin_count & VM_PAGE_OBJECT_COW_LEFT_SPLIT) != 0
    }

    /// Sets or clears the left-split flag; every other bit of the pin-count
    /// byte stays.
    pub fn set_cow_left_split(&mut self, bval: bool)
        ensures
            final(self).spec_cow_left_split() == bval,
            final(self).spec_pin_count() & 0xdfu8 == old(self).spec_pin_count() & 0xdfu8,
            final(self).spec_owner() == old(self).spec_owner(),
            final(self).spec_page_offset() == old(self).spec_page_offset(),
            final(self).spec_page_queue() == old(self).spec_page_queue(),
            final(self).spec_dirty_state() == old(self).spec_dirty_state(),
    {
        proof {
            lemma_flag_update(self.pin_count);
        }
        if bval {
            self.pin_count = self.pin_count | VM_PAGE_OBJECT_COW_LEFT_SPLIT;
        } else {
            self.pin_count = self.pin_count & !VM_PAGE_OBJECT_COW_LEFT_SPLIT;
        }
    }

    /// Whether the right child of a hidden parent has diverged from the page.
    pub fn cow_right_split(&self) -> (r: bool)
        ensures
            r == self.spec_cow_right_split(),
    {
        (self.pin_count & VM_PAGE_OBJECT_COW_RIGHT_SPLIT) != 0
    }

    /// Sets or clears the right-split flag; every other bit of the pin-count
    /// byte stays.
    pub fn set_cow_right_split(&mut self, bval: bool)
        ensures
            final(self).spec_cow_right_split() == bval,
            final(self).spec_pin_count() & 0xbfu8 == old(self).spec_pin_count() & 0xbfu8,
            final(self).spec_owner() == old(self).spec_owner(),
            final(self).spec_page_offset() == old(self).spec_page_offset(),
            final(self).spec_page_queue() == old(self).spec_page_queue(),
            final(self).spec_dirty_state() == old(self).spec_dirty_state(),
    {
        proof {
            lemma_flag_update(self.pin_count);
        }
        if bval {
            self.pin_count = self.pin_count | VM_PAGE_OBJECT_COW_RIGHT_SPLIT;
        } else {
            self.pin_count = self.pin_count & !VM_PAGE_OBJECT_COW_RIGHT_SPLIT;
        }
    }

    /// Whether the page is always needed and should not be considered for
    /// reclamation under memory pressure.
    pub fn always_need(&self) -> (r: bool)
        ensures
            r == self.spec_always_need(),
    {
        (self.pin_count & VM_PAGE_OBJECT_ALWAYS_NEED) != 0
    }

    /// Sets or clears the always-need flag; every other bit of the pin-count
    /// byte stays.
    pub fn set_always_need(&mut self, bval: bool)
        ensures
            final(self).spec_always_need() == bval,
            final(self).spec_pin_count() & 0x7fu8 == old(self).spec_pin_count() & 0x7fu8,
            final(self).spec_owner() == old(self).spec_owner(),
            final(self).spec_page_offset() == old(self).spec_page_offset(),
            final(self).spec_page_queue() == old(self).spec_page_queue(),
            final(self).spec_dirty_state() == old(self).spec_dirty_state(),
    {
        proof {
            lemma_flag_update(self.pin_count);
        }
        if bval {
            self.pin_count = self.pin_count | VM_PAGE_OBJECT_ALWAYS_NEED;
        } else {
            self.pin_count = self.pin_count & !VM_PAGE_OBJECT_ALWAYS_NEED;
        }
    }

    /// The dirty state.
    pub fn dirty_state(&self) -> (r: u8)
        ensures
            r == self.spec_dirty_state(),
    {
        self.dirty_state
    }

    /// Stores a dirty state.
    pub fn set_dirty_state(&mut self, dirty_state: u8)
        requires
            dirty_state < DIRTY_STATE_NUM_STATES,
        ensures
            final(self).spec_dirty_state() == dirty_state,
            final(self).spec_owner() == old(self).spec_owner(),
            final(self).spec_page_offset() == old(self).spec_page_offset(),
            final(self).spec_page_queue() == old(self).spec_page_queue(),
            final(self).spec_pin_count() == old(self).spec_pin_count(),
    {
        self.dirty_state = dirty_state;
    }
}

/// The descriptor of one physical page.
pub struct vm_page {
    /// The link by which the page sits on a list.
    queue_node: ListNode,
    /// Read-only after being set up.
    paddr: paddr_t,
    /// What the page records when attached to a virtual-memory object.
    pub object: vm_page_object,
    state: vm_page_state_t,
    loaned_state: u8,
}

/// A descriptor of a page.
pub type vm_page_t = vm_page;

impl Linked<vm_page> for vm_page {
    closed spec fn spec_node(&self) -> ListNode {
        self.queue_node
    }

    fn is_in_list(&self) -> (r: bool) {
        self.queue_node.is_in_list()
    }

    fn delete_from_list(&mut self) {
        self.queue_node.delete_from_list();
    }
}

impl vm_page {
    /// The physical address of the page.
    pub closed spec fn spec_paddr(&self) -> paddr_t {
        self.paddr
    }

    /// The lifecycle state of the page.
    pub closed spec fn spec_state(&self) -> vm_page_state_t {
        self.state
    }

    /// What the page records about its object.
    pub closed spec fn spec_object(&self) -> vm_page_object {
        self.object
    }

    /// Whether the page is loaned.
    pub closed spec fn spec_is_loaned(&self) -> bool {
        self.loaned_state % 2 == 1
    }

    /// Whether the page is on a list.
    pub open spec fn spec_in_list(&self) -> bool {
        self.spec_node().spec_linked()
    }

    /// This descriptor with its state replaced by `state`.
    pub closed spec fn with_state(self, state: vm_page_state_t) -> vm_page {
        vm_page { state, ..self }
    }

    /// This descriptor with its link replaced by one that says `linked`.
    pub closed spec fn with_link(self, linked: bool) -> vm_page {
        vm_page { queue_node: ListNode::spec_new(linked), ..self }
    }

    /// What replacing the state or the link of a descriptor changes, and
    /// what it leaves alone.
    pub broadcast proof fn lemma_with(self, state: vm_page_state_t, linked: bool)
        ensures
            #![trigger self.with_state(state), self.with_link(linked)]
            self.with_state(state).spec_state() == state,
            self.with_state(state).spec_paddr() == self.spec_paddr(),
            self.with_state(state).spec_is_loaned() == self.spec_is_loaned(),
            self.with_state(state).spec_node() == self.spec_node(),
            self.with_state(state).spec_object() == self.spec_object(),
            self.with_link(linked).spec_in_list() == linked,
            self.with_link(linked).spec_state() == self.spec_state(),
            self.with_link(linked).spec_paddr() == self.spec_paddr(),
            self.with_link(linked).spec_is_loaned() == self.spec_is_loaned(),
            self.with_link(linked).spec_object() == self.spec_object(),
            self.spec_state() == state ==> self.with_state(state) == self,
            self.spec_in_list() == linked ==> self.with_link(linked) == self,
            self.with_state(state).with_link(linked) == self.with_link(linked).with_state(state),
            forall|other: vm_page_state_t|
                (#[trigger] self.with_state(other)).with_state(state) == self.with_state(state),
            forall|other: bool|
                (#[trigger] self.with_link(other)).with_link(linked) == self.with_link(linked),
    {
        ListNode::lemma_spec_new(linked);
        ListNode::lemma_spec_new(self.queue_node.spec_linked());
        ListNode::lemma_link_eq(self.queue_node, ListNode::spec_new(self.queue_node.spec_linked()));
    }

    /// The descriptor of the free, unloaned page at `paddr`, on no list
    /// and attached to nothing.
    pub closed spec fn spec_new(paddr: paddr_t) -> vm_page {
        vm_page {
            queue_node: ListNode::spec_new(false),
            paddr,
            object: vm_page_object::spec_new(),
            state: vm_page_state::FREE,
            loaned_state: 0,
        }
    }

    /// A fresh descriptor is free, unloaned, on no list, and knows its
    /// address.
    pub broadcast proof fn lemma_spec_new(paddr: paddr_t)
        ensures
            (#[trigger] Self::spec_new(paddr)).spec_paddr() == paddr,
            Self::spec_new(paddr).spec_state() == vm_page_state::FREE,
            !Self::spec_new(paddr).spec_is_loaned(),
            !Self::spec_new(paddr).spec_in_list(),
    {
        ListNode::lemma_spec_new(false);
    }

    /// A descriptor of the free, unloaned page at `paddr`, on no list.
    pub fn new(paddr: paddr_t) -> (r: Self)
        ensures
            r == Self::spec_new(paddr),
            r.spec_paddr() == paddr,
            r.spec_state() == vm_page_state::FREE,
            !r.spec_is_loaned(),
            !r.spec_in_list(),
    {
        proof {
            ListNode::lemma_spec_new(false);
        }
        let queue_node = ListNode::new();
        proof {
            ListNode::lemma_link_eq(queue_node, ListNode::spec_new(false));
        }
        Self {
            queue_node,
            paddr,
            object: vm_page_object::new(),
            state: vm_page_state::FREE,
            loaned_state: 0,
        }
    }

    /// Resets the descriptor to that of the free, unloaned page at `paddr`,
    /// on no list. What the page records about its object stays.
    pub fn init(&mut self, paddr: paddr_t)
        ensures
            final(self).spec_paddr() == paddr,
            final(self).spec_state() == vm_page_state::FREE,
            !final(self).spec_is_loaned(),
            !final(self).spec_in_list(),
            final(self).spec_object() == old(self).spec_object(),
    {
        self.queue_node = ListNode::new();
        self.paddr = paddr;
        self.state = vm_page_state::FREE;
        self.loaned_state = 0;
    }

    /// The physical address of the page.
    pub fn paddr(&self) -> (r: paddr_t)
        ensures
            r == self.spec_paddr(),
    {
        self.paddr
    }

    /// The lifecycle state of the page.
    pub fn state(&self) -> (r: u8)
        ensures
            r == self.spec_state(),
    {
        self.state
    }

    /// Moves the page to `new_state`. Nothing else changes.
    pub fn set_state(&mut self, new_state: vm_page_state_t)
        ensures
            *final(self) == old(self).with_state(new_state),
            final(self).spec_state() == new_state,
            final(self).spec_paddr() == old(self).spec_paddr(),
            final(self).spec_is_loaned() == old(self).spec_is_loaned(),
            final(self).spec_node() == old(self).spec_node(),
            final(self).spec_object() == old(self).spec_object(),
    {
        self.state = new_state;
    }

    /// Records whether the page sits on a list. Nothing else changes.
    pub fn set_in_list(&mut self, linked: bool)
        ensures
            *final(self) == old(self).with_link(linked),
            final(self).spec_in_list() == linked,
            final(self).spec_state() == old(self).spec_state(),
            final(self).spec_paddr() == old(self).spec_paddr(),
            final(self).spec_is_loaned() == old(self).spec_is_loaned(),
            final(self).spec_object() == old(self).spec_object(),
    {
        if linked {
            self.queue_node.add_to_list();
        } else {
            self.queue_node.delete_from_list();
        }
        proof {
            ListNode::lemma_spec_new(linked);
            ListNode::lemma_link_eq(self.queue_node, ListNode::spec_new(linked));
        }
    }

    /// Tells whether the page is in the free state.
    pub fn is_free(&self) -> (r: bool)
        ensures
            r == (self.spec_state() == vm_page_state::FREE),
    {
        self.state == vm_page_state::FREE
    }

    /// Tells whether the page is loaned from a contiguous object. A loaned
    /// page cannot be pinned, nor handed out for a request of specific pages.
    pub fn is_loaned(&self) -> (r: bool)
        ensures
            r == self.spec_is_loaned(),
    {
        self.loaned_state % 2 == LOANED_STATE_IS_LOANED
    }
}

} // verus!
