//! The queues on which the pages of virtual-memory objects sit.
use vstd::prelude::*;
use crate::klib::list::List;
use crate::page::vm_page_t;
use crate::types::paddr_t;

verus! {

/// The queue of pages that are on no queue.
pub const PAGE_QUEUE_NONE: usize = 0;

/// The queue of anonymous pages.
pub const PAGE_QUEUE_ANONYMOUS: usize = 1;

/// The queue of wired pages.
pub const PAGE_QUEUE_WIRED: usize = 2;

/// The queue of anonymous pages that were forked from the zero page.
pub const PAGE_QUEUE_ANONYMOUS_ZERO_FORK: usize = 3;

/// The queue of dirty pages with a pager behind them.
pub const PAGE_QUEUE_PAGER_BACKED_DIRTY: usize = 4;

/// The queue of pages that are not needed.
pub const PAGE_QUEUE_RECLAIM_DONT_NEED: usize = 5;

/// The first of the queues of pages that can be reclaimed.
pub const PAGE_QUEUE_RECLAIM_BASE: usize = 6;

/// The last of the queues of pages that can be reclaimed.
pub const PAGE_QUEUE_RECLAIM_LAST: usize = 13;

/// The number of queues.
pub const PAGE_QUEUE_NUM_QUEUES: usize = 14;

/// The page queues, each a list of pages named by their addresses, and
/// the number of pages on each.
pub struct PageQueues {
    page_queues: Vec<List<vm_page_t>>,
    page_queue_counts: Vec<usize>,
}

impl PageQueues {
    /// The pages on queue `queue`, head first.
    pub closed spec fn queue(&self, queue: int) -> Seq<usize> {
        self.page_queues@[queue]@
    }

    /// The recorded number of pages on queue `queue`.
    pub closed spec fn count(&self, queue: int) -> usize {
        self.page_queue_counts@[queue]
    }

    /// The queues exist and are ready for use, and each count is the
    /// length of its queue.
    pub closed spec fn wf(&self) -> bool {
        &&& self.page_queues@.len() == PAGE_QUEUE_NUM_QUEUES
        &&& self.page_queue_counts@.len() == PAGE_QUEUE_NUM_QUEUES
        &&& forall|q: int|
            0 <= q < PAGE_QUEUE_NUM_QUEUES ==> (#[trigger] self.page_queues@[q]).spec_is_initialized()
                && self.page_queue_counts@[q] == self.page_queues@[q]@.len()
    }

    /// Page queues that are not ready for use yet.
    pub fn new() -> (r: Self)
        ensures
            !r.wf(),
    {
        Self { page_queues: Vec::new(), page_queue_counts: Vec::new() }
    }

    /// Makes the queues ready for use, all of them empty.
    pub fn init(&mut self)
        ensures
            final(self).wf(),
            forall|q: int|
                0 <= q < PAGE_QUEUE_NUM_QUEUES ==> #[trigger] final(self).queue(q)
                    == Seq::<usize>::empty(),
    {
        let mut queues: Vec<List<vm_page_t>> = Vec::new();
        let mut counts: Vec<usize> = Vec::new();
        let mut i: usize = 0;
        while i < PAGE_QUEUE_NUM_QUEUES
            invariant
                i <= PAGE_QUEUE_NUM_QUEUES,
                queues@.len() == i,
                counts@.len() == i,
                forall|q: int|
                    0 <= q < i ==> (#[trigger] queues@[q]).spec_is_initialized() && queues@[q]@
                        == Seq::<usize>::empty() && counts@[q] == 0,
            decreases PAGE_QUEUE_NUM_QUEUES - i,
        {
            let mut l = List::<vm_page_t>::new();
            l.init();
            queues.push(l);
            counts.push(0);
            i += 1;
        }
        self.page_queues = queues;
        self.page_queue_counts = counts;
    }

    /// The number of pages on queue `queue`.
    pub fn queue_len(&self, queue: usize) -> (r: usize)
        requires
            self.wf(),
            queue < PAGE_QUEUE_NUM_QUEUES,
        ensures
            r == self.queue(queue as int).len(),
            r == self.count(queue as int),
    {
        self.page_queue_counts[queue]
    }

    /// Puts the page at `page`, which is on no queue, at the head of the
    /// queue of wired pages.
    pub fn move_to_wired(&mut self, page: paddr_t)
        requires
            old(self).wf(),
            old(self).count(PAGE_QUEUE_WIRED as int) < usize::MAX,
        ensures
            final(self).wf(),
            final(self).queue(PAGE_QUEUE_WIRED as int) == seq![page] + old(self).queue(
                PAGE_QUEUE_WIRED as int,
            ),
            forall|q: int|
                0 <= q < PAGE_QUEUE_NUM_QUEUES && q != PAGE_QUEUE_WIRED ==> #[trigger] final(self).queue(q) == old(self).queue(q),
    {
        self.page_queues[PAGE_QUEUE_WIRED].add_head(page);
        self.page_queue_counts[PAGE_QUEUE_WIRED] = self.page_queue_counts[PAGE_QUEUE_WIRED] + 1;
        proof {
            assert forall|q: int| 0 <= q < PAGE_QUEUE_NUM_QUEUES implies (
            #[trigger] self.page_queues@[q]).spec_is_initialized() && self.page_queue_counts@[q]
                == self.page_queues@[q]@.len() by {
                if q != PAGE_QUEUE_WIRED {
                    assert(self.page_queues@[q] == old(self).page_queues@[q]);
                }
            }
        }
    }
}

} // verus!
