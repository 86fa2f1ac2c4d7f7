//! The heap as a mathematical object: the sequence of its memory areas,
//! the free lists, and what allocating and freeing make of them.
use vstd::prelude::*;
use crate::defines::PAGE_SIZE;
use crate::klib::cmpctmalloc::{
    lemma_allocating_bound, lemma_allocating_bucket, lemma_bucket_bounds, lemma_bucket_capacity,
    lemma_bucket_size_mono, lemma_bucket_size_step, lemma_freeing_bucket, spec_rounded_size,
    spec_size_to_index_allocating, spec_size_to_index_freeing, HEAP_MAX_ALLOC_SIZE,
    NUMBER_OF_BUCKETS, SIZE_OF_FREE_T, SIZE_OF_HEADER_T, HEAP_GROW_SIZE,
};
use crate::klib::list::{first_index, lemma_first_index};

verus! {

/// What the header of a memory area says: where the area starts, where
/// the area before it in memory starts (0 when there is none), how many
/// bytes the area takes with its header (0 for the sentinel that ends an
/// area obtained from the OS), and whether it is free.
pub struct Block {
    pub addr: int,
    pub left: int,
    pub size: int,
    pub free: bool,
}

/// The fewest bytes an area between two sentinels takes: a header and 8
/// bytes behind it.
pub const MIN_AREA: usize = 24;

/// The bytes a memory area takes: its size, or the size of a header for
/// the sentinel that ends an area obtained from the OS.
pub open spec fn extent(b: Block) -> int {
    if b.size == 0 {
        SIZE_OF_HEADER_T as int
    } else {
        b.size
    }
}

/// The memory areas of a heap tile what was obtained from the OS: every
/// area obtained from the OS starts at a page boundary with a left
/// sentinel, which has no area before it, and ends at a page boundary with
/// a right sentinel of size 0; between the two every area starts where the
/// one before it ends and records where that one starts; and no two free
/// areas lie next to each other.
#[verifier::opaque]
pub open spec fn blocks_wf(blocks: Seq<Block>) -> bool {
    &&& blocks.len() > 0 ==> blocks[0].left == 0
    &&& forall|i: int| 0 <= i < blocks.len() ==> #[trigger] block_ok(blocks, i)
}

/// The area at position `i` lies and measures as the areas of a sound
/// heap do, and so do its neighbours with respect to it.
pub open spec fn block_ok(blocks: Seq<Block>, i: int) -> bool {
    let b = blocks[i];
    &&& b.addr > 0
    &&& b.addr % 8 == 0
    &&& b.size % 8 == 0
    &&& b.addr + extent(b) <= usize::MAX
    &&& (b.size == 0 || b.size >= SIZE_OF_HEADER_T)
    &&& b.left == 0 ==> b.size == SIZE_OF_HEADER_T && !b.free && b.addr % (PAGE_SIZE as int) == 0
        && (i > 0 ==> blocks[i - 1].size == 0 && blocks[i - 1].addr + SIZE_OF_HEADER_T <= b.addr)
    &&& b.size == 0 ==> !b.free && b.left != 0 && (b.addr + SIZE_OF_HEADER_T) % (PAGE_SIZE as int)
        == 0 && (i + 1 < blocks.len() ==> blocks[i + 1].left == 0)
    &&& b.left != 0 ==> i > 0 && blocks[i - 1].addr == b.left && blocks[i - 1].addr + blocks[i
        - 1].size == b.addr && blocks[i - 1].size > 0
    &&& b.size > 0 ==> i + 1 < blocks.len() && blocks[i + 1].left == b.addr
    &&& b.left != 0 && b.size > 0 ==> b.size >= MIN_AREA
    &&& b.free ==> b.size >= MIN_AREA && b.left != 0 && !blocks[i + 1].free && !blocks[i - 1].free
}

/// Every area of sound areas is in order.
pub proof fn lemma_block_ok(blocks: Seq<Block>, i: int)
    requires
        blocks_wf(blocks),
        0 <= i < blocks.len(),
    ensures
        block_ok(blocks, i),
        blocks[0].left == 0,
{
    reveal(blocks_wf);
}

/// Areas that are each in order, the first of them a left sentinel, are
/// sound.
pub proof fn lemma_blocks_wf_intro(blocks: Seq<Block>)
    requires
        blocks.len() > 0 ==> blocks[0].left == 0,
        forall|i: int| 0 <= i < blocks.len() ==> #[trigger] block_ok(blocks, i),
    ensures
        blocks_wf(blocks),
{
    reveal(blocks_wf);
}

/// The area at position `i` is in use: it is no sentinel and not free.
pub open spec fn is_live(blocks: Seq<Block>, i: int) -> bool {
    0 <= i < blocks.len() && !blocks[i].free && blocks[i].left != 0 && blocks[i].size > 0
}

/// The areas lie in memory in the order of the sequence, none reaching
/// into the next.
pub proof fn lemma_blocks_ordered(blocks: Seq<Block>, i: int, j: int)
    requires
        blocks_wf(blocks),
        0 <= i < j < blocks.len(),
    ensures
        blocks[i].addr + extent(blocks[i]) <= blocks[j].addr,
        blocks[i].addr < blocks[j].addr,
    decreases j - i,
{
    if i + 1 < j {
        lemma_blocks_ordered(blocks, i, j - 1);
    }
    lemma_block_ok(blocks, j);
    lemma_block_ok(blocks, j - 1);
}

/// No two areas of a heap overlap: two areas that share a byte are one
/// and the same.
pub proof fn lemma_blocks_disjoint(blocks: Seq<Block>, i: int, j: int, byte: int)
    requires
        blocks_wf(blocks),
        0 <= i < blocks.len(),
        0 <= j < blocks.len(),
        blocks[i].addr <= byte < blocks[i].addr + extent(blocks[i]),
        blocks[j].addr <= byte < blocks[j].addr + extent(blocks[j]),
    ensures
        i == j,
{
    if i < j {
        lemma_blocks_ordered(blocks, i, j);
    }
    if j < i {
        lemma_blocks_ordered(blocks, j, i);
    }
}

/// The position of the area that starts at `addr`.
pub open spec fn find_block(blocks: Seq<Block>, addr: int) -> int {
    choose|i: int| 0 <= i < blocks.len() && (#[trigger] blocks[i]).addr == addr
}

/// Some area starts at `addr`.
pub open spec fn has_block(blocks: Seq<Block>, addr: int) -> bool {
    exists|i: int| 0 <= i < blocks.len() && (#[trigger] blocks[i]).addr == addr
}

/// The area that starts at a given address is the only one that does.
pub proof fn lemma_find_block(blocks: Seq<Block>, i: int)
    requires
        blocks_wf(blocks),
        0 <= i < blocks.len(),
    ensures
        has_block(blocks, blocks[i].addr),
        find_block(blocks, blocks[i].addr) == i,
{
    let c = find_block(blocks, blocks[i].addr);
    assert(0 <= c < blocks.len() && blocks[c].addr == blocks[i].addr);
    if c < i {
        lemma_blocks_ordered(blocks, c, i);
    }
    if i < c {
        lemma_blocks_ordered(blocks, i, c);
    }
}

/// The bucket that a free area of `size` bytes, header included, lives
/// in.
pub open spec fn bucket_of(size: int) -> int {
    if size - SIZE_OF_HEADER_T >= 0x20_0000 {
        NUMBER_OF_BUCKETS - 1
    } else {
        spec_size_to_index_freeing(size - SIZE_OF_HEADER_T)
    }
}

/// A free area is large enough for every request that is allocated from
/// its bucket or from an earlier one; and every free area has a bucket.
pub proof fn lemma_bucket_of(size: int, request: int)
    requires
        size >= MIN_AREA,
    ensures
        0 <= bucket_of(size) < NUMBER_OF_BUCKETS,
        1 <= request <= HEAP_MAX_ALLOC_SIZE && spec_size_to_index_allocating(
            request,
        ) <= bucket_of(size) ==> spec_rounded_size(request) + SIZE_OF_HEADER_T <= size,
        1 <= request <= HEAP_MAX_ALLOC_SIZE && spec_rounded_size(request)
            + SIZE_OF_HEADER_T <= size ==> spec_size_to_index_allocating(request) <= bucket_of(
            size,
        ),
{
    let x = size - SIZE_OF_HEADER_T;
    if x < 0x20_0000 {
        lemma_bucket_bounds(x);
        lemma_freeing_bucket(x);
    }
    if 1 <= request <= HEAP_MAX_ALLOC_SIZE {
        lemma_allocating_bound(request);
        lemma_allocating_bucket(request);
        let a = spec_size_to_index_allocating(request);
        if x < 0x20_0000 {
            if a <= bucket_of(size) {
                lemma_bucket_capacity(x, request);
            }
            if spec_rounded_size(request) <= x && a > bucket_of(size) {
                lemma_bucket_size_mono(bucket_of(size) + 1, a);
            }
        }
    }
}

/// The free lists hold the free areas: each of the buckets lists, by
/// address and without repetition, free areas whose size belongs to it,
/// and every free area is on the list of its bucket.
#[verifier::opaque]
pub open spec fn lists_wf(blocks: Seq<Block>, lists: Seq<Seq<usize>>) -> bool {
    &&& lists.len() == NUMBER_OF_BUCKETS
    &&& forall|b: int| 0 <= b < lists.len() ==> (#[trigger] lists[b]).no_duplicates()
    &&& forall|b: int, k: int|
        0 <= b < lists.len() && 0 <= k < lists[b].len() ==> has_block(
            blocks,
            (#[trigger] lists[b][k]) as int,
        ) && blocks[find_block(blocks, lists[b][k] as int)].free && bucket_of(
            blocks[find_block(blocks, lists[b][k] as int)].size,
        ) == b
    &&& forall|i: int|
        0 <= i < blocks.len() && (#[trigger] blocks[i]).free ==> lists[bucket_of(
            blocks[i].size,
        )].contains(blocks[i].addr as usize)
}

/// The heap as a mathematical object.
pub struct HeapView {
    /// The memory areas in the order in which they lie in memory.
    pub blocks: Seq<Block>,
    /// For each bucket the addresses of its free areas, head first.
    pub lists: Seq<Seq<usize>>,
    /// The area obtained from the OS that is held back for reuse, if there
    /// is one: where it starts and how many bytes it has.
    pub cached: Option<(int, int)>,
    /// Total bytes obtained from the OS.
    pub size: int,
    /// Bytes in free areas.
    pub remaining: int,
}

/// What an area counts for: its size if it is free, when only free bytes
/// are counted; else the bytes it takes.
pub open spec fn weight(b: Block, free_only: bool) -> int {
    if free_only {
        if b.free {
            b.size
        } else {
            0
        }
    } else {
        extent(b)
    }
}

/// The bytes of the free areas, or the bytes of all areas.
pub open spec fn sum_blocks(blocks: Seq<Block>, free_only: bool) -> int
    decreases blocks.len(),
{
    if blocks.len() == 0 {
        0
    } else {
        sum_blocks(blocks.drop_last(), free_only) + weight(blocks.last(), free_only)
    }
}

/// Replacing one area changes the sum by the difference of the two.
pub proof fn lemma_sum_update(blocks: Seq<Block>, i: int, nb: Block, free_only: bool)
    requires
        0 <= i < blocks.len(),
    ensures
        sum_blocks(blocks.update(i, nb), free_only) == sum_blocks(blocks, free_only) - weight(
            blocks[i],
            free_only,
        ) + weight(nb, free_only),
    decreases blocks.len(),
{
    let u = blocks.update(i, nb);
    if i == blocks.len() - 1 {
        assert(u.drop_last() =~= blocks.drop_last());
    } else {
        assert(u.drop_last() =~= blocks.drop_last().update(i, nb));
        lemma_sum_update(blocks.drop_last(), i, nb, free_only);
    }
}

/// Putting in one area adds it to the sum.
pub proof fn lemma_sum_insert(blocks: Seq<Block>, i: int, nb: Block, free_only: bool)
    requires
        0 <= i <= blocks.len(),
    ensures
        sum_blocks(blocks.insert(i, nb), free_only) == sum_blocks(blocks, free_only) + weight(
            nb,
            free_only,
        ),
    decreases blocks.len(),
{
    let u = blocks.insert(i, nb);
    if i == blocks.len() {
        assert(u.drop_last() =~= blocks);
    } else {
        assert(u.drop_last() =~= blocks.drop_last().insert(i, nb));
        lemma_sum_insert(blocks.drop_last(), i, nb, free_only);
    }
}

/// Taking out one area takes it off the sum.
pub proof fn lemma_sum_remove(blocks: Seq<Block>, i: int, free_only: bool)
    requires
        0 <= i < blocks.len(),
    ensures
        sum_blocks(blocks.remove(i), free_only) == sum_blocks(blocks, free_only) - weight(
            blocks[i],
            free_only,
        ),
    decreases blocks.len(),
{
    let u = blocks.remove(i);
    if i == blocks.len() - 1 {
        assert(u =~= blocks.drop_last());
    } else {
        assert(u.drop_last() =~= blocks.drop_last().remove(i));
        lemma_sum_remove(blocks.drop_last(), i, free_only);
    }
}

/// The area held back for reuse starts and ends at page boundaries inside
/// the address space and shares no byte with an area of the heap.
pub open spec fn cached_wf(blocks: Seq<Block>, cached: Option<(int, int)>) -> bool {
    cached is Some ==> {
        let (c, cs) = cached->Some_0;
        &&& c > 0
        &&& c % (PAGE_SIZE as int) == 0
        &&& cs % (PAGE_SIZE as int) == 0
        &&& cs >= PAGE_SIZE
        &&& c + cs <= usize::MAX
        &&& forall|i: int|
            0 <= i < blocks.len() ==> (#[trigger] blocks[i]).addr + extent(blocks[i]) <= c || c
                + cs <= blocks[i].addr
    }
}

/// The bytes of the area held back for reuse.
pub open spec fn cached_size(cached: Option<(int, int)>) -> int {
    if cached is Some {
        cached->Some_0.1
    } else {
        0
    }
}

/// The heap is sound: its areas tile what was obtained from the OS, the
/// free lists hold the free areas, and the two counts are right.
pub open spec fn view_wf(v: HeapView) -> bool {
    &&& blocks_wf(v.blocks)
    &&& lists_wf(v.blocks, v.lists)
    &&& cached_wf(v.blocks, v.cached)
    &&& v.remaining == sum_blocks(v.blocks, true)
    &&& v.size == sum_blocks(v.blocks, false) + cached_size(v.cached)
}

/// The first bucket at or behind `from` that has a free area.
pub open spec fn first_nonempty(lists: Seq<Seq<usize>>, from: int) -> int {
    choose|b: int|
        from <= b < lists.len() && (#[trigger] lists[b]).len() > 0 && forall|c: int|
            from <= c < b ==> (#[trigger] lists[c]).len() == 0
}

/// Some bucket at or behind `from` has a free area.
pub open spec fn has_nonempty(lists: Seq<Seq<usize>>, from: int) -> bool {
    exists|b: int| from <= b < lists.len() && (#[trigger] lists[b]).len() > 0
}

/// A nonempty bucket with only empty ones between `from` and it is the
/// first.
pub proof fn lemma_first_nonempty(lists: Seq<Seq<usize>>, from: int, b: int)
    requires
        from <= b < lists.len(),
        lists[b].len() > 0,
        forall|c: int| from <= c < b ==> (#[trigger] lists[c]).len() == 0,
    ensures
        has_nonempty(lists, from),
        first_nonempty(lists, from) == b,
{
    let f = first_nonempty(lists, from);
    assert(from <= f < lists.len() && lists[f].len() > 0 && forall|c: int|
        from <= c < f ==> (#[trigger] lists[c]).len() == 0);
    if f < b {
        assert(lists[f].len() == 0);
    }
    if b < f {
        assert(lists[b].len() == 0);
    }
}

/// The area `b` marked free or in use.
pub open spec fn with_free(b: Block, free: bool) -> Block {
    Block { free, ..b }
}

/// The area `b` with another size.
pub open spec fn with_size(b: Block, size: int) -> Block {
    Block { size, ..b }
}

/// The area `b` with another record of where the area before it starts.
pub open spec fn with_left(b: Block, left: int) -> Block {
    Block { left, ..b }
}

/// The heap after the free area at position `i` left its bucket: it is
/// marked in use, and off the list.
pub open spec fn unlinked(v: HeapView, i: int) -> HeapView {
    let b = v.blocks[i];
    let bucket = bucket_of(b.size);
    HeapView {
        blocks: v.blocks.update(i, with_free(b, false)),
        lists: v.lists.update(
            bucket,
            v.lists[bucket].remove(first_index(v.lists[bucket], b.addr as usize)),
        ),
        remaining: v.remaining - b.size,
        ..v
    }
}

/// The heap after the area at position `i` joined its bucket: it is
/// marked free, and at the head of the list.
pub open spec fn linked(v: HeapView, i: int) -> HeapView {
    let b = v.blocks[i];
    let bucket = bucket_of(b.size);
    HeapView {
        blocks: v.blocks.update(i, with_free(b, true)),
        lists: v.lists.update(bucket, seq![b.addr as usize] + v.lists[bucket]),
        remaining: v.remaining + b.size,
        ..v
    }
}

/// The areas after the one at position `i` was cut to `size` bytes and a
/// new area took the rest of it.
pub open spec fn split_blocks(blocks: Seq<Block>, i: int, size: int) -> Seq<Block> {
    let b = blocks[i];
    let rest = Block { addr: b.addr + size, left: b.addr, size: b.size - size, free: false };
    blocks.update(i, with_size(b, size)).insert(i + 1, rest).update(
        i + 2,
        with_left(blocks[i + 1], b.addr + size),
    )
}

/// The areas after the one at position `i` took in the one behind it.
pub open spec fn absorbed(blocks: Seq<Block>, i: int) -> Seq<Block> {
    let b = blocks[i];
    let merged = with_size(b, b.size + blocks[i + 1].size);
    blocks.update(i, merged).remove(i + 1).update(i + 1, with_left(blocks[i + 2], b.addr))
}

/// Whether `take` splits the area it found: the rest must be large enough
/// for a free area, and more than a sixty-fourth of the request.
pub open spec fn take_splits(area: int, request: int) -> bool {
    let left_over = area - (spec_rounded_size(request) + SIZE_OF_HEADER_T);
    left_over >= SIZE_OF_FREE_T && left_over > request / 64
}

/// The heap after a request of `request` bytes was served from the free
/// lists: the first free area of the first nonempty bucket at or behind
/// the bucket of the request leaves its list; if what it has beyond the
/// rounded request is worth keeping, it is split and the rest joins the
/// bucket of its size.
pub open spec fn taken(v: HeapView, request: int) -> HeapView {
    let bucket = first_nonempty(v.lists, spec_size_to_index_allocating(request));
    let head = v.lists[bucket][0];
    let i = find_block(v.blocks, head as int);
    let v1 = unlinked(v, i);
    let rounded = spec_rounded_size(request) + SIZE_OF_HEADER_T;
    if take_splits(v.blocks[i].size, request) {
        linked(HeapView { blocks: split_blocks(v1.blocks, i, rounded), ..v1 }, i + 1)
    } else {
        v1
    }
}

/// The address that `take` hands out: behind the header of the area it
/// found.
pub open spec fn taken_addr(v: HeapView, request: int) -> int {
    v.lists[first_nonempty(v.lists, spec_size_to_index_allocating(request))][0]
        + SIZE_OF_HEADER_T
}

/// The free areas of `a` are areas of `b` as well, unchanged.
pub open spec fn free_kept(a: Seq<Block>, b: Seq<Block>) -> bool {
    forall|i: int|
        0 <= i < a.len() && (#[trigger] a[i]).free ==> has_block(b, a[i].addr) && b[find_block(
            b,
            a[i].addr,
        )].free && b[find_block(b, a[i].addr)].size == a[i].size
}

/// Free lists that hold the free areas of one sequence of areas hold
/// those of every sequence with the same free areas.
pub proof fn lemma_lists_frame(old: Seq<Block>, new: Seq<Block>, lists: Seq<Seq<usize>>)
    requires
        blocks_wf(old),
        blocks_wf(new),
        lists_wf(old, lists),
        free_kept(old, new),
        free_kept(new, old),
    ensures
        lists_wf(new, lists),
{
    reveal(lists_wf);
    assert forall|b: int, k: int| 0 <= b < lists.len() && 0 <= k < lists[b].len() implies has_block(
        new,
        (#[trigger] lists[b][k]) as int,
    ) && new[find_block(new, lists[b][k] as int)].free && bucket_of(
        new[find_block(new, lists[b][k] as int)].size,
    ) == b by {
        let a = lists[b][k] as int;
        let io = find_block(old, a);
        assert(old[io].free);
        assert(old[io].addr == a);
    }
    assert forall|j: int| 0 <= j < new.len() && (#[trigger] new[j]).free implies lists[bucket_of(
        new[j].size,
    )].contains(new[j].addr as usize) by {
        let io = find_block(old, new[j].addr);
        assert(old[io].free && old[io].size == new[j].size && old[io].addr == new[j].addr);
    }
}

/// Where a sound area lies, and the bucket of a free one.
pub proof fn lemma_block_basic(blocks: Seq<Block>, j: int)
    requires
        blocks_wf(blocks),
        0 <= j < blocks.len(),
    ensures
        0 < blocks[j].addr,
        blocks[j].addr + extent(blocks[j]) <= usize::MAX,
        blocks[j].size == 0 || blocks[j].size >= SIZE_OF_HEADER_T,
        blocks[j].size % 8 == 0,
        blocks[j].addr % 8 == 0,
        blocks[j].left != 0 && blocks[j].size > 0 ==> blocks[j].size >= MIN_AREA && 0 <= bucket_of(
            blocks[j].size,
        ) < NUMBER_OF_BUCKETS,
        blocks[j].free ==> blocks[j].size >= MIN_AREA && blocks[j].left != 0,
{
    lemma_block_ok(blocks, j);
    let b = blocks[j];
    if b.size >= MIN_AREA {
        lemma_bucket_of(b.size, 1);
    }
}

/// What is known of a free area of a sound heap.
pub proof fn lemma_free_block(v: HeapView, i: int)
    requires
        view_wf(v),
        0 <= i < v.blocks.len(),
        v.blocks[i].free,
    ensures
        0 < i < v.blocks.len() - 1,
        v.blocks[i].size >= MIN_AREA,
        v.blocks[i].left != 0,
        !v.blocks[i - 1].free,
        !v.blocks[i + 1].free,
        v.lists.len() == NUMBER_OF_BUCKETS,
        0 <= bucket_of(v.blocks[i].size) < NUMBER_OF_BUCKETS,
        v.lists[bucket_of(v.blocks[i].size)].contains(v.blocks[i].addr as usize),
{
    lemma_block_ok(v.blocks, i);
    reveal(lists_wf);
    let b = v.blocks[i];
    lemma_bucket_of(b.size, 1);
}

/// Marking an area in use that was free leaves the areas sound.
pub proof fn lemma_unlinked_blocks(blocks: Seq<Block>, i: int)
    requires
        blocks_wf(blocks),
        0 <= i < blocks.len(),
    ensures
        blocks_wf(blocks.update(i, with_free(blocks[i], false))),
{
    let w = blocks.update(i, with_free(blocks[i], false));
    assert forall|j: int| 0 <= j < w.len() implies {
        let x = #[trigger] w[j];
        &&& x.addr == blocks[j].addr
        &&& x.size == blocks[j].size
        &&& x.left == blocks[j].left
        &&& x.free ==> blocks[j].free
    } by {}
    lemma_blocks_wf_weaken(blocks, w);
}

/// Taking a free area off its list leaves the free lists in order.
pub proof fn lemma_unlinked_lists(v: HeapView, i: int)
    requires
        blocks_wf(v.blocks),
        blocks_wf(unlinked(v, i).blocks),
        lists_wf(v.blocks, v.lists),
        0 <= i < v.blocks.len(),
        v.blocks[i].free,
        0 <= bucket_of(v.blocks[i].size) < NUMBER_OF_BUCKETS,
    ensures
        lists_wf(unlinked(v, i).blocks, unlinked(v, i).lists),
{
    reveal(lists_wf);
    let b = v.blocks[i];
    let bucket = bucket_of(b.size);
    let w = unlinked(v, i);
    let ol = v.lists[bucket];
    let idx = first_index(ol, b.addr as usize);
    assert(ol.contains(b.addr as usize));
    let wit = choose|k: int| 0 <= k < ol.len() && ol[k] == b.addr as usize;
    lemma_first_occurrence(ol, b.addr as usize, wit);
    let nl = ol.remove(idx);
    assert(w.lists[bucket] == nl);
    assert(nl.no_duplicates()) by {
        assert forall|x: int, y: int| 0 <= x < y < nl.len() implies nl[x] != nl[y] by {
            let ox = if x < idx {
                x
            } else {
                x + 1
            };
            let oy = if y < idx {
                y
            } else {
                y + 1
            };
            assert(ol[ox] != ol[oy]);
        }
    }
    assert forall|p: int, k: int| 0 <= p < w.lists.len() && 0 <= k < w.lists[p].len() implies has_block(
        w.blocks,
        (#[trigger] w.lists[p][k]) as int,
    ) && w.blocks[find_block(w.blocks, w.lists[p][k] as int)].free && bucket_of(
        w.blocks[find_block(w.blocks, w.lists[p][k] as int)].size,
    ) == p by {
        let a = w.lists[p][k];
        let ok = if p == bucket && k >= idx {
            k + 1
        } else {
            k
        };
        assert(v.lists[p][ok] == a);
        let io = find_block(v.blocks, a as int);
        assert(v.blocks[io].addr == a && v.blocks[io].free);
        if io == i {
            assert(p == bucket);
            assert(ol[ok] == ol[idx]);
        }
        assert(w.blocks[io] == v.blocks[io]);
        lemma_find_block(w.blocks, io);
    }
    assert forall|j: int| 0 <= j < w.blocks.len() && (#[trigger] w.blocks[j]).free implies w.lists[bucket_of(
        w.blocks[j].size,
    )].contains(w.blocks[j].addr as usize) by {
        assert(v.blocks[j].free);
        lemma_block_basic(v.blocks, j);
        lemma_block_basic(v.blocks, i);
        let p = bucket_of(v.blocks[j].size);
        let a = v.blocks[j].addr as usize;
        assert(v.lists[p].contains(a));
        let k = choose|k: int| 0 <= k < v.lists[p].len() && v.lists[p][k] == a;
        if p == bucket {
            assert(a != b.addr) by {
                if a == b.addr {
                    lemma_find_block(v.blocks, i);
                    lemma_find_block(v.blocks, j);
                }
            }
            let nk = if k < idx {
                k
            } else {
                k - 1
            };
            assert(nl[nk] == a);
        } else {
            assert(w.lists[p][k] == a);
        }
    }
    assert forall|p: int| 0 <= p < w.lists.len() implies (#[trigger] w.lists[p]).no_duplicates() by {
        if p != bucket {
            assert(w.lists[p] == v.lists[p]);
        }
    }
}

/// The byte `a` belongs to an area of `blocks`.
pub open spec fn in_heap(blocks: Seq<Block>, a: int) -> bool {
    exists|i: int|
        0 <= i < blocks.len() && (#[trigger] blocks[i]).addr <= a < blocks[i].addr + extent(
            blocks[i],
        )
}

/// Every area of `new` lies inside an area of `old`.
pub open spec fn within(new: Seq<Block>, old: Seq<Block>) -> bool {
    forall|j: int|
        0 <= j < new.len() ==> exists|i: int|
            0 <= i < old.len() && (#[trigger] old[i]).addr <= (#[trigger] new[j]).addr
                && new[j].addr + extent(new[j]) <= old[i].addr + extent(old[i])
}

/// Every byte of an area of `new` is a byte of an area of `old`.
pub open spec fn bytes_within(new: Seq<Block>, old: Seq<Block>) -> bool {
    forall|x: int| #[trigger] in_heap(new, x) ==> in_heap(old, x)
}

/// Areas that lie inside others have their bytes among the bytes of
/// those.
pub proof fn lemma_within_bytes(new: Seq<Block>, old: Seq<Block>)
    requires
        within(new, old),
    ensures
        bytes_within(new, old),
{
    assert forall|x: int| #[trigger] in_heap(new, x) implies in_heap(old, x) by {
        let j = choose|j: int|
            0 <= j < new.len() && (#[trigger] new[j]).addr <= x < new[j].addr + extent(new[j]);
        let k = choose|k: int|
            0 <= k < old.len() && (#[trigger] old[k]).addr <= new[j].addr && new[j].addr + extent(
                new[j],
            ) <= old[k].addr + extent(old[k]);
        assert(old[k].addr <= x < old[k].addr + extent(old[k]));
    }
}

/// An area that is held back for reuse shares no byte with areas that
/// lie where the areas of the heap lay.
pub proof fn lemma_cached_frame(old: Seq<Block>, new: Seq<Block>, cached: Option<(int, int)>)
    requires
        cached_wf(old, cached),
        within(new, old),
    ensures
        cached_wf(new, cached),
{
    if cached is Some {
        assert forall|j: int| 0 <= j < new.len() implies (#[trigger] new[j]).addr + extent(new[j])
            <= cached->Some_0.0 || cached->Some_0.0 + cached->Some_0.1 <= new[j].addr by {
            let i = choose|i: int|
                0 <= i < old.len() && old[i].addr <= new[j].addr && new[j].addr + extent(new[j])
                    <= old[i].addr + extent(old[i]);
            assert(old[i].addr + extent(old[i]) <= cached->Some_0.0 || cached->Some_0.0
                + cached->Some_0.1 <= old[i].addr);
        }
    }
}

/// Taking a free area off its list leaves a sound heap.
pub proof fn lemma_unlinked_wf(v: HeapView, i: int)
    requires
        view_wf(v),
        0 <= i < v.blocks.len(),
        v.blocks[i].free,
    ensures
        view_wf(unlinked(v, i)),
        unlinked(v, i).blocks.len() == v.blocks.len(),
        unlinked(v, i).lists.len() == v.lists.len(),
        bytes_within(unlinked(v, i).blocks, v.blocks),
{
    let b = v.blocks[i];
    let w = unlinked(v, i);
    lemma_free_block(v, i);
    lemma_unlinked_blocks(v.blocks, i);
    lemma_unlinked_lists(v, i);
    lemma_sum_update(v.blocks, i, with_free(b, false), true);
    lemma_sum_update(v.blocks, i, with_free(b, false), false);
    assert forall|j: int| 0 <= j < w.blocks.len() implies exists|k: int|
        0 <= k < v.blocks.len() && v.blocks[k].addr <= (#[trigger] w.blocks[j]).addr
            && w.blocks[j].addr + extent(w.blocks[j]) <= v.blocks[k].addr + extent(v.blocks[k]) by {
        assert(v.blocks[j].addr == w.blocks[j].addr);
    }
    lemma_cached_frame(v.blocks, w.blocks, v.cached);
    lemma_within_bytes(w.blocks, v.blocks);
}

/// The first occurrence of an element that occurs is an occurrence with
/// none before it.
pub proof fn lemma_first_occurrence(s: Seq<usize>, elt: usize, wit: int)
    requires
        0 <= wit < s.len(),
        s[wit] == elt,
    ensures
        0 <= first_index(s, elt) <= wit,
        s[first_index(s, elt)] == elt,
        forall|k: int| 0 <= k < first_index(s, elt) ==> s[k] != elt,
    decreases wit,
{
    if exists|k: int| 0 <= k < wit && s[k] == elt {
        let k = choose|k: int| 0 <= k < wit && s[k] == elt;
        lemma_first_occurrence(s, elt, k);
    } else {
        lemma_first_index(s, elt, wit);
    }
}

/// Areas that lie and measure as sound areas do, with fewer of them
/// free, are sound.
pub proof fn lemma_blocks_wf_weaken(old: Seq<Block>, new: Seq<Block>)
    requires
        blocks_wf(old),
        new.len() == old.len(),
        forall|j: int|
            0 <= j < new.len() ==> {
                let x = #[trigger] new[j];
                &&& x.addr == old[j].addr
                &&& x.size == old[j].size
                &&& x.left == old[j].left
                &&& x.free ==> old[j].free
            },
    ensures
        blocks_wf(new),
{
    assert forall|i: int| 0 <= i < new.len() implies #[trigger] block_ok(new, i) by {
        lemma_block_ok(old, i);
        if i > 0 {
            lemma_block_ok(old, i - 1);
            assert(new[i - 1].addr == old[i - 1].addr);
        }
        if i + 1 < new.len() {
            lemma_block_ok(old, i + 1);
            assert(new[i + 1].addr == old[i + 1].addr);
        }
    }
    if new.len() > 0 {
        lemma_block_ok(old, 0);
        assert(new[0].left == old[0].left);
    }
    lemma_blocks_wf_intro(new);
}

/// Putting an area that is in use, large enough and between areas in
/// use on the list of its bucket leaves a sound heap.
pub proof fn lemma_linked_wf(v: HeapView, i: int)
    requires
        view_wf(v),
        0 < i < v.blocks.len() - 1,
        !v.blocks[i].free,
        v.blocks[i].left != 0,
        v.blocks[i].size >= MIN_AREA,
        !v.blocks[i - 1].free,
        !v.blocks[i + 1].free,
    ensures
        view_wf(linked(v, i)),
        linked(v, i).blocks.len() == v.blocks.len(),
        bytes_within(linked(v, i).blocks, v.blocks),
{
    let b = v.blocks[i];
    let w = linked(v, i);
    lemma_bucket_of(b.size, 1);
    lemma_linked_blocks(v.blocks, i);
    lemma_linked_lists(v, i);
    lemma_sum_update(v.blocks, i, with_free(b, true), true);
    lemma_sum_update(v.blocks, i, with_free(b, true), false);
    assert forall|j: int| 0 <= j < w.blocks.len() implies exists|k: int|
        0 <= k < v.blocks.len() && v.blocks[k].addr <= (#[trigger] w.blocks[j]).addr
            && w.blocks[j].addr + extent(w.blocks[j]) <= v.blocks[k].addr + extent(v.blocks[k]) by {
        assert(v.blocks[j].addr == w.blocks[j].addr);
    }
    lemma_cached_frame(v.blocks, w.blocks, v.cached);
    lemma_within_bytes(w.blocks, v.blocks);
}

proof fn lemma_linked_blocks(blocks: Seq<Block>, i: int)
    requires
        blocks_wf(blocks),
        0 < i < blocks.len() - 1,
        !blocks[i].free,
        blocks[i].left != 0,
        blocks[i].size >= MIN_AREA,
        !blocks[i - 1].free,
        !blocks[i + 1].free,
    ensures
        blocks_wf(blocks.update(i, with_free(blocks[i], true))),
{
    let w = blocks.update(i, with_free(blocks[i], true));
    assert forall|j: int| 0 <= j < w.len() implies #[trigger] block_ok(w, j) by {
        lemma_block_ok(blocks, j);
        if j > 0 {
            assert(w[j - 1].addr == blocks[j - 1].addr);
        }
        if j + 1 < w.len() {
            assert(w[j + 1].addr == blocks[j + 1].addr);
        }
    }
    lemma_block_ok(blocks, 0);
    lemma_blocks_wf_intro(w);
}

proof fn lemma_linked_lists(v: HeapView, i: int)
    requires
        blocks_wf(v.blocks),
        blocks_wf(linked(v, i).blocks),
        lists_wf(v.blocks, v.lists),
        0 <= i < v.blocks.len(),
        !v.blocks[i].free,
        v.blocks[i].size >= MIN_AREA,
    ensures
        lists_wf(linked(v, i).blocks, linked(v, i).lists),
{
    reveal(lists_wf);
    let b = v.blocks[i];
    let bucket = bucket_of(b.size);
    lemma_bucket_of(b.size, 1);
    lemma_block_basic(v.blocks, i);
    let w = linked(v, i);
    let ol = v.lists[bucket];
    let nl = seq![b.addr as usize] + ol;
    assert(w.lists[bucket] == nl);
    lemma_find_block(v.blocks, i);
    lemma_find_block(w.blocks, i);
    assert(!ol.contains(b.addr as usize)) by {
        if ol.contains(b.addr as usize) {
            let k = choose|k: int| 0 <= k < ol.len() && ol[k] == b.addr as usize;
            assert(v.blocks[find_block(v.blocks, v.lists[bucket][k] as int)].free);
        }
    }
    assert(nl.no_duplicates()) by {
        assert forall|x: int, y: int| 0 <= x < y < nl.len() implies nl[x] != nl[y] by {
            if x == 0 {
                assert(ol[y - 1] == nl[y]);
                assert(ol.contains(nl[y]));
            } else {
                assert(ol[x - 1] != ol[y - 1]);
            }
        }
    }
    assert forall|p: int, k: int| 0 <= p < w.lists.len() && 0 <= k < w.lists[p].len() implies has_block(
        w.blocks,
        (#[trigger] w.lists[p][k]) as int,
    ) && w.blocks[find_block(w.blocks, w.lists[p][k] as int)].free && bucket_of(
        w.blocks[find_block(w.blocks, w.lists[p][k] as int)].size,
    ) == p by {
        let a = w.lists[p][k];
        if p == bucket && k == 0 {
        } else {
            let ok = if p == bucket {
                k - 1
            } else {
                k
            };
            assert(v.lists[p][ok] == a);
            let io = find_block(v.blocks, a as int);
            assert(v.blocks[io].addr == a && v.blocks[io].free);
            assert(w.blocks[io] == v.blocks[io]);
            lemma_find_block(w.blocks, io);
        }
    }
    assert forall|j: int| 0 <= j < w.blocks.len() && (#[trigger] w.blocks[j]).free implies w.lists[bucket_of(
        w.blocks[j].size,
    )].contains(w.blocks[j].addr as usize) by {
        if j == i {
            assert(nl[0] == b.addr as usize);
        } else {
            assert(v.blocks[j].free);
            lemma_block_basic(v.blocks, j);
            let p = bucket_of(v.blocks[j].size);
            let a = v.blocks[j].addr as usize;
            assert(v.lists[p].contains(a));
            let k = choose|k: int| 0 <= k < v.lists[p].len() && v.lists[p][k] == a;
            if p == bucket {
                assert(nl[k + 1] == a);
            } else {
                assert(w.lists[p][k] == a);
            }
        }
    }
    assert forall|p: int| 0 <= p < w.lists.len() implies (#[trigger] w.lists[p]).no_duplicates() by {
        if p != bucket {
            assert(w.lists[p] == v.lists[p]);
        }
    }
}

/// Cutting an area in use in two, both in use, leaves a sound heap.
pub proof fn lemma_split_wf(v: HeapView, i: int, size: int)
    requires
        view_wf(v),
        0 <= i < v.blocks.len(),
        !v.blocks[i].free,
        v.blocks[i].left != 0,
        v.blocks[i].size > 0,
        size % 8 == 0,
        MIN_AREA <= size,
        v.blocks[i].size - size >= MIN_AREA,
    ensures
        view_wf(HeapView { blocks: split_blocks(v.blocks, i, size), ..v }),
        split_blocks(v.blocks, i, size).len() == v.blocks.len() + 1,
        i + 2 < split_blocks(v.blocks, i, size).len(),
        bytes_within(split_blocks(v.blocks, i, size), v.blocks),
{
    let old = v.blocks;
    let new = split_blocks(old, i, size);
    let b = old[i];
    lemma_block_ok(old, i);
    lemma_split_blocks(old, i, size);
    let rest = Block { addr: b.addr + size, left: b.addr, size: b.size - size, free: false };
    let s1 = old.update(i, with_size(b, size));
    let s2 = s1.insert(i + 1, rest);
    lemma_sum_update(old, i, with_size(b, size), true);
    lemma_sum_update(old, i, with_size(b, size), false);
    lemma_sum_insert(s1, i + 1, rest, true);
    lemma_sum_insert(s1, i + 1, rest, false);
    lemma_sum_update(s2, i + 2, with_left(old[i + 1], b.addr + size), true);
    lemma_sum_update(s2, i + 2, with_left(old[i + 1], b.addr + size), false);
    assert(free_kept(old, new)) by {
        assert forall|j: int| 0 <= j < old.len() && (#[trigger] old[j]).free implies has_block(
            new,
            old[j].addr,
        ) && new[find_block(new, old[j].addr)].free && new[find_block(new, old[j].addr)].size
            == old[j].size by {
            let nj = if j < i {
                j
            } else {
                j + 1
            };
            assert(new[nj].addr == old[j].addr);
            lemma_find_block(new, nj);
        }
    }
    assert(free_kept(new, old)) by {
        assert forall|j: int| 0 <= j < new.len() && (#[trigger] new[j]).free implies has_block(
            old,
            new[j].addr,
        ) && old[find_block(old, new[j].addr)].free && old[find_block(old, new[j].addr)].size
            == new[j].size by {
            let oj = if j <= i {
                j
            } else {
                j - 1
            };
            assert(old[oj].addr == new[j].addr);
            lemma_find_block(old, oj);
        }
    }
    lemma_lists_frame(old, new, v.lists);
    assert forall|j: int| 0 <= j < new.len() implies exists|k: int|
        0 <= k < old.len() && old[k].addr <= (#[trigger] new[j]).addr && new[j].addr + extent(new[j])
            <= old[k].addr + extent(old[k]) by {
        let oj = if j <= i {
            j
        } else {
            j - 1
        };
        assert(old[oj].addr <= new[j].addr && new[j].addr + extent(new[j]) <= old[oj].addr
            + extent(old[oj]));
    }
    lemma_cached_frame(old, new, v.cached);
    lemma_within_bytes(new, old);
}

proof fn lemma_split_blocks(old: Seq<Block>, i: int, size: int)
    requires
        blocks_wf(old),
        0 <= i < old.len(),
        !old[i].free,
        old[i].left != 0,
        old[i].size > 0,
        size % 8 == 0,
        MIN_AREA <= size,
        old[i].size - size >= MIN_AREA,
    ensures
        blocks_wf(split_blocks(old, i, size)),
        split_blocks(old, i, size).len() == old.len() + 1,
        i + 1 < old.len(),
        forall|j: int| 0 <= j < i ==> split_blocks(old, i, size)[j] == old[j],
        split_blocks(old, i, size)[i] == with_size(old[i], size),
        split_blocks(old, i, size)[i + 1] == (Block {
            addr: old[i].addr + size,
            left: old[i].addr,
            size: old[i].size - size,
            free: false,
        }),
        split_blocks(old, i, size)[i + 2] == with_left(old[i + 1], old[i].addr + size),
        forall|j: int| i + 2 < j <= old.len() ==> split_blocks(old, i, size)[j] == old[j - 1],
{
    let new = split_blocks(old, i, size);
    lemma_block_ok(old, i);
    lemma_block_ok(old, i + 1);
    assert(new.len() == old.len() + 1);
    assert(new[i] == with_size(old[i], size));
    assert(new[i + 2] == with_left(old[i + 1], old[i].addr + size));
    assert forall|j: int| 0 <= j < i implies new[j] == old[j] by {}
    assert forall|j: int| i + 2 < j <= old.len() implies new[j] == old[j - 1] by {}
    assert forall|j: int| 0 <= j < new.len() implies #[trigger] block_ok(new, j) by {
        if j < i {
            lemma_block_ok(old, j);
            if j == i - 1 {
                assert(new[j + 1].left == old[j + 1].left && new[j + 1].free == old[j + 1].free);
            } else {
                lemma_block_ok_window(old, j, new, j);
            }
        } else if j == i {
            if i > 0 {
                assert(new[i - 1] == old[i - 1]);
            }
        } else if j == i + 1 {
        } else if j == i + 2 {
            if i + 2 < old.len() {
                assert(new[i + 3] == old[i + 2]);
            }
        } else {
            lemma_block_ok(old, j - 1);
            if j == i + 3 {
                assert(new[j - 1].addr == old[j - 2].addr && new[j - 1].size == old[j - 2].size
                    && new[j - 1].free == old[j - 2].free);
                if j + 1 < new.len() {
                    assert(new[j + 1] == old[j]);
                }
            } else {
                lemma_block_ok_window(old, j - 1, new, j);
            }
        }
    }
    lemma_block_ok(old, 0);
    if i > 0 {
        assert(new[0] == old[0]);
    }
    lemma_blocks_wf_intro(new);
}

/// An area in use taking in the area in use behind it leaves a sound
/// heap.
pub proof fn lemma_absorbed_wf(v: HeapView, i: int)
    requires
        view_wf(v),
        0 <= i,
        i + 1 < v.blocks.len(),
        !v.blocks[i].free,
        v.blocks[i].left != 0,
        v.blocks[i].size > 0,
        !v.blocks[i + 1].free,
        v.blocks[i + 1].size > 0,
    ensures
        view_wf(HeapView { blocks: absorbed(v.blocks, i), ..v }),
        absorbed(v.blocks, i).len() == v.blocks.len() - 1,
        i + 1 < absorbed(v.blocks, i).len(),
        bytes_within(absorbed(v.blocks, i), v.blocks),
{
    let old = v.blocks;
    let new = absorbed(old, i);
    let b = old[i];
    lemma_block_ok(old, i);
    lemma_block_ok(old, i + 1);
    lemma_absorbed_blocks(old, i);
    let merged = with_size(b, b.size + old[i + 1].size);
    let s1 = old.update(i, merged);
    let s2 = s1.remove(i + 1);
    lemma_sum_update(old, i, merged, true);
    lemma_sum_update(old, i, merged, false);
    lemma_sum_remove(s1, i + 1, true);
    lemma_sum_remove(s1, i + 1, false);
    lemma_sum_update(s2, i + 1, with_left(old[i + 2], b.addr), true);
    lemma_sum_update(s2, i + 1, with_left(old[i + 2], b.addr), false);
    assert(free_kept(old, new)) by {
        assert forall|j: int| 0 <= j < old.len() && (#[trigger] old[j]).free implies has_block(
            new,
            old[j].addr,
        ) && new[find_block(new, old[j].addr)].free && new[find_block(new, old[j].addr)].size
            == old[j].size by {
            let nj = if j <= i {
                j
            } else {
                j - 1
            };
            assert(new[nj].addr == old[j].addr);
            lemma_find_block(new, nj);
        }
    }
    assert(free_kept(new, old)) by {
        assert forall|j: int| 0 <= j < new.len() && (#[trigger] new[j]).free implies has_block(
            old,
            new[j].addr,
        ) && old[find_block(old, new[j].addr)].free && old[find_block(old, new[j].addr)].size
            == new[j].size by {
            let oj = if j <= i {
                j
            } else {
                j + 1
            };
            assert(old[oj].addr == new[j].addr);
            lemma_find_block(old, oj);
        }
    }
    lemma_lists_frame(old, new, v.lists);
    lemma_absorbed_cached(old, i, v.cached);
    assert forall|x: int| #[trigger] in_heap(new, x) implies in_heap(old, x) by {
        let j = choose|j: int|
            0 <= j < new.len() && (#[trigger] new[j]).addr <= x < new[j].addr + extent(new[j]);
        if j == i {
            if x < old[i + 1].addr {
                assert(old[i].addr <= x < old[i].addr + extent(old[i]));
            } else {
                assert(old[i + 1].addr <= x < old[i + 1].addr + extent(old[i + 1]));
            }
        } else {
            let oj = if j < i {
                j
            } else {
                j + 1
            };
            assert(old[oj].addr <= x < old[oj].addr + extent(old[oj]));
        }
    }
}

proof fn lemma_absorbed_cached(old: Seq<Block>, i: int, cached: Option<(int, int)>)
    requires
        blocks_wf(old),
        cached_wf(old, cached),
        0 <= i,
        i + 2 < old.len(),
        old[i].size > 0,
        old[i + 1].size > 0,
    ensures
        cached_wf(absorbed(old, i), cached),
{
    let new = absorbed(old, i);
    lemma_block_ok(old, i);
    lemma_block_ok(old, i + 1);
    lemma_block_ok(old, i + 2);
    if cached is Some {
        let c = cached->Some_0.0;
        let cs = cached->Some_0.1;
        assert forall|j: int| 0 <= j < new.len() implies (#[trigger] new[j]).addr + extent(new[j])
            <= c || c + cs <= new[j].addr by {
            if j == i {
                assert(old[i].addr + extent(old[i]) <= c || c + cs <= old[i].addr);
                assert(old[i + 1].addr + extent(old[i + 1]) <= c || c + cs <= old[i + 1].addr);
            } else {
                let oj = if j < i {
                    j
                } else {
                    j + 1
                };
                assert(old[oj].addr + extent(old[oj]) <= c || c + cs <= old[oj].addr);
            }
        }
    }
}

proof fn lemma_absorbed_blocks(old: Seq<Block>, i: int)
    requires
        blocks_wf(old),
        0 <= i,
        i + 1 < old.len(),
        !old[i].free,
        old[i].left != 0,
        old[i].size > 0,
        !old[i + 1].free,
        old[i + 1].size > 0,
    ensures
        blocks_wf(absorbed(old, i)),
        absorbed(old, i).len() == old.len() - 1,
        i + 2 < old.len(),
        forall|j: int| 0 <= j < i ==> absorbed(old, i)[j] == old[j],
        absorbed(old, i)[i] == with_size(old[i], old[i].size + old[i + 1].size),
        absorbed(old, i)[i + 1] == with_left(old[i + 2], old[i].addr),
        forall|j: int| i + 1 < j < old.len() - 1 ==> absorbed(old, i)[j] == old[j + 1],
{
    let new = absorbed(old, i);
    lemma_block_ok(old, i);
    lemma_block_ok(old, i + 1);
    lemma_block_ok(old, i + 2);
    assert(new.len() == old.len() - 1);
    assert(new[i] == with_size(old[i], old[i].size + old[i + 1].size));
    assert(new[i + 1] == with_left(old[i + 2], old[i].addr));
    assert forall|j: int| 0 <= j < i implies new[j] == old[j] by {}
    assert forall|j: int| i + 1 < j < old.len() - 1 implies new[j] == old[j + 1] by {}
    assert forall|j: int| 0 <= j < new.len() implies #[trigger] block_ok(new, j) by {
        if j < i {
            lemma_block_ok(old, j);
            if j == i - 1 {
                assert(new[j + 1].left == old[j + 1].left && new[j + 1].free == old[j + 1].free);
            } else {
                lemma_block_ok_window(old, j, new, j);
            }
        } else if j == i {
            if i > 0 {
                assert(new[i - 1] == old[i - 1]);
            }
        } else if j == i + 1 {
            if i + 3 < old.len() {
                assert(new[i + 2] == old[i + 3]);
            }
        } else {
            lemma_block_ok(old, j + 1);
            if j == i + 2 {
                assert(new[j - 1].addr == old[j].addr && new[j - 1].size == old[j].size
                    && new[j - 1].free == old[j].free);
                if j + 1 < new.len() {
                    assert(new[j + 1] == old[j + 2]);
                }
            } else {
                lemma_block_ok_window(old, j + 1, new, j);
            }
        }
    }
    lemma_block_ok(old, 0);
    if i > 0 {
        assert(new[0] == old[0]);
    }
    lemma_blocks_wf_intro(new);
}

/// An area whose neighbours are what they were is in order if it was.
pub proof fn lemma_block_ok_window(old: Seq<Block>, k: int, new: Seq<Block>, j: int)
    requires
        0 <= k < old.len(),
        0 <= j < new.len(),
        block_ok(old, k),
        new[j] == old[k],
        (k > 0) == (j > 0),
        j > 0 ==> new[j - 1] == old[k - 1],
        (k + 1 < old.len()) == (j + 1 < new.len()),
        j + 1 < new.len() ==> new[j + 1] == old[k + 1],
    ensures
        block_ok(new, j),
{
}

/// The areas without the three that make up a whole area obtained from
/// the OS: the one at position `j` and the sentinels around it.
pub open spec fn region_removed(blocks: Seq<Block>, j: int) -> Seq<Block> {
    blocks.remove(j + 1).remove(j).remove(j - 1)
}

/// The area at position `j` is all there is between the two sentinels of
/// an area obtained from the OS.
pub open spec fn spans_region(blocks: Seq<Block>, j: int) -> bool {
    blocks[j - 1].left == 0 && blocks[j + 1].size == 0
}

/// Taking out a whole area obtained from the OS leaves sound areas, and
/// tells where that area lies.
pub proof fn lemma_region_removed(v: HeapView, j: int)
    requires
        view_wf(v),
        0 < j < v.blocks.len() - 1,
        !v.blocks[j].free,
        spans_region(v.blocks, j),
    ensures
        blocks_wf(region_removed(v.blocks, j)),
        lists_wf(region_removed(v.blocks, j), v.lists),
        cached_wf(region_removed(v.blocks, j), v.cached),
        cached_wf(
            region_removed(v.blocks, j),
            Some((v.blocks[j - 1].addr, v.blocks[j].size + 2 * SIZE_OF_HEADER_T)),
        ),
        sum_blocks(region_removed(v.blocks, j), true) == sum_blocks(v.blocks, true),
        sum_blocks(region_removed(v.blocks, j), false) == sum_blocks(v.blocks, false) - (
        v.blocks[j].size + 2 * SIZE_OF_HEADER_T),
        region_removed(v.blocks, j).len() == v.blocks.len() - 3,
        v.blocks[j].addr == v.blocks[j - 1].addr + SIZE_OF_HEADER_T,
        v.cached is Some ==> v.blocks[j + 1].addr + SIZE_OF_HEADER_T <= v.cached->Some_0.0
            || v.cached->Some_0.0 + v.cached->Some_0.1 <= v.blocks[j - 1].addr,
        forall|k: int| 0 <= k < j - 1 ==> region_removed(v.blocks, j)[k] == v.blocks[k],
        forall|k: int|
            j - 1 <= k < v.blocks.len() - 3 ==> region_removed(v.blocks, j)[k] == v.blocks[k + 3],
{
    let old = v.blocks;
    let new = region_removed(old, j);
    lemma_block_ok(old, j - 1);
    lemma_block_ok(old, j);
    lemma_block_ok(old, j + 1);
    assert(new.len() == old.len() - 3);
    assert forall|k: int| 0 <= k < j - 1 implies new[k] == old[k] by {}
    assert forall|k: int| j - 1 <= k < old.len() - 3 implies new[k] == old[k + 3] by {}
    assert forall|k: int| 0 <= k < new.len() implies #[trigger] block_ok(new, k) by {
        if k < j - 1 {
            lemma_block_ok(old, k);
            if k == j - 2 {
                if j + 2 < old.len() {
                    lemma_block_ok(old, j + 2);
                    assert(new[k + 1] == old[j + 2]);
                }
                if k > 0 {
                    assert(new[k - 1] == old[k - 1]);
                }
            } else {
                lemma_block_ok_window(old, k, new, k);
            }
        } else {
            lemma_block_ok(old, k + 3);
            if k == j - 1 {
                if k > 0 {
                    assert(new[k - 1] == old[j - 2]);
                    lemma_blocks_ordered(old, j - 2, j + 2);
                }
                if k + 1 < new.len() {
                    assert(new[k + 1] == old[k + 4]);
                }
            } else {
                lemma_block_ok_window(old, k + 3, new, k);
            }
        }
    }
    if new.len() > 0 {
        if j - 1 > 0 {
            lemma_block_ok(old, 0);
            assert(new[0] == old[0]);
        } else {
            lemma_block_ok(old, j + 2);
            assert(new[0] == old[3]);
        }
    }
    lemma_blocks_wf_intro(new);
    let s1 = old.remove(j + 1);
    let s2 = s1.remove(j);
    lemma_sum_remove(old, j + 1, true);
    lemma_sum_remove(old, j + 1, false);
    lemma_sum_remove(s1, j, true);
    lemma_sum_remove(s1, j, false);
    lemma_sum_remove(s2, j - 1, true);
    lemma_sum_remove(s2, j - 1, false);
    assert(free_kept(old, new)) by {
        assert forall|k: int| 0 <= k < old.len() && (#[trigger] old[k]).free implies has_block(
            new,
            old[k].addr,
        ) && new[find_block(new, old[k].addr)].free && new[find_block(new, old[k].addr)].size
            == old[k].size by {
            let nk = if k < j - 1 {
                k
            } else {
                k - 3
            };
            assert(new[nk] == old[k]);
            lemma_find_block(new, nk);
        }
    }
    assert(free_kept(new, old)) by {
        assert forall|k: int| 0 <= k < new.len() && (#[trigger] new[k]).free implies has_block(
            old,
            new[k].addr,
        ) && old[find_block(old, new[k].addr)].free && old[find_block(old, new[k].addr)].size
            == new[k].size by {
            let ok = if k < j - 1 {
                k
            } else {
                k + 3
            };
            assert(old[ok] == new[k]);
            lemma_find_block(old, ok);
        }
    }
    lemma_lists_frame(old, new, v.lists);
    assert forall|k: int| 0 <= k < new.len() implies exists|m: int|
        0 <= m < old.len() && old[m].addr <= (#[trigger] new[k]).addr && new[k].addr + extent(new[k])
            <= old[m].addr + extent(old[m]) by {
        let ok = if k < j - 1 {
            k
        } else {
            k + 3
        };
        assert(old[ok] == new[k]);
    }
    lemma_cached_frame(old, new, v.cached);
    let base = old[j - 1].addr;
    let total = old[j].size + 2 * SIZE_OF_HEADER_T;
    assert(base + total == old[j + 1].addr + SIZE_OF_HEADER_T);
    assert forall|k: int| 0 <= k < new.len() implies (#[trigger] new[k]).addr + extent(new[k])
        <= base || base + total <= new[k].addr by {
        if k < j - 1 {
            lemma_blocks_ordered(old, k, j - 1);
        } else {
            lemma_blocks_ordered(old, j + 1, k + 3);
        }
    }
    if v.cached is Some {
        let c = v.cached->Some_0.0;
        let cs = v.cached->Some_0.1;
        assert(old[j - 1].addr + extent(old[j - 1]) <= c || c + cs <= old[j - 1].addr);
        assert(old[j].addr + extent(old[j]) <= c || c + cs <= old[j].addr);
        assert(old[j + 1].addr + extent(old[j + 1]) <= c || c + cs <= old[j + 1].addr);
    }
}

/// The left sentinel of an area of `total` bytes obtained from the OS at
/// `area`.
pub open spec fn left_sentinel(area: int) -> Block {
    Block { addr: area, left: 0, size: SIZE_OF_HEADER_T as int, free: false }
}

/// The one area between the sentinels of a new area obtained from the
/// OS, in use.
pub open spec fn first_area(area: int, total: int) -> Block {
    Block {
        addr: area + SIZE_OF_HEADER_T,
        left: area,
        size: total - 2 * SIZE_OF_HEADER_T,
        free: false,
    }
}

/// The right sentinel of an area of `total` bytes obtained from the OS at
/// `area`.
pub open spec fn right_sentinel(area: int, total: int) -> Block {
    Block {
        addr: area + total - SIZE_OF_HEADER_T,
        left: area + SIZE_OF_HEADER_T,
        size: 0,
        free: false,
    }
}

/// The areas with those of a new area obtained from the OS put in at
/// position `pos`.
pub open spec fn region_added(blocks: Seq<Block>, pos: int, area: int, total: int) -> Seq<Block> {
    blocks.insert(pos, left_sentinel(area)).insert(pos + 1, first_area(area, total)).insert(
        pos + 2,
        right_sentinel(area, total),
    )
}

/// Where a new area at `area` goes among the areas: behind all that lie
/// below it.
pub open spec fn region_position(blocks: Seq<Block>, area: int) -> int {
    choose|p: int| splits_at(blocks, area, p)
}

/// The areas before position `p` lie below `area`, the others above it.
pub open spec fn splits_at(blocks: Seq<Block>, area: int, p: int) -> bool {
    &&& 0 <= p <= blocks.len()
    &&& forall|k: int| 0 <= k < p ==> (#[trigger] blocks[k]).addr < area
    &&& forall|k: int| p <= k < blocks.len() ==> (#[trigger] blocks[k]).addr > area
}

/// A position with all areas before it below `area` and all others above
/// it is where the new area goes.
pub proof fn lemma_region_position(blocks: Seq<Block>, area: int, p: int)
    requires
        0 <= p <= blocks.len(),
        forall|k: int| 0 <= k < p ==> (#[trigger] blocks[k]).addr < area,
        forall|k: int| p <= k < blocks.len() ==> (#[trigger] blocks[k]).addr > area,
    ensures
        region_position(blocks, area) == p,
{
    let c = region_position(blocks, area);
    assert(splits_at(blocks, area, p));
    assert(splits_at(blocks, area, c));
    if c < p {
        assert(blocks[c].addr < area);
        assert(blocks[c].addr > area);
    }
    if p < c {
        assert(blocks[p].addr < area);
        assert(blocks[p].addr > area);
    }
}

/// Putting in the three areas of a new area obtained from the OS between
/// two areas obtained earlier leaves sound areas.
#[verifier::rlimit(80)]
#[verifier::spinoff_prover]
proof fn lemma_region_added_blocks(old: Seq<Block>, pos: int, area: int, total: int)
    requires
        blocks_wf(old),
        0 <= pos <= old.len(),
        area > 0,
        area % (PAGE_SIZE as int) == 0,
        total % (PAGE_SIZE as int) == 0,
        total >= PAGE_SIZE,
        area + total <= usize::MAX,
        forall|k: int|
            0 <= k < old.len() ==> (#[trigger] old[k]).addr + extent(old[k]) <= area || area + total
                <= old[k].addr,
        forall|k: int| 0 <= k < pos ==> (#[trigger] old[k]).addr < area,
        forall|k: int| pos <= k < old.len() ==> (#[trigger] old[k]).addr > area,
    ensures
        blocks_wf(region_added(old, pos, area, total)),
        region_added(old, pos, area, total).len() == old.len() + 3,
        forall|k: int| 0 <= k < pos ==> region_added(old, pos, area, total)[k] == old[k],
        region_added(old, pos, area, total)[pos] == left_sentinel(area),
        region_added(old, pos, area, total)[pos + 1] == first_area(area, total),
        region_added(old, pos, area, total)[pos + 2] == right_sentinel(area, total),
        forall|k: int|
            pos + 3 <= k < old.len() + 3 ==> region_added(old, pos, area, total)[k] == old[k - 3],
{
    let new = region_added(old, pos, area, total);
    let s1 = old.insert(pos, left_sentinel(area));
    let s2 = s1.insert(pos + 1, first_area(area, total));
    assert(new.len() == old.len() + 3);
    assert forall|k: int| 0 <= k < pos implies new[k] == old[k] by {}
    assert(new[pos] == left_sentinel(area));
    assert(new[pos + 1] == first_area(area, total));
    assert(new[pos + 2] == right_sentinel(area, total));
    assert forall|k: int| pos + 3 <= k < old.len() + 3 implies new[k] == old[k - 3] by {}
    if pos > 0 {
        lemma_block_ok(old, pos - 1);
        assert(old[pos - 1].addr + extent(old[pos - 1]) <= area);
        if pos < old.len() {
            lemma_block_ok(old, pos);
            assert(area + total <= old[pos].addr);
        }
        assert(old[pos - 1].size == 0);
    }
    if pos < old.len() {
        lemma_block_ok(old, pos);
        assert(area + total <= old[pos].addr);
        if pos > 0 {
            assert(old[pos].left == 0);
        } else {
            lemma_block_ok(old, 0);
        }
    }
    assert forall|k: int| 0 <= k < new.len() implies #[trigger] block_ok(new, k) by {
        if k < pos {
            lemma_block_ok(old, k);
            if k == pos - 1 {
                if k > 0 {
                    assert(new[k - 1] == old[k - 1]);
                }
            } else {
                lemma_block_ok_window(old, k, new, k);
            }
        } else if k == pos {
            if pos > 0 {
                assert(new[pos - 1] == old[pos - 1]);
            }
        } else if k == pos + 1 {
        } else if k == pos + 2 {
            if pos < old.len() {
                assert(new[pos + 3] == old[pos]);
            }
        } else {
            lemma_block_ok(old, k - 3);
            if k == pos + 3 {
                if k + 1 < new.len() {
                    assert(new[k + 1] == old[k - 2]);
                }
            } else {
                lemma_block_ok_window(old, k - 3, new, k);
            }
        }
    }
    if pos > 0 {
        lemma_block_ok(old, 0);
        assert(new[0] == old[0]);
    }
    lemma_blocks_wf_intro(new);
}

/// Putting in a new area obtained from the OS, which shares no byte with
/// the areas of the heap, leaves sound areas.
pub proof fn lemma_region_added(v: HeapView, pos: int, area: int, total: int)
    requires
        view_wf(v),
        0 <= pos <= v.blocks.len(),
        area > 0,
        area % (PAGE_SIZE as int) == 0,
        total % (PAGE_SIZE as int) == 0,
        total >= PAGE_SIZE,
        area + total <= usize::MAX,
        forall|k: int|
            0 <= k < v.blocks.len() ==> (#[trigger] v.blocks[k]).addr + extent(v.blocks[k]) <= area
                || area + total <= v.blocks[k].addr,
        forall|k: int| 0 <= k < pos ==> (#[trigger] v.blocks[k]).addr < area,
        forall|k: int| pos <= k < v.blocks.len() ==> (#[trigger] v.blocks[k]).addr > area,
    ensures
        blocks_wf(region_added(v.blocks, pos, area, total)),
        lists_wf(region_added(v.blocks, pos, area, total), v.lists),
        sum_blocks(region_added(v.blocks, pos, area, total), true) == sum_blocks(v.blocks, true),
        sum_blocks(region_added(v.blocks, pos, area, total), false) == sum_blocks(v.blocks, false)
            + total,
        region_added(v.blocks, pos, area, total).len() == v.blocks.len() + 3,
        forall|k: int| 0 <= k < pos ==> region_added(v.blocks, pos, area, total)[k] == v.blocks[k],
        region_added(v.blocks, pos, area, total)[pos] == left_sentinel(area),
        region_added(v.blocks, pos, area, total)[pos + 1] == first_area(area, total),
        region_added(v.blocks, pos, area, total)[pos + 2] == right_sentinel(area, total),
        forall|k: int|
            pos + 3 <= k < v.blocks.len() + 3 ==> region_added(v.blocks, pos, area, total)[k]
                == v.blocks[k - 3],
        forall|c: int, cs: int|
            cached_wf(v.blocks, Some((c, cs))) && (area + total <= c || c + cs <= area) ==> #[trigger] cached_wf(
                region_added(v.blocks, pos, area, total),
                Some((c, cs)),
            ),
        cached_wf(region_added(v.blocks, pos, area, total), None),
{
    let old = v.blocks;
    let new = region_added(old, pos, area, total);
    let s1 = old.insert(pos, left_sentinel(area));
    let s2 = s1.insert(pos + 1, first_area(area, total));
    lemma_region_added_blocks(old, pos, area, total);
    lemma_sum_insert(old, pos, left_sentinel(area), true);
    lemma_sum_insert(old, pos, left_sentinel(area), false);
    lemma_sum_insert(s1, pos + 1, first_area(area, total), true);
    lemma_sum_insert(s1, pos + 1, first_area(area, total), false);
    lemma_sum_insert(s2, pos + 2, right_sentinel(area, total), true);
    lemma_sum_insert(s2, pos + 2, right_sentinel(area, total), false);
    assert(free_kept(old, new)) by {
        assert forall|k: int| 0 <= k < old.len() && (#[trigger] old[k]).free implies has_block(
            new,
            old[k].addr,
        ) && new[find_block(new, old[k].addr)].free && new[find_block(new, old[k].addr)].size
            == old[k].size by {
            let nk = if k < pos {
                k
            } else {
                k + 3
            };
            assert(new[nk] == old[k]);
            lemma_find_block(new, nk);
        }
    }
    assert(free_kept(new, old)) by {
        assert forall|k: int| 0 <= k < new.len() && (#[trigger] new[k]).free implies has_block(
            old,
            new[k].addr,
        ) && old[find_block(old, new[k].addr)].free && old[find_block(old, new[k].addr)].size
            == new[k].size by {
            let ok = if k < pos {
                k
            } else {
                k - 3
            };
            assert(old[ok] == new[k]);
            lemma_find_block(old, ok);
        }
    }
    lemma_lists_frame(old, new, v.lists);
    assert forall|c: int, cs: int|
        cached_wf(old, Some((c, cs))) && (area + total <= c || c + cs <= area) implies #[trigger] cached_wf(
        new,
        Some((c, cs)),
    ) by {
        assert forall|k: int| 0 <= k < new.len() implies (#[trigger] new[k]).addr + extent(new[k])
            <= c || c + cs <= new[k].addr by {
            if k < pos {
                assert(old[k].addr + extent(old[k]) <= c || c + cs <= old[k].addr);
            } else if k >= pos + 3 {
                assert(old[k - 3].addr + extent(old[k - 3]) <= c || c + cs <= old[k - 3].addr);
            }
        }
    }
}

/// An area in use of `size` bytes starts at `addr`.
pub open spec fn live_at(blocks: Seq<Block>, addr: int, size: int) -> bool {
    has_block(blocks, addr) && is_live(blocks, find_block(blocks, addr)) && blocks[find_block(
        blocks,
        addr,
    )].size == size
}

/// No two areas in use overlap: their bytes lie apart.
pub proof fn lemma_live_disjoint(blocks: Seq<Block>, i: int, j: int)
    requires
        blocks_wf(blocks),
        is_live(blocks, i),
        is_live(blocks, j),
        i != j,
    ensures
        blocks[i].addr + blocks[i].size <= blocks[j].addr || blocks[j].addr + blocks[j].size
            <= blocks[i].addr,
{
    if i < j {
        lemma_blocks_ordered(blocks, i, j);
    } else {
        lemma_blocks_ordered(blocks, j, i);
    }
}

/// What `take` finds: the head of the first nonempty bucket is a free
/// area that is large enough for the request.
pub proof fn lemma_take_finds(v: HeapView, request: int)
    requires
        view_wf(v),
        1 <= request <= HEAP_MAX_ALLOC_SIZE,
        has_nonempty(v.lists, spec_size_to_index_allocating(request)),
    ensures
        ({
            let start = spec_size_to_index_allocating(request);
            let bucket = first_nonempty(v.lists, start);
            let head = v.lists[bucket][0];
            let i = find_block(v.blocks, head as int);
            &&& 0 <= start <= bucket < NUMBER_OF_BUCKETS
            &&& v.lists[bucket].len() > 0
            &&& forall|c: int| start <= c < bucket ==> (#[trigger] v.lists[c]).len() == 0
            &&& 0 < i < v.blocks.len() - 1
            &&& v.blocks[i].addr == head
            &&& v.blocks[i].free
            &&& bucket_of(v.blocks[i].size) == bucket
            &&& first_index(v.lists[bucket], head) == 0
            &&& spec_rounded_size(request) + SIZE_OF_HEADER_T <= v.blocks[i].size
            &&& spec_rounded_size(request) >= 8
            &&& spec_rounded_size(request) % 8 == 0
            &&& request <= spec_rounded_size(request)
        }),
{
    reveal(lists_wf);
    let start = spec_size_to_index_allocating(request);
    lemma_allocating_bound(request);
    lemma_allocating_bucket(request);
    lemma_bucket_size_step(start);
    let w = choose|b: int| start <= b < v.lists.len() && (#[trigger] v.lists[b]).len() > 0;
    lemma_first_nonempty_exists(v.lists, start, w);
    let bucket = first_nonempty(v.lists, start);
    let head = v.lists[bucket][0];
    let i = find_block(v.blocks, head as int);
    assert(has_block(v.blocks, v.lists[bucket][0] as int));
    assert(v.blocks[i].free);
    lemma_free_block(v, i);
    lemma_bucket_of(v.blocks[i].size, request);
    lemma_first_index(v.lists[bucket], head, 0);
}

/// Among the nonempty buckets at or behind `from` there is a first.
pub proof fn lemma_first_nonempty_exists(lists: Seq<Seq<usize>>, from: int, w: int)
    requires
        from <= w < lists.len(),
        lists[w].len() > 0,
    ensures
        from <= first_nonempty(lists, from) <= w,
        lists[first_nonempty(lists, from)].len() > 0,
        forall|c: int| from <= c < first_nonempty(lists, from) ==> (#[trigger] lists[c]).len() == 0,
    decreases w - from,
{
    if exists|b: int| from <= b < w && (#[trigger] lists[b]).len() > 0 {
        let b = choose|b: int| from <= b < w && (#[trigger] lists[b]).len() > 0;
        lemma_first_nonempty_exists(lists, from, b);
    } else {
        lemma_first_nonempty(lists, from, w);
    }
}

/// Serving a request from the free lists leaves a sound heap, with the
/// area that was found in use.
pub proof fn lemma_taken_wf(v: HeapView, request: int)
    requires
        view_wf(v),
        1 <= request <= HEAP_MAX_ALLOC_SIZE,
        has_nonempty(v.lists, spec_size_to_index_allocating(request)),
    ensures
        view_wf(taken(v, request)),
        taken(v, request).cached == v.cached,
        taken(v, request).size == v.size,
        bytes_within(taken(v, request).blocks, v.blocks),
        ({
            let addr = taken_addr(v, request) - SIZE_OF_HEADER_T;
            let i = find_block(v.blocks, addr);
            &&& has_block(taken(v, request).blocks, addr)
            &&& find_block(taken(v, request).blocks, addr) == i
            &&& is_live(taken(v, request).blocks, i)
            &&& taken(v, request).blocks[i].size >= request + SIZE_OF_HEADER_T
            &&& v.blocks[i].free
            &&& v.blocks[i].addr == addr
            &&& v.blocks[i].addr + v.blocks[i].size >= addr + taken(v, request).blocks[i].size
        }),
{
    lemma_take_finds(v, request);
    let bucket = first_nonempty(v.lists, spec_size_to_index_allocating(request));
    let head = v.lists[bucket][0];
    let i = find_block(v.blocks, head as int);
    let rounded = spec_rounded_size(request) + SIZE_OF_HEADER_T;
    lemma_unlinked_wf(v, i);
    let v1 = unlinked(v, i);
    lemma_block_ok(v.blocks, i);
    if take_splits(v.blocks[i].size, request) {
        lemma_split_wf(v1, i, rounded);
        let v2 = HeapView { blocks: split_blocks(v1.blocks, i, rounded), ..v1 };
        lemma_split_blocks(v1.blocks, i, rounded);
        lemma_block_ok(v.blocks, i + 1);
        lemma_linked_wf(v2, i + 1);
        let v3 = linked(v2, i + 1);
        assert(v3.blocks[i] == with_size(with_free(v.blocks[i], false), rounded));
        lemma_find_block(v3.blocks, i);
    } else {
        lemma_find_block(v1.blocks, i);
    }
}

/// The heap after the area in use at position `i` was merged with its
/// free neighbours, and where the merged area is then.
pub open spec fn coalesced(v: HeapView, i: int) -> (HeapView, int) {
    let (v1, j) = if v.blocks[i - 1].free {
        let u = unlinked(v, i - 1);
        (HeapView { blocks: absorbed(u.blocks, i - 1), ..u }, i - 1)
    } else {
        (v, i)
    };
    if v1.blocks[j + 1].free {
        let u = unlinked(v1, j + 1);
        (HeapView { blocks: absorbed(u.blocks, j), ..u }, j)
    } else {
        (v1, j)
    }
}

/// Merging an area in use with its free neighbours leaves a sound heap
/// in which the merged area is in use and lies between areas in use.
pub proof fn lemma_coalesced_wf(v: HeapView, i: int)
    requires
        view_wf(v),
        is_live(v.blocks, i),
    ensures
        view_wf(coalesced(v, i).0),
        0 < coalesced(v, i).1 < coalesced(v, i).0.blocks.len() - 1,
        is_live(coalesced(v, i).0.blocks, coalesced(v, i).1),
        !coalesced(v, i).0.blocks[coalesced(v, i).1 - 1].free,
        !coalesced(v, i).0.blocks[coalesced(v, i).1 + 1].free,
        coalesced(v, i).0.cached == v.cached,
        coalesced(v, i).0.size == v.size,
        coalesced(v, i).0.blocks[coalesced(v, i).1].size >= v.blocks[i].size,
        bytes_within(coalesced(v, i).0.blocks, v.blocks),
{
    lemma_block_ok(v.blocks, i);
    lemma_block_ok(v.blocks, i - 1);
    lemma_block_ok(v.blocks, i + 1);
    let (v1, j) = if v.blocks[i - 1].free {
        let u = unlinked(v, i - 1);
        lemma_unlinked_wf(v, i - 1);
        lemma_absorbed_wf(u, i - 1);
        lemma_absorbed_blocks(u.blocks, i - 1);
        lemma_block_ok(v.blocks, i - 2);
        (HeapView { blocks: absorbed(u.blocks, i - 1), ..u }, i - 1)
    } else {
        (v, i)
    };
    assert(view_wf(v1));
    assert(is_live(v1.blocks, j));
    assert(0 < j < v1.blocks.len() - 1);
    assert(!v1.blocks[j - 1].free);
    assert(v1.blocks[j + 1].free == v.blocks[i + 1].free);
    lemma_block_ok(v1.blocks, j);
    lemma_block_ok(v1.blocks, j + 1);
    if v1.blocks[j + 1].free {
        let u = unlinked(v1, j + 1);
        lemma_unlinked_wf(v1, j + 1);
        lemma_absorbed_wf(u, j);
        lemma_absorbed_blocks(u.blocks, j);
        lemma_block_ok(v1.blocks, j + 2);
    }
}

/// The heap after the area in use whose bytes start at `ptr` was freed:
/// it is merged with its free neighbours; if the merged area is all there
/// is between the sentinels of an area obtained from the OS, that whole
/// area leaves the heap, to be held back for reuse if nothing is held back
/// yet, else to be returned to the OS; otherwise the merged area joins the
/// bucket of its size.
pub open spec fn released(v: HeapView, ptr: int) -> HeapView {
    let i = find_block(v.blocks, ptr - SIZE_OF_HEADER_T);
    let (v2, j) = coalesced(v, i);
    if spans_region(v2.blocks, j) {
        region_released(v2, j)
    } else {
        linked(v2, j)
    }
}

/// The heap after the whole area obtained from the OS around position `j`
/// left it: the area is held back for reuse if nothing is held back yet,
/// else it is returned to the OS.
pub open spec fn region_released(v: HeapView, j: int) -> HeapView {
    let base = v.blocks[j - 1].addr;
    let total = v.blocks[j].size + 2 * SIZE_OF_HEADER_T;
    if v.cached is None {
        HeapView { blocks: region_removed(v.blocks, j), cached: Some((base, total)), ..v }
    } else {
        HeapView { blocks: region_removed(v.blocks, j), size: v.size - total, ..v }
    }
}

/// Taking out a whole area obtained from the OS leaves a sound heap.
pub proof fn lemma_region_released_wf(v: HeapView, j: int)
    requires
        view_wf(v),
        0 < j < v.blocks.len() - 1,
        !v.blocks[j].free,
        spans_region(v.blocks, j),
    ensures
        view_wf(region_released(v, j)),
        bytes_within(region_released(v, j).blocks, v.blocks),
        0 <= region_released(v, j).size,
{
    lemma_region_removed(v, j);
    let new = region_removed(v.blocks, j);
    assert forall|x: int| #[trigger] in_heap(new, x) implies in_heap(v.blocks, x) by {
        let k = choose|k: int|
            0 <= k < new.len() && (#[trigger] new[k]).addr <= x < new[k].addr + extent(new[k]);
        let ok = if k < j - 1 {
            k
        } else {
            k + 3
        };
        assert(v.blocks[ok].addr <= x < v.blocks[ok].addr + extent(v.blocks[ok]));
    }
    lemma_view_counts(region_released(v, j));
}

/// The area that freeing the area at `ptr` returns to the OS, if it
/// returns one: where it starts and how many bytes it has.
pub open spec fn released_to_os(v: HeapView, ptr: int) -> Option<(int, int)> {
    let i = find_block(v.blocks, ptr - SIZE_OF_HEADER_T);
    let (v2, j) = coalesced(v, i);
    if spans_region(v2.blocks, j) && v2.cached is Some {
        Some((v2.blocks[j - 1].addr, v2.blocks[j].size + 2 * SIZE_OF_HEADER_T))
    } else {
        None
    }
}

/// Freeing an area in use leaves a sound heap.
pub proof fn lemma_released_wf(v: HeapView, ptr: int)
    requires
        view_wf(v),
        has_block(v.blocks, ptr - SIZE_OF_HEADER_T),
        is_live(v.blocks, find_block(v.blocks, ptr - SIZE_OF_HEADER_T)),
    ensures
        view_wf(released(v, ptr)),
        bytes_within(released(v, ptr).blocks, v.blocks),
        released_to_os(v, ptr) is None ==> released(v, ptr).size == v.size,
        released_to_os(v, ptr) is Some ==> v.cached is Some && released(v, ptr).cached == v.cached
            && released(v, ptr).size == v.size - released_to_os(v, ptr)->Some_0.1,
{
    let i = find_block(v.blocks, ptr - SIZE_OF_HEADER_T);
    lemma_coalesced_wf(v, i);
    let (v2, j) = coalesced(v, i);
    lemma_block_basic(v2.blocks, j);
    if spans_region(v2.blocks, j) {
        lemma_region_released_wf(v2, j);
    } else {
        lemma_linked_wf(v2, j);
    }
}

/// The heap after a new area of `total` bytes obtained from the OS at
/// `area` joined it, with all of it but the sentinels free. Nothing is
/// held back for reuse any more; `size` is the total obtained from the OS
/// then.
pub open spec fn grown(v: HeapView, area: int, total: int, size: int) -> HeapView {
    let pos = region_position(v.blocks, area);
    linked(
        HeapView {
            blocks: region_added(v.blocks, pos, area, total),
            cached: None,
            size,
            ..v
        },
        pos + 1,
    )
}

/// A new area obtained from the OS that shares no byte with the heap
/// leaves a sound heap, which has a free area for every request that the
/// new area has room for.
pub proof fn lemma_grown_wf(v: HeapView, area: int, total: int, size: int, pos: int)
    requires
        view_wf(v),
        area > 0,
        area % (PAGE_SIZE as int) == 0,
        total % (PAGE_SIZE as int) == 0,
        total >= PAGE_SIZE,
        area + total <= usize::MAX,
        forall|k: int|
            0 <= k < v.blocks.len() ==> (#[trigger] v.blocks[k]).addr + extent(v.blocks[k]) <= area
                || area + total <= v.blocks[k].addr,
        splits_at(v.blocks, area, pos),
        size == sum_blocks(v.blocks, false) + total,
    ensures
        region_position(v.blocks, area) == pos,
        view_wf(grown(v, area, total, size)),
        forall|request: int|
            1 <= request <= HEAP_MAX_ALLOC_SIZE && spec_rounded_size(request) + 3 * SIZE_OF_HEADER_T
                <= total ==> #[trigger] has_nonempty(
                grown(v, area, total, size).lists,
                spec_size_to_index_allocating(request),
            ),
{
    lemma_region_position(v.blocks, area, pos);
    lemma_region_added(v, pos, area, total);
    let v1 = HeapView { blocks: region_added(v.blocks, pos, area, total), cached: None, size, ..v };
    assert(view_wf(v1));
    lemma_linked_wf(v1, pos + 1);
    let g = grown(v, area, total, size);
    let m = first_area(area, total);
    lemma_bucket_of(m.size, 1);
    assert(v.lists.len() == NUMBER_OF_BUCKETS) by {
        reveal(lists_wf);
    }
    assert(v1.blocks[pos + 1] == m);
    assert(g.lists[bucket_of(m.size)] == seq![m.addr as usize] + v1.lists[bucket_of(m.size)]);
    assert(g.lists[bucket_of(m.size)].len() > 0);
    assert forall|request: int|
        1 <= request <= HEAP_MAX_ALLOC_SIZE && spec_rounded_size(request) + 3 * SIZE_OF_HEADER_T
            <= total implies #[trigger] has_nonempty(
        g.lists,
        spec_size_to_index_allocating(request),
    ) by {
        lemma_bucket_of(m.size, request);
        lemma_allocating_bound(request);
        assert(spec_size_to_index_allocating(request) <= bucket_of(m.size) < g.lists.len());
    }
}

/// The areas around a cut: the rest lies between the cut area and what
/// lay behind it, all in use.
pub proof fn lemma_split_shape(old: Seq<Block>, i: int, size: int)
    requires
        blocks_wf(old),
        0 <= i < old.len(),
        !old[i].free,
        old[i].left != 0,
        old[i].size > 0,
        !old[i + 1].free,
        size % 8 == 0,
        MIN_AREA <= size,
        old[i].size - size >= MIN_AREA,
    ensures
        0 < i + 1 < split_blocks(old, i, size).len() - 1,
        !split_blocks(old, i, size)[i + 1].free,
        split_blocks(old, i, size)[i + 1].left != 0,
        split_blocks(old, i, size)[i + 1].size == old[i].size - size,
        !split_blocks(old, i, size)[i].free,
        !split_blocks(old, i, size)[i + 2].free,
{
    lemma_split_blocks(old, i, size);
    lemma_block_ok(old, i);
}

/// After the first step of merging, the area lies between an area in use
/// and what lay behind it.
pub proof fn lemma_coalesced_step(v: HeapView, i: int)
    requires
        view_wf(v),
        is_live(v.blocks, i),
    ensures
        ({
            let (v1, j) = if v.blocks[i - 1].free {
                let u = unlinked(v, i - 1);
                (HeapView { blocks: absorbed(u.blocks, i - 1), ..u }, i - 1)
            } else {
                (v, i)
            };
            &&& view_wf(v1)
            &&& is_live(v1.blocks, j)
            &&& 0 < j < v1.blocks.len() - 1
            &&& v1.blocks[j + 1].free == v.blocks[i + 1].free
            &&& v1.blocks[j + 1].size == v.blocks[i + 1].size
            &&& v1.blocks[j + 1].size > 0 ==> j + 2 < v1.blocks.len()
        }),
{
    lemma_block_ok(v.blocks, i);
    lemma_block_ok(v.blocks, i - 1);
    lemma_block_ok(v.blocks, i + 1);
    if v.blocks[i - 1].free {
        let u = unlinked(v, i - 1);
        lemma_unlinked_wf(v, i - 1);
        lemma_absorbed_wf(u, i - 1);
        lemma_absorbed_blocks(u.blocks, i - 1);
        lemma_block_ok(v.blocks, i - 2);
    }
}

/// The two counts of a sound heap are not negative, and the free bytes
/// are among the bytes obtained from the OS.
pub proof fn lemma_view_counts(v: HeapView)
    requires
        view_wf(v),
    ensures
        0 <= v.remaining <= v.size,
        0 <= cached_size(v.cached) <= v.size,
{
    if v.blocks.len() > 0 {
        lemma_sum_bounds(v.blocks, 0);
    }
}

/// The bytes of areas are among the bytes of the same areas.
pub proof fn lemma_within_same(a: Seq<Block>)
    ensures
        bytes_within(a, a),
{
}

/// The heap without the area that is held back for reuse, which went
/// back to the OS.
pub open spec fn dropped(v: HeapView) -> HeapView {
    HeapView { cached: None, size: v.size - cached_size(v.cached), ..v }
}

/// Returning the area that is held back for reuse to the OS leaves a
/// sound heap.
pub proof fn lemma_dropped_wf(v: HeapView)
    requires
        view_wf(v),
    ensures
        view_wf(dropped(v)),
        0 <= dropped(v).size,
{
    lemma_view_counts(v);
}

/// A request can be served from the free lists: its size is in range,
/// and some bucket at or behind its own has a free area.
pub open spec fn can_take(v: HeapView, request: int) -> bool {
    1 <= request <= HEAP_MAX_ALLOC_SIZE && has_nonempty(
        v.lists,
        spec_size_to_index_allocating(request),
    )
}

/// Every area in use of `old` is an area in use of `new`, at the same
/// place and of the same size.
pub open spec fn live_kept(old: Seq<Block>, new: Seq<Block>) -> bool {
    forall|i: int|
        #![trigger old[i]]
        is_live(old, i) ==> live_at(new, old[i].addr, old[i].size)
}

/// Every area in use of `old` but the one at `addr` is an area in use of
/// `new`, at the same place and of the same size.
pub open spec fn live_kept_but(old: Seq<Block>, new: Seq<Block>, addr: int) -> bool {
    forall|i: int|
        #![trigger old[i]]
        is_live(old, i) && old[i].addr != addr ==> live_at(new, old[i].addr, old[i].size)
}

/// Keeping the areas in use is transitive.
pub proof fn lemma_live_kept_trans(a: Seq<Block>, b: Seq<Block>, c: Seq<Block>)
    requires
        live_kept(a, b),
        live_kept(b, c),
    ensures
        live_kept(a, c),
{
    assert forall|i: int| #![trigger a[i]] is_live(a, i) implies live_at(c, a[i].addr, a[i].size) by {
        let j = find_block(b, a[i].addr);
        assert(is_live(b, j) && b[j].addr == a[i].addr && b[j].size == a[i].size);
    }
}

/// Areas that keep place, size and state in a sequence in which they only
/// move keep the areas in use.
pub proof fn lemma_live_kept_shift(old: Seq<Block>, new: Seq<Block>, from: int, by: int)
    requires
        blocks_wf(new),
        forall|k: int|
            #![trigger old[k]]
            is_live(old, k) ==> {
                let nk = if k < from {
                    k
                } else {
                    k + by
                };
                0 <= nk < new.len() && new[nk].addr == old[k].addr && new[nk].size == old[k].size
                    && !new[nk].free && new[nk].left != 0
            },
    ensures
        live_kept(old, new),
{
    assert forall|k: int| #![trigger old[k]] is_live(old, k) implies live_at(
        new,
        old[k].addr,
        old[k].size,
    ) by {
        let nk = if k < from {
            k
        } else {
            k + by
        };
        lemma_find_block(new, nk);
    }
}

/// Serving a request from the free lists keeps the areas in use.
pub proof fn lemma_taken_live(v: HeapView, request: int)
    requires
        view_wf(v),
        can_take(v, request),
    ensures
        live_kept(v.blocks, taken(v, request).blocks),
{
    lemma_take_finds(v, request);
    lemma_taken_wf(v, request);
    let bucket = first_nonempty(v.lists, spec_size_to_index_allocating(request));
    let head = v.lists[bucket][0];
    let i = find_block(v.blocks, head as int);
    let rounded = spec_rounded_size(request) + SIZE_OF_HEADER_T;
    let v1 = unlinked(v, i);
    lemma_unlinked_wf(v, i);
    lemma_block_ok(v.blocks, i);
    if take_splits(v.blocks[i].size, request) {
        lemma_split_blocks(v1.blocks, i, rounded);
        lemma_live_kept_shift(v.blocks, taken(v, request).blocks, i + 1, 1);
    } else {
        lemma_live_kept_shift(v.blocks, taken(v, request).blocks, i, 0);
    }
}

/// A new area obtained from the OS keeps the areas in use.
pub proof fn lemma_grown_live(v: HeapView, area: int, total: int, size: int, pos: int)
    requires
        view_wf(v),
        view_wf(grown(v, area, total, size)),
        splits_at(v.blocks, area, pos),
    ensures
        live_kept(v.blocks, grown(v, area, total, size).blocks),
{
    lemma_region_position(v.blocks, area, pos);
    let added = region_added(v.blocks, pos, area, total);
    assert(added.len() == v.blocks.len() + 3);
    assert forall|k: int| 0 <= k < pos implies added[k] == v.blocks[k] by {}
    assert forall|k: int| pos + 3 <= k < v.blocks.len() + 3 implies added[k] == v.blocks[k - 3] by {}
    lemma_live_kept_shift(v.blocks, grown(v, area, total, size).blocks, pos, 3);
}

/// Merging an area in use with its free neighbours keeps the other areas
/// in use.
#[verifier::rlimit(100)]
#[verifier::spinoff_prover]
pub proof fn lemma_coalesced_live(v: HeapView, i: int)
    requires
        view_wf(v),
        is_live(v.blocks, i),
    ensures
        live_kept_but(v.blocks, coalesced(v, i).0.blocks, v.blocks[i].addr),
        forall|k: int|
            #![trigger coalesced(v, i).0.blocks[k]]
            is_live(coalesced(v, i).0.blocks, k) && k != coalesced(v, i).1 ==> live_at(
                v.blocks,
                coalesced(v, i).0.blocks[k].addr,
                coalesced(v, i).0.blocks[k].size,
            ),
{
    lemma_coalesced_wf(v, i);
    lemma_coalesced_step(v, i);
    lemma_block_ok(v.blocks, i);
    lemma_block_ok(v.blocks, i - 1);
    lemma_block_ok(v.blocks, i + 1);
    let lf = v.blocks[i - 1].free;
    let rf = v.blocks[i + 1].free;
    let (v1, j) = if lf {
        let u = unlinked(v, i - 1);
        lemma_unlinked_wf(v, i - 1);
        lemma_absorbed_blocks(u.blocks, i - 1);
        (HeapView { blocks: absorbed(u.blocks, i - 1), ..u }, i - 1)
    } else {
        (v, i)
    };
    let v2 = coalesced(v, i).0;
    if rf {
        let u = unlinked(v1, j + 1);
        lemma_unlinked_wf(v1, j + 1);
        lemma_absorbed_blocks(u.blocks, j);
    }
    let dl = if lf {
        1int
    } else {
        0int
    };
    let dr = if rf {
        1int
    } else {
        0int
    };
    assert forall|k: int|
        #![trigger v.blocks[k]]
        is_live(v.blocks, k) && v.blocks[k].addr != v.blocks[i].addr implies live_at(
        v2.blocks,
        v.blocks[k].addr,
        v.blocks[k].size,
    ) by {
        let nk = if k < i {
            k
        } else {
            k - dl - dr
        };
        assert(k != i);
        assert(k != i - 1 || !lf);
        assert(k != i + 1 || !rf);
        assert(v2.blocks[nk].addr == v.blocks[k].addr && v2.blocks[nk].size == v.blocks[k].size
            && !v2.blocks[nk].free && v2.blocks[nk].left != 0);
        lemma_find_block(v2.blocks, nk);
    }
    assert forall|k: int|
        #![trigger v2.blocks[k]]
        is_live(v2.blocks, k) && k != j implies live_at(
        v.blocks,
        v2.blocks[k].addr,
        v2.blocks[k].size,
    ) by {
        let ok = if k < j {
            k
        } else {
            k + dl + dr
        };
        assert(v2.blocks[k].addr == v.blocks[ok].addr && v2.blocks[k].size == v.blocks[ok].size
            && !v.blocks[ok].free && v.blocks[ok].left != 0);
        lemma_find_block(v.blocks, ok);
    }
}

/// Freeing an area keeps the other areas in use, and makes no other area
/// one in use.
pub proof fn lemma_released_live(v: HeapView, ptr: int)
    requires
        view_wf(v),
        has_block(v.blocks, ptr - SIZE_OF_HEADER_T),
        is_live(v.blocks, find_block(v.blocks, ptr - SIZE_OF_HEADER_T)),
    ensures
        live_kept_but(v.blocks, released(v, ptr).blocks, ptr - SIZE_OF_HEADER_T),
        live_kept(released(v, ptr).blocks, v.blocks),
{
    let i = find_block(v.blocks, ptr - SIZE_OF_HEADER_T);
    lemma_coalesced_wf(v, i);
    lemma_coalesced_live(v, i);
    lemma_released_wf(v, ptr);
    let (v2, j) = coalesced(v, i);
    let r = released(v, ptr);
    lemma_block_basic(v2.blocks, j);
    if spans_region(v2.blocks, j) {
        lemma_region_removed(v2, j);
        lemma_block_ok(v2.blocks, j - 1);
        lemma_block_ok(v2.blocks, j + 1);
        assert forall|k: int|
            #![trigger v.blocks[k]]
            is_live(v.blocks, k) && v.blocks[k].addr != ptr - SIZE_OF_HEADER_T implies live_at(
            r.blocks,
            v.blocks[k].addr,
            v.blocks[k].size,
        ) by {
            let m = find_block(v2.blocks, v.blocks[k].addr);
            assert(is_live(v2.blocks, m));
            if m == j {
                lemma_coalesced_addr(v, i, k);
            }
            let nm = if m < j - 1 {
                m
            } else {
                m - 3
            };
            assert(r.blocks[nm] == v2.blocks[m]);
            lemma_find_block(r.blocks, nm);
        }
        assert forall|k: int| #![trigger r.blocks[k]] is_live(r.blocks, k) implies live_at(
            v.blocks,
            r.blocks[k].addr,
            r.blocks[k].size,
        ) by {
            let m = if k < j - 1 {
                k
            } else {
                k + 3
            };
            assert(v2.blocks[m] == r.blocks[k]);
        }
    } else {
        lemma_linked_wf(v2, j);
        assert forall|k: int|
            #![trigger v.blocks[k]]
            is_live(v.blocks, k) && v.blocks[k].addr != ptr - SIZE_OF_HEADER_T implies live_at(
            r.blocks,
            v.blocks[k].addr,
            v.blocks[k].size,
        ) by {
            let m = find_block(v2.blocks, v.blocks[k].addr);
            assert(is_live(v2.blocks, m));
            if m == j {
                lemma_coalesced_addr(v, i, k);
            }
            assert(r.blocks[m] == v2.blocks[m]);
            lemma_find_block(r.blocks, m);
        }
        assert forall|k: int| #![trigger r.blocks[k]] is_live(r.blocks, k) implies live_at(
            v.blocks,
            r.blocks[k].addr,
            r.blocks[k].size,
        ) by {
            assert(k != j);
            assert(v2.blocks[k] == r.blocks[k]);
        }
    }
}

/// The merged area starts where the freed area or its free left
/// neighbour started, and no other area in use starts there.
pub proof fn lemma_coalesced_addr(v: HeapView, i: int, k: int)
    requires
        view_wf(v),
        is_live(v.blocks, i),
        is_live(v.blocks, k),
        v.blocks[k].addr == coalesced(v, i).0.blocks[coalesced(v, i).1].addr,
    ensures
        k == i,
{
    lemma_coalesced_step(v, i);
    lemma_coalesced_wf(v, i);
    lemma_block_ok(v.blocks, i);
    lemma_block_ok(v.blocks, i - 1);
    lemma_block_ok(v.blocks, i + 1);
    let lf = v.blocks[i - 1].free;
    if lf {
        let u = unlinked(v, i - 1);
        lemma_unlinked_wf(v, i - 1);
        lemma_absorbed_blocks(u.blocks, i - 1);
        let v1 = HeapView { blocks: absorbed(u.blocks, i - 1), ..u };
        if v1.blocks[i].free {
            let u2 = unlinked(v1, i);
            lemma_unlinked_wf(v1, i);
            lemma_absorbed_blocks(u2.blocks, i - 1);
        }
        assert(coalesced(v, i).0.blocks[i - 1].addr == v.blocks[i - 1].addr);
        lemma_find_block(v.blocks, i - 1);
        lemma_find_block(v.blocks, k);
    } else {
        if v.blocks[i + 1].free {
            let u2 = unlinked(v, i + 1);
            lemma_unlinked_wf(v, i + 1);
            lemma_absorbed_blocks(u2.blocks, i);
        }
        assert(coalesced(v, i).0.blocks[i].addr == v.blocks[i].addr);
        lemma_find_block(v.blocks, i);
        lemma_find_block(v.blocks, k);
    }
}

/// Sound areas keep their areas in use.
pub proof fn lemma_live_kept_same(blocks: Seq<Block>)
    requires
        blocks_wf(blocks),
    ensures
        live_kept(blocks, blocks),
{
    assert forall|i: int| #![trigger blocks[i]] is_live(blocks, i) implies live_at(
        blocks,
        blocks[i].addr,
        blocks[i].size,
    ) by {
        lemma_find_block(blocks, i);
    }
}

/// A new area obtained from the OS that shares no byte with a sound heap
/// keeps the areas in use, wherever it goes.
pub proof fn lemma_grown_live_any(v: HeapView, area: int, total: int, size: int)
    requires
        view_wf(v),
        view_wf(grown(v, area, total, size)),
        splits_at(v.blocks, area, region_position(v.blocks, area)),
    ensures
        live_kept(v.blocks, grown(v, area, total, size).blocks),
{
    lemma_grown_live(v, area, total, size, region_position(v.blocks, area));
}

/// The heap that has its free lists, all of them empty, and no memory
/// yet.
pub open spec fn fresh_view() -> HeapView {
    HeapView {
        blocks: Seq::empty(),
        lists: Seq::new(NUMBER_OF_BUCKETS as nat, |b: int| Seq::<usize>::empty()),
        cached: None,
        size: 0,
        remaining: 0,
    }
}

/// The heap after it got its first area from the OS, which starts at
/// `area`.
pub open spec fn first_view(area: int) -> HeapView {
    grown(fresh_view(), area, HEAP_GROW_SIZE as int, HEAP_GROW_SIZE as int)
}

/// In the heap that has only its first area, every request that the
/// free lists can serve is served from the start of the one free area,
/// behind the left sentinel.
pub proof fn lemma_first_view(area: int, request: int)
    requires
        0 <= area,
        area + HEAP_GROW_SIZE <= usize::MAX,
        can_take(first_view(area), request),
    ensures
        taken_addr(first_view(area), request) == area + 2 * SIZE_OF_HEADER_T,
{
    let fresh = fresh_view();
    let v = first_view(area);
    lemma_region_position(fresh.blocks, area, 0);
    let added = region_added(fresh.blocks, 0, area, HEAP_GROW_SIZE as int);
    let free = added[1];
    let bucket = bucket_of(free.size);
    lemma_bucket_of(free.size, request);
    let from = spec_size_to_index_allocating(request);
    lemma_allocating_bound(request);
    let held = seq![free.addr as usize] + fresh.lists[bucket];
    assert(v.lists == fresh.lists.update(bucket, held));
    assert forall|c: int| 0 <= c < v.lists.len() && c != bucket implies (
    #[trigger] v.lists[c]).len() == 0 by {
        assert(v.lists[c] == fresh.lists[c]);
    }
    let b = choose|b: int| from <= b < v.lists.len() && (#[trigger] v.lists[b]).len() > 0;
    assert(b == bucket);
    lemma_first_nonempty(v.lists, from, bucket);
    assert(v.lists[bucket][0] == held[0]);
}

/// In the heap that has only its first area, the free area that serves
/// a request is all there is in its area obtained from the OS; when the
/// allocation is freed at once, the whole area is held back, and no free
/// area is left.
pub proof fn lemma_first_released(area: int, request: int)
    requires
        0 <= area,
        area + HEAP_GROW_SIZE <= usize::MAX,
        view_wf(first_view(area)),
        can_take(first_view(area), request),
    ensures
        ({
            let v = first_view(area);
            let p = taken_addr(v, request);
            let w = released(taken(v, request), p);
            &&& p == area + 2 * SIZE_OF_HEADER_T
            &&& v.cached is None
            &&& spans_region(v.blocks, find_block(v.blocks, p - SIZE_OF_HEADER_T))
            &&& w.cached == Some((area, HEAP_GROW_SIZE as int))
            &&& w.size == HEAP_GROW_SIZE
            &&& !has_nonempty(w.lists, spec_size_to_index_allocating(request))
            &&& spec_rounded_size(request) + SIZE_OF_HEADER_T <= HEAP_GROW_SIZE - 2
                * SIZE_OF_HEADER_T
        }),
{
    let fresh = fresh_view();
    let v = first_view(area);
    lemma_first_view(area, request);
    lemma_region_position(fresh.blocks, area, 0);
    let added = region_added(fresh.blocks, 0, area, HEAP_GROW_SIZE as int);
    let free = added[1];
    let bucket = bucket_of(free.size);
    lemma_bucket_of(free.size, request);
    lemma_allocating_bound(request);
    let held = seq![free.addr as usize] + fresh.lists[bucket];
    assert(v.lists == fresh.lists.update(bucket, held));
    assert(v.blocks.len() == 3);
    assert(v.blocks[1].addr == area + SIZE_OF_HEADER_T);
    lemma_find_block(v.blocks, 1);
    let p = taken_addr(v, request);
    assert(find_block(v.blocks, p - SIZE_OF_HEADER_T) == 1);
    assert(spans_region(v.blocks, 1));
    // The request is served from the bucket of the one free area.
    let from = spec_size_to_index_allocating(request);
    let b = choose|b: int| from <= b < v.lists.len() && (#[trigger] v.lists[b]).len() > 0;
    assert(b == bucket) by {
        if b != bucket {
            assert(v.lists[b] == fresh.lists[b]);
        }
    }
    lemma_free_coalesces(v, request);
    let v1 = unlinked(v, 1);
    let w = released(taken(v, request), p);
    assert(w == region_released(v1, 1));
    lemma_first_index(held, free.addr as usize, 0);
    assert(held.remove(0) =~= Seq::<usize>::empty());
    assert forall|c: int| 0 <= c < w.lists.len() implies (#[trigger] w.lists[c]).len() == 0 by {
        if c != bucket {
            assert(w.lists[c] == fresh.lists[c]);
        }
    }
}

/// The first area obtained from the OS makes a heap of three areas, the
/// one between the sentinels free.
pub proof fn lemma_first_region(v: HeapView, area: int, total: int)
    requires
        v.blocks.len() == 0,
        region_position(v.blocks, area) == 0,
    ensures
        grown(v, area, total, v.size + total).blocks.len() == 3,
        grown(v, area, total, v.size + total).blocks[0].addr == area,
        grown(v, area, total, v.size + total).blocks[1].free,
        grown(v, area, total, v.size + total).remaining == v.remaining + total - 2
            * SIZE_OF_HEADER_T,
        grown(v, area, total, v.size + total).size == v.size + total,
{
}

/// The area that `take` hands out was not in use before, nor in the heap
/// from which the heap that served the request was grown.
pub proof fn lemma_taken_fresh(v0: HeapView, g: HeapView, request: int)
    requires
        view_wf(v0),
        view_wf(g),
        can_take(g, request),
        live_kept(v0.blocks, g.blocks),
    ensures
        !(has_block(v0.blocks, taken_addr(g, request) - SIZE_OF_HEADER_T) && is_live(
            v0.blocks,
            find_block(v0.blocks, taken_addr(g, request) - SIZE_OF_HEADER_T),
        )),
{
    lemma_take_finds(g, request);
    let addr = taken_addr(g, request) - SIZE_OF_HEADER_T;
    let i = find_block(g.blocks, addr);
    if has_block(v0.blocks, addr) && is_live(v0.blocks, find_block(v0.blocks, addr)) {
        let k = find_block(v0.blocks, addr);
        assert(live_at(g.blocks, v0.blocks[k].addr, v0.blocks[k].size));
    }
}

/// After an area was freed, no area in use starts where it started.
pub proof fn lemma_released_gone(v: HeapView, ptr: int)
    requires
        view_wf(v),
        has_block(v.blocks, ptr - SIZE_OF_HEADER_T),
        is_live(v.blocks, find_block(v.blocks, ptr - SIZE_OF_HEADER_T)),
    ensures
        !(has_block(released(v, ptr).blocks, ptr - SIZE_OF_HEADER_T) && is_live(
            released(v, ptr).blocks,
            find_block(released(v, ptr).blocks, ptr - SIZE_OF_HEADER_T),
        )),
{
    lemma_released_live(v, ptr);
    lemma_released_wf(v, ptr);
    let r = released(v, ptr);
    let addr = ptr - SIZE_OF_HEADER_T;
    let i = find_block(v.blocks, addr);
    if has_block(r.blocks, addr) && is_live(r.blocks, find_block(r.blocks, addr)) {
        let k = find_block(r.blocks, addr);
        assert(live_at(v.blocks, r.blocks[k].addr, r.blocks[k].size));
        // The area is in use in both heaps with the same size; but freeing
        // either merged it, took it out, or marked it free.
        lemma_coalesced_wf(v, i);
        lemma_coalesced_live(v, i);
        let (v2, j) = coalesced(v, i);
        lemma_block_basic(v2.blocks, j);
        lemma_coalesced_start(v, i);
        if spans_region(v2.blocks, j) {
            lemma_region_removed(v2, j);
            let m = if k < j - 1 {
                k
            } else {
                k + 3
            };
            assert(v2.blocks[m] == r.blocks[k]);
            lemma_find_block(v2.blocks, m);
            lemma_find_block(v2.blocks, j);
            lemma_blocks_order_total(v2.blocks, m, j, v.blocks[i].addr);
        } else {
            lemma_linked_wf(v2, j);
            assert(r.blocks[k].addr == v2.blocks[k].addr);
            lemma_blocks_order_total(v2.blocks, k, j, v.blocks[i].addr);
        }
    }
}

/// An area that starts inside another area is that area.
pub proof fn lemma_blocks_order_total(blocks: Seq<Block>, m: int, j: int, addr: int)
    requires
        blocks_wf(blocks),
        0 <= m < blocks.len(),
        0 <= j < blocks.len(),
        blocks[m].addr == addr,
        blocks[j].addr <= addr < blocks[j].addr + extent(blocks[j]),
    ensures
        m == j,
{
    lemma_block_basic(blocks, m);
    lemma_blocks_disjoint(blocks, m, j, addr);
}

/// The merged area holds the byte at which the freed area started.
pub proof fn lemma_coalesced_start(v: HeapView, i: int)
    requires
        view_wf(v),
        is_live(v.blocks, i),
    ensures
        coalesced(v, i).0.blocks[coalesced(v, i).1].addr <= v.blocks[i].addr < coalesced(
            v,
            i,
        ).0.blocks[coalesced(v, i).1].addr + coalesced(v, i).0.blocks[coalesced(v, i).1].size,
{
    lemma_coalesced_step(v, i);
    lemma_coalesced_wf(v, i);
    lemma_block_ok(v.blocks, i);
    lemma_block_ok(v.blocks, i - 1);
    lemma_block_ok(v.blocks, i + 1);
    let lf = v.blocks[i - 1].free;
    if lf {
        let u = unlinked(v, i - 1);
        lemma_unlinked_wf(v, i - 1);
        lemma_absorbed_blocks(u.blocks, i - 1);
        let v1 = HeapView { blocks: absorbed(u.blocks, i - 1), ..u };
        if v1.blocks[i].free {
            let u2 = unlinked(v1, i);
            lemma_unlinked_wf(v1, i);
            lemma_absorbed_blocks(u2.blocks, i - 1);
        }
    } else {
        if v.blocks[i + 1].free {
            let u2 = unlinked(v, i + 1);
            lemma_unlinked_wf(v, i + 1);
            lemma_absorbed_blocks(u2.blocks, i);
        }
    }
}

/// Putting back on its list a free area that was taken from the head of
/// the list restores the heap.
proof fn lemma_relink_restores(v: HeapView, i: int)
    requires
        view_wf(v),
        0 <= i < v.blocks.len(),
        v.blocks[i].free,
        v.lists[bucket_of(v.blocks[i].size)].len() > 0,
        v.lists[bucket_of(v.blocks[i].size)][0] == v.blocks[i].addr,
    ensures
        linked(unlinked(v, i), i) == v,
{
    lemma_free_block(v, i);
    lemma_block_basic(v.blocks, i);
    let b = v.blocks[i];
    let bucket = bucket_of(b.size);
    let ol = v.lists[bucket];
    lemma_first_index(ol, b.addr as usize, 0);
    assert(seq![b.addr as usize] + ol.remove(0) =~= ol);
    let u = unlinked(v, i);
    assert(u.blocks[i] == with_free(b, false));
    assert(linked(u, i).blocks =~= v.blocks);
    assert(linked(u, i).lists =~= v.lists);
}

/// Taking an area off its list right after it was put there undoes
/// that.
pub proof fn lemma_unlink_undoes_link(v: HeapView, k: int)
    requires
        0 <= k < v.blocks.len(),
        !v.blocks[k].free,
        0 <= bucket_of(v.blocks[k].size) < v.lists.len(),
        0 < v.blocks[k].addr <= usize::MAX,
    ensures
        unlinked(linked(v, k), k) == v,
{
    let b = v.blocks[k];
    let bucket = bucket_of(b.size);
    let l = linked(v, k);
    let nl = seq![b.addr as usize] + v.lists[bucket];
    assert(l.lists[bucket] == nl);
    lemma_first_index(nl, b.addr as usize, 0);
    assert(nl.remove(0) =~= v.lists[bucket]);
    assert(l.blocks[k] == with_free(b, true));
    assert(first_index(l.lists[bucket], b.addr as usize) == 0);
    assert(unlinked(l, k).blocks =~= v.blocks);
    let ul = unlinked(l, k).lists;
    assert(ul == l.lists.update(bucket, nl.remove(0)));
    assert forall|c: int| 0 <= c < v.lists.len() implies ul[c] == v.lists[c] by {
        if c != bucket {
            assert(l.lists[c] == v.lists[c]);
        }
    }
    assert(ul =~= v.lists);
}

/// An area taking in the rest that was just cut off it undoes the cut.
pub proof fn lemma_absorb_undoes_split_blocks(blocks: Seq<Block>, i: int, rounded: int)
    requires
        0 <= i,
        i + 1 < blocks.len(),
        blocks[i + 1].left == blocks[i].addr,
        !blocks[i].free,
    ensures
        absorbed(split_blocks(blocks, i, rounded), i) == blocks,
{
    let sp = split_blocks(blocks, i, rounded);
    assert(sp.len() == blocks.len() + 1);
    assert(sp[i] == with_size(blocks[i], rounded));
    assert(sp[i + 2] == with_left(blocks[i + 1], blocks[i].addr + rounded));
    assert(absorbed(sp, i) =~= blocks);
}

/// Merging an area with the rest that was just cut off it, and that heads
/// the list of its bucket, undoes the cut.
proof fn lemma_absorb_undoes_split(v1: HeapView, i: int, rounded: int)
    requires
        view_wf(v1),
        0 < i < v1.blocks.len() - 1,
        !v1.blocks[i].free,
        v1.blocks[i].left != 0,
        !v1.blocks[i - 1].free,
        !v1.blocks[i + 1].free,
        rounded % 8 == 0,
        MIN_AREA <= rounded,
        v1.blocks[i].size - rounded >= MIN_AREA,
    ensures
        ({
            let t = linked(HeapView { blocks: split_blocks(v1.blocks, i, rounded), ..v1 }, i + 1);
            coalesced(t, i) == (v1, i)
        }),
{
    let v2 = HeapView { blocks: split_blocks(v1.blocks, i, rounded), ..v1 };
    let t = linked(v2, i + 1);
    assert(v2.blocks.len() == v1.blocks.len() + 1 && !v2.blocks[i + 1].free && v2.blocks[i + 1].size
        >= MIN_AREA && 0 < v2.blocks[i + 1].addr <= usize::MAX && v2.blocks[i - 1]
        == v1.blocks[i - 1] && v1.blocks[i + 1].left == v1.blocks[i].addr) by {
        lemma_block_ok(v1.blocks, i);
        lemma_block_ok(v1.blocks, i + 1);
        lemma_split_blocks(v1.blocks, i, rounded);
    }
    assert(0 <= bucket_of(v2.blocks[i + 1].size) < v2.lists.len()) by {
        lemma_bucket_of(v2.blocks[i + 1].size, 1);
        reveal(lists_wf);
    }
    lemma_unlink_undoes_link(v2, i + 1);
    lemma_absorb_undoes_split_blocks(v1.blocks, i, rounded);
    assert(t.blocks[i - 1] == v2.blocks[i - 1]);
    assert(t.blocks[i + 1].free);
    assert(!t.blocks[i - 1].free);
    let u = unlinked(t, i + 1);
    assert(u == v2);
    assert((HeapView { blocks: absorbed(u.blocks, i), ..u }) == v1);
}

/// Merging the area that served a request with its neighbours gives the
/// heap from before the request with the free area that served it in
/// use.
proof fn lemma_free_coalesces(v: HeapView, request: int)
    requires
        view_wf(v),
        can_take(v, request),
    ensures
        ({
            let p = taken_addr(v, request);
            let i = find_block(v.blocks, p - SIZE_OF_HEADER_T);
            let t = taken(v, request);
            &&& 0 < i < v.blocks.len() - 1
            &&& v.blocks[i].free
            &&& find_block(t.blocks, p - SIZE_OF_HEADER_T) == i
            &&& coalesced(t, i) == (unlinked(v, i), i)
            &&& view_wf(unlinked(v, i))
            &&& linked(unlinked(v, i), i) == v
            &&& spans_region(unlinked(v, i).blocks, i) == spans_region(v.blocks, i)
            &&& unlinked(v, i).blocks[i] == with_free(v.blocks[i], false)
            &&& unlinked(v, i).blocks[i - 1] == v.blocks[i - 1]
            &&& unlinked(v, i).cached == v.cached
            &&& unlinked(v, i).size == v.size
        }),
{
    lemma_take_finds(v, request);
    lemma_taken_wf(v, request);
    let bucket = first_nonempty(v.lists, spec_size_to_index_allocating(request));
    let head = v.lists[bucket][0];
    let i = find_block(v.blocks, head as int);
    let rounded = spec_rounded_size(request) + SIZE_OF_HEADER_T;
    let v1 = unlinked(v, i);
    lemma_unlinked_wf(v, i);
    lemma_block_ok(v.blocks, i);
    lemma_free_block(v, i);
    lemma_relink_restores(v, i);
    assert(v1.blocks[i] == with_free(v.blocks[i], false));
    assert(v1.blocks[i - 1] == v.blocks[i - 1]);
    assert(v1.blocks[i + 1] == v.blocks[i + 1]);
    let t = taken(v, request);
    assert(find_block(t.blocks, taken_addr(v, request) - SIZE_OF_HEADER_T) == i);
    if take_splits(v.blocks[i].size, request) {
        lemma_absorb_undoes_split(v1, i, rounded);
        assert(coalesced(t, i) == (v1, i));
    } else {
        assert(coalesced(t, i) == (v1, i));
    }
}

/// The areas without a whole area obtained from the OS, with that area
/// put in again, are the areas from before.
proof fn lemma_region_back(blocks: Seq<Block>, i: int)
    requires
        blocks_wf(blocks),
        0 < i < blocks.len() - 1,
        !blocks[i].free,
        blocks[i].left != 0,
        spans_region(blocks, i),
    ensures
        ({
            let base = blocks[i - 1].addr;
            let total = blocks[i].size + 2 * SIZE_OF_HEADER_T;
            let rr = region_removed(blocks, i);
            &&& region_position(rr, base) == i - 1
            &&& region_added(rr, i - 1, base, total) == blocks
        }),
{
    let base = blocks[i - 1].addr;
    let total = blocks[i].size + 2 * SIZE_OF_HEADER_T;
    let rr = region_removed(blocks, i);
    lemma_block_ok(blocks, i - 1);
    lemma_block_ok(blocks, i);
    lemma_block_ok(blocks, i + 1);
    assert(rr.len() == blocks.len() - 3);
    assert forall|k: int| 0 <= k < rr.len() implies rr[k] == (if k < i - 1 {
        blocks[k]
    } else {
        blocks[k + 3]
    }) by {}
    assert forall|k: int| 0 <= k < i - 1 implies (#[trigger] rr[k]).addr < base by {
        lemma_blocks_ordered(blocks, k, i - 1);
    }
    assert forall|k: int| i - 1 <= k < rr.len() implies (#[trigger] rr[k]).addr > base by {
        lemma_blocks_ordered(blocks, i - 1, k + 3);
    }
    lemma_region_position(rr, base, i - 1);
    let added = region_added(rr, i - 1, base, total);
    assert(added.len() == blocks.len());
    assert forall|k: int| 0 <= k < added.len() implies added[k] == blocks[k] by {
        if k == i - 1 {
            assert(added[k] == left_sentinel(base));
        } else if k == i {
            assert(added[k] == first_area(base, total));
        } else if k == i + 1 {
            assert(added[k] == right_sentinel(base, total));
        } else if k < i - 1 {
            assert(added[k] == rr[k]);
        } else {
            assert(added[k] == rr[k - 3]);
        }
    }
    assert(added =~= blocks);
}

/// Freeing what was just allocated, when the free area that served the
/// request was all there is between the sentinels of an area obtained
/// from the OS and nothing is held back: the whole area leaves the heap
/// and is held back, and the heap that takes it in again is the heap
/// from before the allocation. So the same request, when it is served
/// from the area that is held back, is served from the same bytes.
pub proof fn lemma_free_holds_back(v: HeapView, request: int)
    requires
        view_wf(v),
        can_take(v, request),
        v.cached is None,
        spans_region(v.blocks, find_block(v.blocks, taken_addr(v, request) - SIZE_OF_HEADER_T)),
    ensures
        ({
            let p = taken_addr(v, request);
            let i = find_block(v.blocks, p - SIZE_OF_HEADER_T);
            let base = v.blocks[i - 1].addr;
            let total = v.blocks[i].size + 2 * SIZE_OF_HEADER_T;
            let w = released(taken(v, request), p);
            &&& w.cached == Some((base, total))
            &&& w.size == v.size
            &&& grown(dropped(w), base, total, dropped(w).size + total) == v
            &&& taken_addr(grown(dropped(w), base, total, dropped(w).size + total), request) == p
        }),
{
    lemma_free_coalesces(v, request);
    let p = taken_addr(v, request);
    let i = find_block(v.blocks, p - SIZE_OF_HEADER_T);
    let v1 = unlinked(v, i);
    let base = v.blocks[i - 1].addr;
    let total = v.blocks[i].size + 2 * SIZE_OF_HEADER_T;
    let w = released(taken(v, request), p);
    assert(w == region_released(v1, i));
    lemma_block_ok(v.blocks, i);
    lemma_region_back(v1.blocks, i);
    let x = dropped(w);
    let again = HeapView {
        blocks: region_added(x.blocks, i - 1, base, total),
        cached: None,
        size: x.size + total,
        ..x
    };
    assert(again == v1);
}

/// Freeing an area in use that has an area in use behind it returns
/// nothing to the OS: the merged area is not all there is between the
/// sentinels.
pub proof fn lemma_front_stays(v: HeapView, i: int)
    requires
        view_wf(v),
        is_live(v.blocks, i),
        is_live(v.blocks, i + 1),
    ensures
        released_to_os(v, v.blocks[i].addr + SIZE_OF_HEADER_T) is None,
{
    lemma_find_block(v.blocks, i);
    lemma_block_ok(v.blocks, i);
    lemma_block_ok(v.blocks, i + 1);
    lemma_block_ok(v.blocks, i - 1);
    let (c, j) = coalesced(v, i);
    assert(!v.blocks[i + 1].free);
    if v.blocks[i - 1].free {
        let u = unlinked(v, i - 1);
        let merged = absorbed(u.blocks, i - 1);
        assert(merged[i] == with_left(u.blocks[i + 1], u.blocks[i - 1].addr));
        assert(c.blocks[j + 1].size == v.blocks[i + 1].size);
    } else {
        assert(c.blocks[j + 1] == v.blocks[i + 1]);
    }
    assert(c.blocks[j + 1].size > 0);
}

/// Freeing what was just allocated restores the heap: when a request is
/// served from the free lists and the allocation is freed at once, the
/// heap is what it was, unless the free area that served the request was
/// all there is between the sentinels of an area obtained from the OS, in
/// which case that whole area leaves the heap. So the same request
/// following at once is served from the same bytes.
pub proof fn lemma_free_restores(v: HeapView, request: int)
    requires
        view_wf(v),
        can_take(v, request),
        !spans_region(v.blocks, find_block(v.blocks, taken_addr(v, request) - SIZE_OF_HEADER_T)),
    ensures
        released(taken(v, request), taken_addr(v, request)) == v,
        taken_addr(released(taken(v, request), taken_addr(v, request)), request) == taken_addr(
            v,
            request,
        ),
        taken(released(taken(v, request), taken_addr(v, request)), request) == taken(v, request),
{
    lemma_free_coalesces(v, request);
}

/// Cutting an area in use in two keeps the other areas in use, and makes
/// the two parts areas in use.
pub proof fn lemma_split_live(v: HeapView, i: int, size: int)
    requires
        view_wf(v),
        is_live(v.blocks, i),
        size % 8 == 0,
        MIN_AREA <= size,
        v.blocks[i].size - size >= MIN_AREA,
    ensures
        live_kept_but(v.blocks, split_blocks(v.blocks, i, size), v.blocks[i].addr),
        live_at(split_blocks(v.blocks, i, size), v.blocks[i].addr, size),
        live_at(split_blocks(v.blocks, i, size), v.blocks[i].addr + size, v.blocks[i].size - size),
        find_block(split_blocks(v.blocks, i, size), v.blocks[i].addr) == i,
        forall|k: int|
            #![trigger split_blocks(v.blocks, i, size)[k]]
            is_live(split_blocks(v.blocks, i, size), k) && k != i && k != i + 1 ==> live_at(
                v.blocks,
                split_blocks(v.blocks, i, size)[k].addr,
                split_blocks(v.blocks, i, size)[k].size,
            ),
{
    lemma_split_wf(v, i, size);
    lemma_split_blocks(v.blocks, i, size);
    lemma_block_ok(v.blocks, i);
    lemma_block_ok(v.blocks, i + 1);
    let new = split_blocks(v.blocks, i, size);
    assert forall|k: int|
        #![trigger v.blocks[k]]
        is_live(v.blocks, k) && v.blocks[k].addr != v.blocks[i].addr implies live_at(
        new,
        v.blocks[k].addr,
        v.blocks[k].size,
    ) by {
        let nk = if k < i {
            k
        } else {
            k + 1
        };
        assert(k != i);
        lemma_find_block(new, nk);
    }
    lemma_find_block(new, i);
    lemma_find_block(new, i + 1);
    assert forall|k: int|
        #![trigger new[k]]
        is_live(new, k) && k != i && k != i + 1 implies live_at(v.blocks, new[k].addr, new[k].size) by {
        let ok = if k < i {
            k
        } else {
            k - 1
        };
        assert(new[k].addr == v.blocks[ok].addr && new[k].size == v.blocks[ok].size);
        lemma_find_block(v.blocks, ok);
    }
}

/// A multiple of a multiple of 8 is a multiple of 8.
pub proof fn lemma_multiple_of_8(x: int, align: int)
    requires
        0 <= x,
        0 < align,
        align % 8 == 0,
        x % align == 0,
    ensures
        x % 8 == 0,
{
    vstd::arithmetic::div_mod::lemma_fundamental_div_mod(x, align);
    vstd::arithmetic::div_mod::lemma_fundamental_div_mod(align, 8);
    let q1 = x / align;
    let q2 = align / 8;
    assert(x == 8 * (q2 * q1)) by (nonlinear_arith)
        requires
            x == align * q1,
            align == 8 * q2,
    ;
    vstd::arithmetic::div_mod::lemma_mod_multiples_basic(q2 * q1, 8);
    assert(8 * (q2 * q1) == (q2 * q1) * 8) by (nonlinear_arith);
}

/// Areas kept in use by one step, and but for one by the next, are kept
/// in use but for that one, when that one was not in use at first.
pub proof fn lemma_live_kept_but_trans(a: Seq<Block>, b: Seq<Block>, c: Seq<Block>, addr: int)
    requires
        blocks_wf(a),
        live_kept(a, b),
        live_kept_but(b, c, addr),
        !(has_block(a, addr) && is_live(a, find_block(a, addr))),
    ensures
        live_kept(a, c),
{
    assert forall|i: int| #![trigger a[i]] is_live(a, i) implies live_at(c, a[i].addr, a[i].size) by {
        lemma_find_block(a, i);
        let j = find_block(b, a[i].addr);
        assert(is_live(b, j) && b[j].addr == a[i].addr && b[j].size == a[i].size);
    }
}

/// What cutting off the front of an area in use and freeing it leaves:
/// the other areas that were in use are in use, and so is what is left of
/// the area.
pub proof fn lemma_carved_live(v1: HeapView, v2: HeapView, v3: HeapView, addr: int, cut: int)
    requires
        view_wf(v1),
        view_wf(v2),
        view_wf(v3),
        has_block(v1.blocks, addr),
        is_live(v1.blocks, find_block(v1.blocks, addr)),
        live_kept_but(v1.blocks, v2.blocks, addr),
        live_at(v2.blocks, addr + cut, v1.blocks[find_block(v1.blocks, addr)].size - cut),
        live_kept_but(v2.blocks, v3.blocks, addr),
        cut > 0,
    ensures
        live_kept_but(v1.blocks, v3.blocks, addr),
        live_at(v3.blocks, addr + cut, v1.blocks[find_block(v1.blocks, addr)].size - cut),
{
    assert forall|k: int|
        #![trigger v1.blocks[k]]
        is_live(v1.blocks, k) && v1.blocks[k].addr != addr implies live_at(
        v3.blocks,
        v1.blocks[k].addr,
        v1.blocks[k].size,
    ) by {
        let a = v1.blocks[k].addr;
        let n = find_block(v2.blocks, a);
        assert(is_live(v2.blocks, n) && v2.blocks[n].addr == a);
    }
    let n = find_block(v2.blocks, addr + cut);
    assert(is_live(v2.blocks, n) && v2.blocks[n].addr == addr + cut);
}

/// What freeing the area at position `i` makes of a heap in which the
/// neighbours of the area are in use: the area joins its bucket, or the
/// whole area obtained from the OS leaves the heap.
pub open spec fn finished(v: HeapView, j: int) -> HeapView {
    if spans_region(v.blocks, j) {
        region_released(v, j)
    } else {
        linked(v, j)
    }
}

/// Freeing an area is merging it with its free neighbours and finishing.
pub proof fn lemma_released_is_finished(v: HeapView, i: int)
    requires
        view_wf(v),
        is_live(v.blocks, i),
    ensures
        released(v, v.blocks[i].addr + SIZE_OF_HEADER_T) == finished(
            coalesced(v, i).0,
            coalesced(v, i).1,
        ),
{
    lemma_find_block(v.blocks, i);
}

/// The heap after the two areas in use at positions `i` and `i + 1` were
/// merged with each other and with their free neighbours, and where the
/// merged area is then.
pub open spec fn coalesced_pair(v: HeapView, i: int) -> (HeapView, int) {
    let (c1, j) = if v.blocks[i - 1].free {
        let u = unlinked(v, i - 1);
        (HeapView { blocks: absorbed(u.blocks, i - 1), ..u }, i - 1)
    } else {
        (v, i)
    };
    let c2 = HeapView { blocks: absorbed(c1.blocks, j), ..c1 };
    if c2.blocks[j + 1].free {
        let u = unlinked(c2, j + 1);
        (HeapView { blocks: absorbed(u.blocks, j), ..u }, j)
    } else {
        (c2, j)
    }
}

/// Freeing the first of two neighbouring areas in use and then the second
/// merges the two with each other and with their free neighbours.
pub proof fn lemma_free_first_then_second(v: HeapView, i: int)
    requires
        view_wf(v),
        is_live(v.blocks, i),
        is_live(v.blocks, i + 1),
    ensures
        released(
            released(v, v.blocks[i].addr + SIZE_OF_HEADER_T),
            v.blocks[i + 1].addr + SIZE_OF_HEADER_T,
        ) == finished(coalesced_pair(v, i).0, coalesced_pair(v, i).1),
{
    let pa = v.blocks[i].addr + SIZE_OF_HEADER_T;
    let pb = v.blocks[i + 1].addr + SIZE_OF_HEADER_T;
    lemma_released_is_finished(v, i);
    lemma_coalesced_wf(v, i);
    lemma_coalesced_step(v, i);
    lemma_block_ok(v.blocks, i);
    lemma_block_ok(v.blocks, i + 1);
    lemma_block_ok(v.blocks, i - 1);
    let (c1, j) = if v.blocks[i - 1].free {
        let u = unlinked(v, i - 1);
        lemma_unlinked_wf(v, i - 1);
        lemma_absorbed_blocks(u.blocks, i - 1);
        (HeapView { blocks: absorbed(u.blocks, i - 1), ..u }, i - 1)
    } else {
        (v, i)
    };
    // The second area is in use, so that merging stops in front of it.
    assert(c1.blocks[j + 1].addr == v.blocks[i + 1].addr && !c1.blocks[j + 1].free
        && c1.blocks[j + 1].size == v.blocks[i + 1].size && c1.blocks[j + 1].left != 0);
    assert(coalesced(v, i) == (c1, j));
    lemma_block_ok(c1.blocks, j);
    lemma_block_ok(c1.blocks, j + 1);
    assert(!spans_region(c1.blocks, j));
    let r1 = linked(c1, j);
    assert(released(v, pa) == r1);
    lemma_block_basic(c1.blocks, j);
    lemma_linked_wf(c1, j);
    // Now the second area: its left neighbour is the area just freed.
    assert(r1.blocks[j + 1] == c1.blocks[j + 1]);
    lemma_find_block(r1.blocks, j + 1);
    assert(is_live(r1.blocks, j + 1));
    lemma_released_is_finished(r1, j + 1);
    assert(r1.blocks[j].free);
    assert(0 <= bucket_of(c1.blocks[j].size) < c1.lists.len()) by {
        reveal(lists_wf);
    }
    lemma_unlink_undoes_link(c1, j);
    assert(unlinked(r1, j) == c1);
    assert(coalesced(r1, j + 1) == coalesced_pair(v, i));
}

/// The lists with the first occurrence of `x` taken off list `b`.
pub open spec fn lists_without(lists: Seq<Seq<usize>>, b: int, x: usize) -> Seq<Seq<usize>> {
    lists.update(b, lists[b].remove(first_index(lists[b], x)))
}

/// The lists with `x` put at the head of list `b`.
pub open spec fn lists_with(lists: Seq<Seq<usize>>, b: int, x: usize) -> Seq<Seq<usize>> {
    lists.update(b, seq![x] + lists[b])
}

/// Where the first occurrence of `y` lies after `x` was put in front.
proof fn lemma_first_index_pushed(s: Seq<usize>, x: usize, y: usize)
    requires
        x != y,
        s.contains(y),
    ensures
        first_index(seq![x] + s, y) == first_index(s, y) + 1,
        0 <= first_index(s, y) < s.len(),
{
    let w = choose|k: int| 0 <= k < s.len() && s[k] == y;
    lemma_first_occurrence(s, y, w);
    let iy = first_index(s, y);
    let t = seq![x] + s;
    assert(t[iy + 1] == y);
    assert forall|k: int| 0 <= k < iy + 1 implies t[k] != y by {
        if k > 0 {
            assert(t[k] == s[k - 1]);
        }
    }
    lemma_first_index(t, y, iy + 1);
}

/// Where the first occurrence of `y` lies after the first occurrence of
/// `x` was taken out.
proof fn lemma_first_index_removed(s: Seq<usize>, x: usize, y: usize)
    requires
        x != y,
        s.contains(x),
        s.contains(y),
    ensures
        0 <= first_index(s, x) < s.len(),
        0 <= first_index(s, y) < s.len(),
        s[first_index(s, x)] == x,
        s[first_index(s, y)] == y,
        first_index(s.remove(first_index(s, x)), y) == (if first_index(s, y) < first_index(s, x) {
            first_index(s, y)
        } else {
            first_index(s, y) - 1
        }),
{
    let wx = choose|k: int| 0 <= k < s.len() && s[k] == x;
    lemma_first_occurrence(s, x, wx);
    let wy = choose|k: int| 0 <= k < s.len() && s[k] == y;
    lemma_first_occurrence(s, y, wy);
    let ix = first_index(s, x);
    let iy = first_index(s, y);
    let t = s.remove(ix);
    let ny = if iy < ix {
        iy
    } else {
        iy - 1
    };
    assert(t[ny] == y);
    assert forall|k: int| 0 <= k < ny implies t[k] != y by {
        if k < ix {
            assert(t[k] == s[k]);
        } else {
            assert(t[k] == s[k + 1]);
        }
    }
    lemma_first_index(t, y, ny);
}

/// Taking two different elements off the lists comes to the same in
/// either order.
#[verifier::rlimit(100)]
#[verifier::spinoff_prover]
pub proof fn lemma_lists_without_commute(
    lists: Seq<Seq<usize>>,
    bx: int,
    x: usize,
    by: int,
    y: usize,
)
    requires
        x != y,
        0 <= bx < lists.len(),
        0 <= by < lists.len(),
        lists[bx].contains(x),
        lists[by].contains(y),
    ensures
        lists_without(lists_without(lists, bx, x), by, y) == lists_without(
            lists_without(lists, by, y),
            bx,
            x,
        ),
{
    let l1 = lists_without(lists_without(lists, bx, x), by, y);
    let l2 = lists_without(lists_without(lists, by, y), bx, x);
    if bx == by {
        let s = lists[bx];
        lemma_first_index_removed(s, x, y);
        lemma_first_index_removed(s, y, x);
        let ix = first_index(s, x);
        let iy = first_index(s, y);
        lemma_remove_two(s, ix, iy);
        assert(l1[bx] == l2[bx]);
        assert(l1 =~= l2);
    } else {
        assert(l1 =~= l2);
    }
}

/// Taking out two elements of a sequence comes to the same in either
/// order.
proof fn lemma_remove_two(s: Seq<usize>, ix: int, iy: int)
    requires
        0 <= ix < s.len(),
        0 <= iy < s.len(),
        ix != iy,
    ensures
        s.remove(ix).remove(
            if iy < ix {
                iy
            } else {
                iy - 1
            },
        ) == s.remove(iy).remove(
            if ix < iy {
                ix
            } else {
                ix - 1
            },
        ),
{
    let a = s.remove(ix).remove(
        if iy < ix {
            iy
        } else {
            iy - 1
        },
    );
    let b = s.remove(iy).remove(
        if ix < iy {
            ix
        } else {
            ix - 1
        },
    );
    assert(a.len() == b.len());
    assert forall|k: int| 0 <= k < a.len() implies a[k] == b[k] by {
        let lo = if ix < iy {
            ix
        } else {
            iy
        };
        let hi = if ix < iy {
            iy
        } else {
            ix
        };
        if k < lo {
            assert(a[k] == s[k] && b[k] == s[k]);
        } else if k < hi - 1 {
            assert(a[k] == s[k + 1] && b[k] == s[k + 1]);
        } else {
            assert(a[k] == s[k + 2] && b[k] == s[k + 2]);
        }
    }
    assert(a =~= b);
}

/// Putting an element at the head of a list and taking another element
/// off the lists comes to the same in either order.
pub proof fn lemma_lists_with_without_commute(
    lists: Seq<Seq<usize>>,
    bx: int,
    x: usize,
    by: int,
    y: usize,
)
    requires
        x != y,
        0 <= bx < lists.len(),
        0 <= by < lists.len(),
        lists[by].contains(y),
    ensures
        lists_without(lists_with(lists, bx, x), by, y) == lists_with(
            lists_without(lists, by, y),
            bx,
            x,
        ),
{
    let l1 = lists_without(lists_with(lists, bx, x), by, y);
    let l2 = lists_with(lists_without(lists, by, y), bx, x);
    if bx == by {
        let s = lists[bx];
        lemma_first_index_pushed(s, x, y);
        assert(l1[bx] =~= l2[bx]);
        assert(l1 =~= l2);
    } else {
        assert(l1 =~= l2);
    }
}

/// Taking one area off its list and putting another on its list comes to
/// the same in either order.
pub proof fn lemma_unlink_link_commute(v: HeapView, k: int, m: int)
    requires
        0 <= k < v.blocks.len(),
        0 <= m < v.blocks.len(),
        k != m,
        v.blocks[k].addr != v.blocks[m].addr,
        0 < v.blocks[k].addr <= usize::MAX,
        0 < v.blocks[m].addr <= usize::MAX,
        0 <= bucket_of(v.blocks[k].size) < v.lists.len(),
        0 <= bucket_of(v.blocks[m].size) < v.lists.len(),
        v.lists[bucket_of(v.blocks[k].size)].contains(v.blocks[k].addr as usize),
    ensures
        unlinked(linked(v, m), k) == linked(unlinked(v, k), m),
{
    let bk = bucket_of(v.blocks[k].size);
    let bm = bucket_of(v.blocks[m].size);
    let x = v.blocks[m].addr as usize;
    let y = v.blocks[k].addr as usize;
    lemma_lists_with_without_commute(v.lists, bm, x, bk, y);
    let a = unlinked(linked(v, m), k);
    let b = linked(unlinked(v, k), m);
    assert(linked(v, m).blocks[k] == v.blocks[k]);
    assert(unlinked(v, k).blocks[m] == v.blocks[m]);
    assert(a.lists == lists_without(lists_with(v.lists, bm, x), bk, y));
    assert(b.lists == lists_with(lists_without(v.lists, bk, y), bm, x));
    assert(a.blocks =~= b.blocks);
}

/// Taking two areas off their lists comes to the same in either order.
#[verifier::rlimit(100)]
#[verifier::spinoff_prover]
pub proof fn lemma_unlink_unlink_commute(v: HeapView, k: int, m: int)
    requires
        0 <= k < v.blocks.len(),
        0 <= m < v.blocks.len(),
        k != m,
        v.blocks[k].addr != v.blocks[m].addr,
        0 < v.blocks[k].addr <= usize::MAX,
        0 < v.blocks[m].addr <= usize::MAX,
        0 <= bucket_of(v.blocks[k].size) < v.lists.len(),
        0 <= bucket_of(v.blocks[m].size) < v.lists.len(),
        v.lists[bucket_of(v.blocks[k].size)].contains(v.blocks[k].addr as usize),
        v.lists[bucket_of(v.blocks[m].size)].contains(v.blocks[m].addr as usize),
    ensures
        unlinked(unlinked(v, m), k) == unlinked(unlinked(v, k), m),
{
    let bk = bucket_of(v.blocks[k].size);
    let bm = bucket_of(v.blocks[m].size);
    let x = v.blocks[m].addr as usize;
    let y = v.blocks[k].addr as usize;
    let um = unlinked(v, m);
    let uk = unlinked(v, k);
    let a = unlinked(um, k);
    let b = unlinked(uk, m);
    assert(um.blocks[k] == v.blocks[k] && uk.blocks[m] == v.blocks[m]);
    assert(a.blocks == b.blocks) by {
        assert(a.blocks =~= b.blocks);
    }
    assert(a.lists == b.lists) by {
        assert(um.lists == lists_without(v.lists, bm, x));
        assert(uk.lists == lists_without(v.lists, bk, y));
        assert(a.lists == lists_without(um.lists, bk, y));
        assert(b.lists == lists_without(uk.lists, bm, x));
        lemma_lists_without_commute(v.lists, bm, x, bk, y);
    }
    assert(a.remaining == b.remaining);
    assert(a.cached == b.cached && a.size == b.size);
}

/// The heap with the area at position `k` having taken in the area
/// behind it.
pub open spec fn merged(v: HeapView, k: int) -> HeapView {
    HeapView { blocks: absorbed(v.blocks, k), ..v }
}

/// Merging two areas and putting an area behind them on its list comes to
/// the same in either order; the area moves up by one position.
pub proof fn lemma_merge_link_commute(v: HeapView, k: int, m: int)
    requires
        0 <= k,
        k + 2 <= m < v.blocks.len(),
    ensures
        merged(linked(v, m), k) == linked(merged(v, k), m - 1),
        merged(unlinked(v, m), k) == unlinked(merged(v, k), m - 1),
{
    let a = merged(linked(v, m), k);
    let b = linked(merged(v, k), m - 1);
    assert(absorbed(v.blocks, k)[m - 1].addr == v.blocks[m].addr);
    assert(absorbed(v.blocks, k)[m - 1].size == v.blocks[m].size);
    assert(a.blocks =~= b.blocks);
    let c = merged(unlinked(v, m), k);
    let d = unlinked(merged(v, k), m - 1);
    assert(c.blocks =~= d.blocks);
}

/// Merging two areas and taking an area in front of them off its list
/// comes to the same in either order.
pub proof fn lemma_merge_unlink_before(v: HeapView, k: int, m: int)
    requires
        0 <= m < k,
        k + 2 < v.blocks.len(),
    ensures
        merged(unlinked(v, m), k) == unlinked(merged(v, k), m),
{
    let c = merged(unlinked(v, m), k);
    let d = unlinked(merged(v, k), m);
    assert(absorbed(v.blocks, k)[m] == v.blocks[m]);
    assert(c.blocks =~= d.blocks);
}

/// Merging three areas in a row comes to the same whichever two are
/// merged first.
pub proof fn lemma_merge_assoc(blocks: Seq<Block>, k: int)
    requires
        0 <= k,
        k + 3 < blocks.len(),
        blocks[k + 1].left == blocks[k].addr,
    ensures
        absorbed(absorbed(blocks, k + 1), k) == absorbed(absorbed(blocks, k), k),
{
    let a = absorbed(absorbed(blocks, k + 1), k);
    let b = absorbed(absorbed(blocks, k), k);
    assert(a.len() == b.len());
    assert(a =~= b);
}

/// Merging two pairs of areas that lie apart comes to the same in either
/// order.
pub proof fn lemma_merge_apart(blocks: Seq<Block>, k: int)
    requires
        0 <= k,
        k + 4 < blocks.len(),
    ensures
        absorbed(absorbed(blocks, k + 2), k) == absorbed(absorbed(blocks, k), k + 1),
{
    let a = absorbed(absorbed(blocks, k + 2), k);
    let b = absorbed(absorbed(blocks, k), k + 1);
    assert(a.len() == b.len());
    assert(a =~= b);
}

/// The heap after the second of two neighbouring areas in use was merged
/// with the area behind it, if that one is free.
pub open spec fn second_merged(v: HeapView, i: int) -> HeapView {
    if v.blocks[i + 2].free {
        merged(unlinked(v, i + 2), i + 1)
    } else {
        v
    }
}

/// What is known of a heap after the second of two neighbouring areas in
/// use was merged with the area behind it.
proof fn lemma_second_merged(v: HeapView, i: int)
    requires
        view_wf(v),
        is_live(v.blocks, i),
        is_live(v.blocks, i + 1),
    ensures
        view_wf(second_merged(v, i)),
        coalesced(v, i + 1) == (second_merged(v, i), i + 1),
        !spans_region(second_merged(v, i).blocks, i + 1),
        i + 2 < second_merged(v, i).blocks.len(),
        second_merged(v, i).blocks[i] == v.blocks[i],
        second_merged(v, i).blocks[i - 1] == v.blocks[i - 1],
        i >= 2 ==> second_merged(v, i).blocks[i - 2] == v.blocks[i - 2],
        is_live(second_merged(v, i).blocks, i + 1),
        second_merged(v, i).blocks[i + 1].addr == v.blocks[i + 1].addr,
        !second_merged(v, i).blocks[i + 2].free,
        second_merged(v, i).lists.len() == NUMBER_OF_BUCKETS,
{
    lemma_block_ok(v.blocks, i);
    lemma_block_ok(v.blocks, i + 1);
    lemma_block_ok(v.blocks, i + 2);
    assert(v.lists.len() == NUMBER_OF_BUCKETS) by {
        reveal(lists_wf);
    }
    if v.blocks[i + 2].free {
        let u = unlinked(v, i + 2);
        lemma_unlinked_wf(v, i + 2);
        lemma_absorbed_wf(u, i + 1);
        lemma_absorbed_blocks(u.blocks, i + 1);
        lemma_block_ok(v.blocks, i + 3);
    }
}

/// Freeing the first of two neighbouring areas in use after the second
/// merges the first with its free left neighbour, and with the second and
/// what the second was merged with.
proof fn lemma_first_after_second(d: HeapView, i: int)
    requires
        view_wf(d),
        is_live(d.blocks, i),
        is_live(d.blocks, i + 1),
        i + 2 < d.blocks.len(),
        !d.blocks[i + 2].free,
        d.lists.len() == NUMBER_OF_BUCKETS,
    ensures
        ({
            let r2 = linked(d, i + 1);
            let (e, j) = if d.blocks[i - 1].free {
                (merged(unlinked(d, i - 1), i - 1), i - 1)
            } else {
                (d, i)
            };
            coalesced(r2, i) == (merged(e, j), j)
        }),
{
    let r2 = linked(d, i + 1);
    lemma_block_ok(d.blocks, i);
    lemma_block_ok(d.blocks, i + 1);
    lemma_block_ok(d.blocks, i - 1);
    lemma_block_basic(d.blocks, i + 1);
    lemma_block_basic(d.blocks, i - 1);
    lemma_blocks_ordered(d.blocks, i - 1, i + 1);
    assert(r2.blocks[i - 1] == d.blocks[i - 1]);
    assert(r2.blocks[i] == d.blocks[i]);
    assert(r2.blocks[i + 1].free);
    if d.blocks[i - 1].free {
        lemma_free_block(d, i - 1);
        lemma_unlink_link_commute(d, i - 1, i + 1);
        let ul = unlinked(d, i - 1);
        assert(unlinked(r2, i - 1) == linked(ul, i + 1));
        lemma_merge_link_commute(ul, i - 1, i + 1);
        let e = merged(ul, i - 1);
        assert(merged(unlinked(r2, i - 1), i - 1) == linked(e, i));
        lemma_unlinked_wf(d, i - 1);
        lemma_absorbed_blocks(ul.blocks, i - 1);
        assert(e.blocks[i].addr == d.blocks[i + 1].addr && e.blocks[i].size == d.blocks[i + 1].size
            && !e.blocks[i].free);
        lemma_unlink_undoes_link(e, i);
        assert(linked(e, i).blocks[i].free);
    } else {
        lemma_unlink_undoes_link(d, i + 1);
    }
}

/// Merging the first of two neighbouring areas with what the second was
/// merged with comes to the same as merging the two and then the area
/// behind them.
proof fn lemma_pair_right(v: HeapView, i: int)
    requires
        view_wf(v),
        is_live(v.blocks, i),
        is_live(v.blocks, i + 1),
        !v.blocks[i - 1].free,
    ensures
        coalesced_pair(v, i) == (merged(second_merged(v, i), i), i),
{
    lemma_block_ok(v.blocks, i);
    lemma_block_ok(v.blocks, i + 1);
    lemma_block_ok(v.blocks, i + 2);
    let c2 = merged(v, i);
    assert(c2.blocks[i + 1] == with_left(v.blocks[i + 2], v.blocks[i].addr));
    if v.blocks[i + 2].free {
        lemma_block_ok(v.blocks, i + 3);
        lemma_merge_link_commute(v, i, i + 2);
        lemma_merge_assoc(unlinked(v, i + 2).blocks, i);
    }
}

/// The same with a free area in front of the first.
#[verifier::rlimit(100)]
#[verifier::spinoff_prover]
proof fn lemma_pair_both(v: HeapView, i: int)
    requires
        view_wf(v),
        is_live(v.blocks, i),
        is_live(v.blocks, i + 1),
        v.blocks[i - 1].free,
    ensures
        coalesced_pair(v, i) == (
            merged(merged(unlinked(second_merged(v, i), i - 1), i - 1), i - 1),
            i - 1,
        ),
{
    lemma_block_ok(v.blocks, i);
    lemma_block_ok(v.blocks, i + 1);
    lemma_block_ok(v.blocks, i + 2);
    lemma_block_ok(v.blocks, i - 1);
    lemma_block_ok(v.blocks, i - 2);
    lemma_free_block(v, i - 1);
    let ul = unlinked(v, i - 1);
    let c1 = merged(ul, i - 1);
    let c2 = merged(c1, i - 1);
    lemma_unlinked_wf(v, i - 1);
    lemma_absorbed_blocks(ul.blocks, i - 1);
    lemma_absorbed_wf(ul, i - 1);
    lemma_absorbed_blocks(c1.blocks, i - 1);
    assert(c2.blocks[i].free == v.blocks[i + 2].free);
    if v.blocks[i + 2].free {
        lemma_block_ok(v.blocks, i + 3);
        lemma_free_block(v, i + 2);
        lemma_block_basic(v.blocks, i - 1);
        lemma_block_basic(v.blocks, i + 2);
        lemma_blocks_ordered(v.blocks, i - 1, i + 2);
        // All that leaves a list leaves it first.
        let n = unlinked(unlinked(v, i + 2), i - 1);
        lemma_unlink_unlink_commute(v, i - 1, i + 2);
        assert(n == unlinked(ul, i + 2));
        // The canonical side.
        lemma_merge_link_commute(ul, i - 1, i + 2);
        assert(unlinked(c1, i + 1) == merged(n, i - 1));
        lemma_merge_link_commute(c1, i - 1, i + 1);
        assert(unlinked(c2, i) == merged(merged(n, i - 1), i - 1));
        // The other side.
        let ur = unlinked(v, i + 2);
        lemma_merge_unlink_before(ur, i + 1, i - 1);
        assert(unlinked(merged(ur, i + 1), i - 1) == merged(n, i + 1));
        lemma_merge_apart(n.blocks, i - 1);
        let x = absorbed(n.blocks, i - 1);
        assert(x[i].left == x[i - 1].addr);
        lemma_merge_assoc(x, i - 1);
    }
}

/// Freeing the second of two neighbouring areas in use and then the first
/// merges the two with each other and with their free neighbours.
pub proof fn lemma_free_second_then_first(v: HeapView, i: int)
    requires
        view_wf(v),
        is_live(v.blocks, i),
        is_live(v.blocks, i + 1),
    ensures
        released(
            released(v, v.blocks[i + 1].addr + SIZE_OF_HEADER_T),
            v.blocks[i].addr + SIZE_OF_HEADER_T,
        ) == finished(coalesced_pair(v, i).0, coalesced_pair(v, i).1),
{
    let pa = v.blocks[i].addr + SIZE_OF_HEADER_T;
    let pb = v.blocks[i + 1].addr + SIZE_OF_HEADER_T;
    lemma_released_is_finished(v, i + 1);
    lemma_second_merged(v, i);
    let d = second_merged(v, i);
    let r2 = linked(d, i + 1);
    assert(released(v, pb) == r2);
    lemma_block_basic(d.blocks, i + 1);
    lemma_block_ok(d.blocks, i);
    lemma_linked_wf(d, i + 1);
    assert(r2.blocks[i] == d.blocks[i]);
    lemma_find_block(r2.blocks, i);
    lemma_released_is_finished(r2, i);
    lemma_first_after_second(d, i);
    if v.blocks[i - 1].free {
        lemma_pair_both(v, i);
    } else {
        lemma_pair_right(v, i);
    }
}

/// Freeing two neighbouring areas in use leaves the same heap in either
/// order: one free area that spans both and their free neighbours, or, if
/// that is all there is between the sentinels of an area obtained from
/// the OS, a heap without that area.
pub proof fn lemma_coalescing_commutes(v: HeapView, i: int)
    requires
        view_wf(v),
        is_live(v.blocks, i),
        is_live(v.blocks, i + 1),
    ensures
        released(
            released(v, v.blocks[i].addr + SIZE_OF_HEADER_T),
            v.blocks[i + 1].addr + SIZE_OF_HEADER_T,
        ) == released(
            released(v, v.blocks[i + 1].addr + SIZE_OF_HEADER_T),
            v.blocks[i].addr + SIZE_OF_HEADER_T,
        ),
        ({
            let (c, j) = coalesced_pair(v, i);
            &&& c.blocks[j].addr <= v.blocks[i].addr
            &&& v.blocks[i + 1].addr + v.blocks[i + 1].size <= c.blocks[j].addr + c.blocks[j].size
        }),
{
    lemma_free_first_then_second(v, i);
    lemma_free_second_then_first(v, i);
    lemma_pair_spans(v, i);
}

/// The area that two neighbouring areas are merged into spans both.
proof fn lemma_pair_spans(v: HeapView, i: int)
    requires
        view_wf(v),
        is_live(v.blocks, i),
        is_live(v.blocks, i + 1),
    ensures
        ({
            let (c, j) = coalesced_pair(v, i);
            &&& c.blocks[j].addr <= v.blocks[i].addr
            &&& v.blocks[i + 1].addr + v.blocks[i + 1].size <= c.blocks[j].addr + c.blocks[j].size
        }),
{
    lemma_block_ok(v.blocks, i);
    lemma_block_ok(v.blocks, i + 1);
    lemma_block_ok(v.blocks, i + 2);
    lemma_block_ok(v.blocks, i - 1);
    let (c1, j) = if v.blocks[i - 1].free {
        let u = unlinked(v, i - 1);
        lemma_unlinked_wf(v, i - 1);
        lemma_absorbed_blocks(u.blocks, i - 1);
        lemma_absorbed_wf(u, i - 1);
        (HeapView { blocks: absorbed(u.blocks, i - 1), ..u }, i - 1)
    } else {
        (v, i)
    };
    lemma_block_ok(c1.blocks, j);
    lemma_block_ok(c1.blocks, j + 1);
    lemma_absorbed_blocks(c1.blocks, j);
    lemma_absorbed_wf(c1, j);
    let c2 = HeapView { blocks: absorbed(c1.blocks, j), ..c1 };
    if c2.blocks[j + 1].free {
        let u = unlinked(c2, j + 1);
        lemma_unlinked_wf(c2, j + 1);
        lemma_block_ok(c2.blocks, j);
        lemma_block_ok(c2.blocks, j + 1);
        lemma_absorbed_blocks(u.blocks, j);
    }
}

/// A heap without areas, with a list for every bucket and all of them
/// empty, is sound.
pub proof fn lemma_empty_wf(v: HeapView)
    requires
        v.blocks.len() == 0,
        v.lists == Seq::new(NUMBER_OF_BUCKETS as nat, |b: int| Seq::<usize>::empty()),
        v.cached is None,
        v.size == 0,
        v.remaining == 0,
    ensures
        view_wf(v),
{
    reveal(lists_wf);
    lemma_blocks_wf_intro(v.blocks);
}

/// The sums over sound areas are not negative, the free bytes are at most
/// all bytes, and no area weighs more than the sum.
pub proof fn lemma_sum_bounds(blocks: Seq<Block>, i: int)
    requires
        blocks_wf(blocks),
        0 <= i < blocks.len(),
    ensures
        0 <= weight(blocks[i], true) <= sum_blocks(blocks, true),
        sum_blocks(blocks, true) <= sum_blocks(blocks, false),
        0 <= weight(blocks[i], false) <= sum_blocks(blocks, false),
{
    lemma_sum_all(blocks, blocks.len() as int, i);
    assert(blocks.take(blocks.len() as int) =~= blocks);
}

proof fn lemma_sum_all(blocks: Seq<Block>, n: int, i: int)
    requires
        blocks_wf(blocks),
        0 <= n <= blocks.len(),
    ensures
        0 <= sum_blocks(blocks.take(n), true) <= sum_blocks(blocks.take(n), false),
        0 <= i < n ==> weight(blocks[i], true) <= sum_blocks(blocks.take(n), true) && weight(
            blocks[i],
            false,
        ) <= sum_blocks(blocks.take(n), false) && 0 <= weight(blocks[i], true) && 0 <= weight(
            blocks[i],
            false,
        ),
    decreases n,
{
    if n > 0 {
        lemma_sum_all(blocks, n - 1, i);
        lemma_block_ok(blocks, n - 1);
        assert(blocks.take(n).drop_last() =~= blocks.take(n - 1));
        if 0 <= i < n {
            lemma_block_ok(blocks, i);
        }
    }
}

} // verus!
