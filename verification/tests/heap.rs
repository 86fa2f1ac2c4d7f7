use kernel::allocator::{boot_heap_mark_pages_in_use, heap_init, virtual_alloc_init};
use kernel::errors::ErrNO;
use kernel::boot::BootContext;
use kernel::klib::cmpctmalloc::{
    cmpct_alloc, cmpct_free, cmpct_init, cmpct_memalign, size_to_index_allocating,
    size_to_index_freeing, HEAP_MAX_ALLOC_SIZE, NUMBER_OF_BUCKETS, SIZE_OF_HEADER_T,
};
use kernel::pmm::{pmm_add_arena, ArenaInfo};

const MIB: usize = 1024 * 1024;
const PAGE: usize = 4096;
const ARENA: usize = 0x8000_0000;
const REGION: usize = 0x1000_0000;

fn context(arena_bytes: usize, region_bytes: usize) -> BootContext {
    let mut ctx = BootContext::new(REGION, 64 * MIB);
    assert_eq!(
        pmm_add_arena(&mut ctx.pmm_node, ArenaInfo::new("ram", 0, ARENA, arena_bytes), &ctx.reserve_ranges),
        Ok(())
    );
    ctx.kernel_heap_base = REGION;
    ctx.kernel_heap_size = region_bytes;
    assert_eq!(virtual_alloc_init(&mut ctx), Ok(()));
    ctx
}

fn heap() -> BootContext {
    let mut ctx = context(16 * MIB, 8 * MIB);
    assert_eq!(cmpct_init(&mut ctx), Ok(()));
    ctx
}

/// Where the first area obtained from the OS starts: behind the bitmap's
/// page and a guard page.
const FIRST: usize = REGION + 2 * PAGE;

#[test]
fn init_obtains_the_first_area() {
    let ctx = heap();
    assert_eq!(ctx.heap.total_size(), 256 * 1024);
    assert_eq!(ctx.heap.remaining(), 256 * 1024 - 32);
    assert!(ctx.heap.has_nonempty_bucket(0));
    assert_eq!(ctx.pmm_node.free_count(), 4096 - 48 - 1 - 64);
}

#[test]
fn init_fails_without_a_region() {
    let mut ctx = BootContext::new(REGION, 64 * MIB);
    assert_eq!(cmpct_init(&mut ctx), Err(ErrNO::BadState));
    assert_eq!(ctx.heap.total_size(), 0);
}

fn bare(arena_bytes: usize, region_bytes: usize) -> BootContext {
    let mut ctx = BootContext::new(REGION, 64 * MIB);
    assert_eq!(
        pmm_add_arena(&mut ctx.pmm_node, ArenaInfo::new("ram", 0, ARENA, arena_bytes), &ctx.reserve_ranges),
        Ok(())
    );
    ctx.kernel_heap_base = REGION;
    ctx.kernel_heap_size = region_bytes;
    ctx
}

#[test]
fn heap_init_brings_up_the_region_and_the_heap() {
    let mut ctx = bare(16 * MIB, 8 * MIB);
    boot_heap_mark_pages_in_use(&mut ctx);
    assert_eq!(ctx.pmm_node.free_count(), 4096 - 48);
    assert_eq!(heap_init(&mut ctx), Ok(()));
    assert_eq!(ctx.virtual_alloc.alloc_base(), REGION);
    assert_eq!(ctx.virtual_alloc.bitmap_pages(), 1);
    assert_eq!(ctx.heap.total_size(), 256 * 1024);
    assert_eq!(ctx.heap.remaining(), 256 * 1024 - 32);
    assert_eq!(ctx.pmm_node.free_count(), 4096 - 48 - 1 - 64);
    assert_eq!(cmpct_alloc(&mut ctx, 16), Some(FIRST + 32));
}

#[test]
fn heap_init_passes_on_the_refusal_of_the_region() {
    // No region was recorded.
    let mut ctx = BootContext::new(REGION, 64 * MIB);
    assert_eq!(heap_init(&mut ctx), Err(ErrNO::InvalidArgs));
    assert_eq!(ctx.virtual_alloc.alloc_base(), 0);
    assert_eq!(ctx.heap.total_size(), 0);
    // The region lies outside the address space.
    let mut ctx = bare(16 * MIB, 8 * MIB);
    ctx.kernel_heap_base = REGION + 60 * MIB;
    assert_eq!(heap_init(&mut ctx), Err(ErrNO::OutOfRange));
    assert_eq!(ctx.pmm_node.free_count(), 4096 - 48);
}

#[test]
fn heap_init_needs_room_for_the_first_area() {
    // 66 pages behind the page of the bitmap are just enough.
    let mut ctx = bare(16 * MIB, 67 * PAGE);
    assert_eq!(heap_init(&mut ctx), Ok(()));
    let mut ctx = bare(16 * MIB, 66 * PAGE);
    assert_eq!(heap_init(&mut ctx), Err(ErrNO::NoMem));
    assert_eq!(ctx.virtual_alloc.alloc_base(), REGION);
    assert_eq!(ctx.heap.total_size(), 0);
    // 65 free pages back the bitmap and the first area, 64 do not.
    let mut ctx = bare(66 * PAGE, 8 * MIB);
    assert_eq!(ctx.pmm_node.free_count(), 65);
    assert_eq!(heap_init(&mut ctx), Ok(()));
    assert_eq!(ctx.pmm_node.free_count(), 0);
    let mut ctx = bare(65 * PAGE, 8 * MIB);
    assert_eq!(ctx.pmm_node.free_count(), 64);
    assert_eq!(heap_init(&mut ctx), Err(ErrNO::NoMem));
    assert_eq!(ctx.pmm_node.free_count(), 63);
}

#[test]
fn two_allocations_of_16_bytes_then_free_in_reverse() {
    let mut ctx = heap();
    let a = cmpct_alloc(&mut ctx, 16).unwrap();
    let b = cmpct_alloc(&mut ctx, 16).unwrap();
    assert_eq!(a, FIRST + 32);
    assert_eq!(b, a + 16 + SIZE_OF_HEADER_T);
    assert!(b >= a + 16 + SIZE_OF_HEADER_T || a >= b + 16 + SIZE_OF_HEADER_T);
    assert!(ctx.heap.is_allocated(a));
    assert!(ctx.heap.is_allocated(b));
    cmpct_free(&mut ctx, b);
    cmpct_free(&mut ctx, a);
    assert!(!ctx.heap.is_allocated(a));
    assert!(!ctx.heap.is_allocated(b));
    let (bucket, rounded) = size_to_index_allocating(16);
    assert_eq!((bucket, rounded), (1, 16));
    // The first area is whole again, and held back for reuse: asking again
    // finds it.
    let again = cmpct_alloc(&mut ctx, 16).unwrap();
    assert_eq!(again, a);
    assert!(ctx.heap.has_nonempty_bucket(bucket));
}

#[test]
fn freeing_in_reverse_order_leaves_a_nonempty_bucket() {
    let mut ctx = heap();
    let keep = cmpct_alloc(&mut ctx, 64).unwrap();
    let a = cmpct_alloc(&mut ctx, 16).unwrap();
    let b = cmpct_alloc(&mut ctx, 16).unwrap();
    cmpct_free(&mut ctx, b);
    cmpct_free(&mut ctx, a);
    assert!(ctx.heap.has_nonempty_bucket(size_to_index_allocating(16).0));
    assert!(ctx.heap.is_allocated(keep));
    assert_eq!(ctx.heap.remaining(), 256 * 1024 - 32 - (64 + 16));
}

#[test]
fn requests_out_of_range_get_nothing() {
    let mut ctx = heap();
    assert_eq!(cmpct_alloc(&mut ctx, 0), None);
    assert_eq!(cmpct_alloc(&mut ctx, HEAP_MAX_ALLOC_SIZE + 1), None);
    assert_eq!(cmpct_memalign(&mut ctx, 64, 0), None);
    assert_eq!(cmpct_memalign(&mut ctx, 12, 16), None);
    assert_eq!(ctx.heap.remaining(), 256 * 1024 - 32);
    cmpct_free(&mut ctx, 0);
    assert_eq!(ctx.heap.remaining(), 256 * 1024 - 32);
}

#[test]
fn live_allocations_do_not_overlap() {
    let mut ctx = heap();
    let sizes = [1usize, 8, 16, 24, 100, 128, 129, 500, 4096, 70000, 7, 300000, 33];
    let mut live: Vec<(usize, usize)> = Vec::new();
    for (n, &size) in sizes.iter().enumerate() {
        let p = cmpct_alloc(&mut ctx, size).unwrap();
        assert_eq!(p % 8, 0);
        live.push((p, size));
        if n % 3 == 2 {
            let (q, _) = live.remove(0);
            cmpct_free(&mut ctx, q);
        }
        for i in 0..live.len() {
            assert!(ctx.heap.is_allocated(live[i].0));
            for j in i + 1..live.len() {
                let (a, sa) = live[i];
                let (b, sb) = live[j];
                assert!(a + sa <= b - SIZE_OF_HEADER_T || b + sb <= a - SIZE_OF_HEADER_T);
            }
        }
    }
    for (p, _) in live {
        cmpct_free(&mut ctx, p);
    }
}

#[test]
fn free_then_allocate_returns_the_same_bytes() {
    let mut ctx = heap();
    let keep = cmpct_alloc(&mut ctx, 40).unwrap();
    for size in [1usize, 16, 100, 129, 5000, 100_000] {
        let remaining = ctx.heap.remaining();
        let p = cmpct_alloc(&mut ctx, size).unwrap();
        cmpct_free(&mut ctx, p);
        assert_eq!(ctx.heap.remaining(), remaining);
        assert_eq!(cmpct_alloc(&mut ctx, size), Some(p));
        cmpct_free(&mut ctx, p);
    }
    cmpct_free(&mut ctx, keep);
}

#[test]
fn adjacent_blocks_coalesce_in_either_order() {
    let mut one = heap();
    let mut two = heap();
    let mut ptrs = Vec::new();
    for ctx in [&mut one, &mut two] {
        let left = cmpct_alloc(ctx, 64).unwrap();
        let a = cmpct_alloc(ctx, 200).unwrap();
        let b = cmpct_alloc(ctx, 300).unwrap();
        let right = cmpct_alloc(ctx, 64).unwrap();
        assert_eq!(b, a + 208 + SIZE_OF_HEADER_T);
        ptrs.push((left, a, b, right));
    }
    assert_eq!(ptrs[0], ptrs[1]);
    let (_, a, b, _) = ptrs[0];
    cmpct_free(&mut one, a);
    cmpct_free(&mut one, b);
    cmpct_free(&mut two, b);
    cmpct_free(&mut two, a);
    assert_eq!(one.heap.remaining(), two.heap.remaining());
    // One free area spans both: a request for all of it is served from it.
    let whole = 208 + 304 + SIZE_OF_HEADER_T;
    assert_eq!(size_to_index_freeing(whole), size_to_index_allocating(512).0);
    assert_eq!(cmpct_alloc(&mut one, 512), Some(a));
    assert_eq!(cmpct_alloc(&mut two, 512), Some(a));
    assert_eq!(one.heap.remaining(), two.heap.remaining());
}

#[test]
fn freeing_between_two_free_blocks_merges_all_three() {
    let mut ctx = heap();
    let left = cmpct_alloc(&mut ctx, 64).unwrap();
    let a = cmpct_alloc(&mut ctx, 200).unwrap();
    let b = cmpct_alloc(&mut ctx, 200).unwrap();
    let c = cmpct_alloc(&mut ctx, 200).unwrap();
    let right = cmpct_alloc(&mut ctx, 64).unwrap();
    cmpct_free(&mut ctx, a);
    cmpct_free(&mut ctx, c);
    cmpct_free(&mut ctx, b);
    // Three areas of 224 bytes make one of 672, which has room for 640
    // bytes and a header.
    assert_eq!(cmpct_alloc(&mut ctx, 640), Some(a));
    assert!(ctx.heap.is_allocated(left));
    assert!(ctx.heap.is_allocated(right));
}

#[test]
fn allocating_bucket_is_not_before_freeing_bucket() {
    let mut size = 8;
    while size <= HEAP_MAX_ALLOC_SIZE {
        let (alloc, rounded) = size_to_index_allocating(size);
        let free = size_to_index_freeing(size);
        assert!(alloc >= free);
        assert!(alloc < NUMBER_OF_BUCKETS);
        assert!(free < NUMBER_OF_BUCKETS);
        assert!(rounded >= size);
        size += if size < 4096 { 1 } else { 997 };
    }
    assert!(size_to_index_allocating(HEAP_MAX_ALLOC_SIZE).0 < NUMBER_OF_BUCKETS);
}

#[test]
fn bucket_indices_and_rounded_sizes() {
    assert_eq!(size_to_index_allocating(1), (0, 8));
    assert_eq!(size_to_index_allocating(8), (0, 8));
    assert_eq!(size_to_index_allocating(9), (1, 16));
    assert_eq!(size_to_index_allocating(120), (14, 120));
    assert_eq!(size_to_index_allocating(128), (15, 128));
    assert_eq!(size_to_index_allocating(129), (16, 144));
    assert_eq!(size_to_index_allocating(144), (16, 144));
    assert_eq!(size_to_index_allocating(145), (17, 160));
    assert_eq!(size_to_index_allocating(256), (23, 256));
    assert_eq!(size_to_index_allocating(257), (24, 288));
    assert_eq!(size_to_index_allocating(HEAP_MAX_ALLOC_SIZE), (119, 1048576));
    assert_eq!(size_to_index_freeing(8), 0);
    assert_eq!(size_to_index_freeing(15), 0);
    assert_eq!(size_to_index_freeing(127), 14);
    assert_eq!(size_to_index_freeing(128), 15);
    assert_eq!(size_to_index_freeing(143), 15);
    assert_eq!(size_to_index_freeing(144), 16);
    assert_eq!(size_to_index_freeing(255), 22);
    assert_eq!(size_to_index_freeing(256), 23);
    assert_eq!(size_to_index_freeing(287), 23);
    assert_eq!(size_to_index_freeing(288), 24);
    assert_eq!(size_to_index_freeing(2097151), 126);
}

#[test]
fn small_leftovers_are_not_split_off() {
    let mut ctx = heap();
    // Leave a free area of 48 bytes between two allocations.
    let a = cmpct_alloc(&mut ctx, 32).unwrap();
    let b = cmpct_alloc(&mut ctx, 32).unwrap();
    let c = cmpct_alloc(&mut ctx, 32).unwrap();
    cmpct_free(&mut ctx, b);
    // 16 bytes need 32 with the header; the 16 bytes left over are too few
    // for a free area, so that the whole area is handed out.
    let before = ctx.heap.remaining();
    let d = cmpct_alloc(&mut ctx, 16).unwrap();
    assert_eq!(d, b);
    assert_eq!(ctx.heap.remaining(), before - 48);
    cmpct_free(&mut ctx, a);
    cmpct_free(&mut ctx, c);
    cmpct_free(&mut ctx, d);
}

#[test]
fn the_heap_grows_when_no_bucket_has_room() {
    let mut ctx = heap();
    let big = cmpct_alloc(&mut ctx, 400 * 1024).unwrap();
    // The request is rounded up to the bucket of 425984 bytes; with its
    // header and 32 bytes for the sentinels it needs 105 pages.
    assert_eq!(ctx.heap.total_size(), 256 * 1024 + 105 * PAGE);
    assert_eq!(big, FIRST + 64 * PAGE + PAGE + 32);
    let small = cmpct_alloc(&mut ctx, 16).unwrap();
    assert_eq!(small, FIRST + 32);
    cmpct_free(&mut ctx, big);
    // The area obtained for the large request is whole again: it is held
    // back, and the heap still counts it.
    assert_eq!(ctx.heap.total_size(), 256 * 1024 + 105 * PAGE);
    let pages = ctx.pmm_node.free_count();
    cmpct_free(&mut ctx, small);
    // The first area is whole again as well, and goes back to the OS.
    assert_eq!(ctx.heap.total_size(), 105 * PAGE);
    assert_eq!(ctx.pmm_node.free_count(), pages + 64);
    assert!(!ctx.virtual_alloc.is_page_allocated(2));
    // The area held back serves the next request.
    assert_eq!(cmpct_alloc(&mut ctx, 16), Some(big));
    assert_eq!(ctx.heap.total_size(), 105 * PAGE);
}

#[test]
fn a_cached_area_that_is_too_small_goes_back_to_the_os() {
    let mut ctx = heap();
    let p = cmpct_alloc(&mut ctx, 16).unwrap();
    cmpct_free(&mut ctx, p);
    // The first area is held back now. A request it cannot serve makes
    // the heap return it and obtain a larger one.
    let pages = ctx.pmm_node.free_count();
    let big = cmpct_alloc(&mut ctx, 400 * 1024).unwrap();
    assert_eq!(ctx.heap.total_size(), 105 * PAGE);
    assert_eq!(ctx.pmm_node.free_count(), pages + 64 - 105);
    assert_eq!(big, FIRST + 32);
}

#[test]
fn growth_asks_for_less_when_memory_is_short() {
    // 96 pages in the arena, two of them for descriptors, one for the
    // bitmap, 64 for the first area of the heap: 29 are left.
    let mut ctx = context(96 * PAGE, 8 * MIB);
    assert_eq!(cmpct_init(&mut ctx), Ok(()));
    let fill = cmpct_alloc(&mut ctx, 240 * 1024).unwrap();
    assert_eq!(ctx.pmm_node.free_count(), 29);
    // 64 pages are wanted, which cannot be had; then 33; then 27, which is
    // what the request needs, rounded up to the bucket of 106496 bytes.
    let p = cmpct_alloc(&mut ctx, 100_000).unwrap();
    assert_eq!(ctx.heap.total_size(), 256 * 1024 + 27 * PAGE);
    assert_eq!(ctx.pmm_node.free_count(), 2);
    // Nothing helps a request that needs more than is left.
    assert_eq!(cmpct_alloc(&mut ctx, 100_000), None);
    assert_eq!(ctx.pmm_node.free_count(), 2);
    assert!(ctx.heap.is_allocated(p));
    assert!(ctx.heap.is_allocated(fill));
}

#[test]
fn memalign_returns_aligned_bytes() {
    let mut ctx = heap();
    let keep = cmpct_alloc(&mut ctx, 24).unwrap();
    for align in [8usize, 16, 64, 256, 4096, 24] {
        let p = cmpct_memalign(&mut ctx, align, 100).unwrap();
        assert_eq!(p % align, 0);
        assert!(ctx.heap.is_allocated(p));
        assert!(ctx.heap.is_allocated(keep));
        let q = cmpct_alloc(&mut ctx, 100).unwrap();
        assert!(q + 100 <= p - SIZE_OF_HEADER_T || p + 100 <= q - SIZE_OF_HEADER_T);
        cmpct_free(&mut ctx, q);
        cmpct_free(&mut ctx, p);
    }
    // An alignment below 8 asks for nothing special.
    let remaining = ctx.heap.remaining();
    let p = cmpct_memalign(&mut ctx, 4, 16).unwrap();
    assert_eq!(ctx.heap.remaining(), remaining - 32);
    cmpct_free(&mut ctx, p);
    assert_eq!(ctx.heap.remaining(), remaining);
}

#[test]
fn memalign_frees_the_front_it_cuts_off() {
    let mut ctx = heap();
    let keep = cmpct_alloc(&mut ctx, 24).unwrap();
    let remaining = ctx.heap.remaining();
    let p = cmpct_memalign(&mut ctx, 4096, 100).unwrap();
    // Room for 100 + 4096 + 32 bytes is taken, of which the front goes
    // back at once.
    let taken = remaining - ctx.heap.remaining();
    assert!(taken >= 100 + SIZE_OF_HEADER_T);
    assert!(taken <= 100 + 4096 + 32 + 64 + SIZE_OF_HEADER_T);
    cmpct_free(&mut ctx, p);
    assert_eq!(ctx.heap.remaining(), remaining);
    cmpct_free(&mut ctx, keep);
}

fn alloc_and_free(ctx: &mut BootContext, size: usize) {
    match cmpct_alloc(ctx, size) {
        None => assert_eq!(size, 0),
        Some(p) => {
            assert!(ctx.heap.is_allocated(p));
            cmpct_free(ctx, p);
            assert!(!ctx.heap.is_allocated(p));
        }
    }
}

#[test]
fn alloc_and_free_of_many_sizes() {
    let mut ctx = heap();
    let keep = cmpct_alloc(&mut ctx, 8).unwrap();
    let remaining = ctx.heap.remaining();
    for size in 0..=32 {
        alloc_and_free(&mut ctx, size);
    }
    for size in 512..=528 {
        alloc_and_free(&mut ctx, size);
    }
    assert_eq!(ctx.heap.remaining(), remaining);
    cmpct_free(&mut ctx, keep);
}

#[test]
fn bundle_alloc() {
    let mut ctx = heap();
    let mut ptrs = Vec::new();
    for i in 0..16 {
        ptrs.push(cmpct_alloc(&mut ctx, i + 16).unwrap());
    }
    for i in 0..16 {
        for j in i + 1..16 {
            assert!(ptrs[i] + i + 16 <= ptrs[j] - SIZE_OF_HEADER_T);
        }
    }
    for p in ptrs {
        cmpct_free(&mut ctx, p);
    }
    assert_eq!(cmpct_alloc(&mut ctx, 16), Some(FIRST + 32));
}
