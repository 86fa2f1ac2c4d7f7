//! The kernel heap: a size-class, boundary-tag, coalescing allocator over
//! memory obtained page-wise from the virtual-region allocator.
use vstd::prelude::*;
use vstd::std_specs::bits::{axiom_u32_leading_zeros, axiom_u64_leading_zeros, u64_leading_zeros};
use crate::align::{lemma_roundup, lemma_roundup_alt, roundup, spec_roundup};
use crate::defines::PAGE_SIZE;
use crate::klib::list::List;
use crate::allocator::VirtualAlloc;
use crate::aspace::VmAspace;
use crate::boot::BootContext;
use crate::errors::ErrNO;
use crate::pmm::PmmNode;
use crate::klib::heap_model::{
    first_view, fresh_view, bytes_within, cached_wf, coalesced, grown, in_heap, lemma_coalesced_wf, lemma_grown_wf,
    lemma_region_added, lemma_region_position, lemma_region_removed, lemma_released_wf,
    lemma_take_finds, lemma_taken_wf, region_position, released, released_to_os, spans_region,
    can_take, dropped, lemma_dropped_wf, lemma_live_kept_trans, lemma_released_live,
    lemma_taken_live, live_at, live_kept, live_kept_but, lemma_region_released_wf,
    lemma_view_counts, region_released, splits_at, sum_blocks, taken, taken_addr, absorbed,
    blocks_wf, bucket_of, extent, find_block, first_nonempty, has_block, has_nonempty, is_live,
    lemma_absorbed_wf, lemma_block_basic, lemma_block_ok, lemma_blocks_ordered, lemma_find_block,
    lemma_first_nonempty, lemma_free_block, lemma_linked_wf, lemma_split_wf, lemma_sum_bounds,
    lemma_unlinked_wf, linked, region_added, region_removed, split_blocks, unlinked, view_wf,
    Block, HeapView, MIN_AREA,
};
use crate::types::vaddr_t;

verus! {

/// The minimum size by which the heap is grown.
pub const HEAP_GROW_SIZE: usize = 262144;

/// Binary logarithm of the size of the largest bucket.
pub const HEAP_ALLOC_VIRTUAL_BITS: usize = 21;

/// Bytes of the header in front of every memory area.
pub const SIZE_OF_HEADER_T: usize = 16;

/// Bytes a free memory area takes at least: its header and its link.
pub const SIZE_OF_FREE_T: usize = 32;

/// Bytes that the two sentinels of an area obtained from the OS take.
pub const HEAP_GROW_OVER_HEAD: usize = 32;

/// The largest area the heap ever asks the OS for, less the sentinels.
pub const HEAP_LARGE_ALLOC_BYTES: usize = 2097120;

/// The number of buckets: 15 of them 8 bytes apart up to 120 bytes, then 8
/// for each power of two.
pub const NUMBER_OF_BUCKETS: usize = 128;

/// The number of 32-bit words that hold one bit per bucket.
pub const BUCKET_WORDS: usize = 4;

/// If the flag of a header has this bit set, the area is free and lives
/// in a bucket.
pub const FREE_BIT: u32 = 1;

/// The largest size that can be allocated.
pub const HEAP_MAX_ALLOC_SIZE: usize = 1048560;

/// `HEAP_GROW_SIZE` less the space the sentinels take.
pub const HEAP_USABLE_GROW_SIZE: usize = 262112;

/// The usable size of the areas in bucket `k`: 8, 16, and so on up to 120
/// for the first 15 buckets, then 8 sizes for each power of two: 128,
/// 144, ..., 240, 256, 288, and so on.
pub open spec fn bucket_size(k: int) -> int
    decreases k,
{
    if k < 15 {
        (k + 1) * 8
    } else if k < 23 {
        (k - 7) * 16
    } else {
        2 * bucket_size(k - 8)
    }
}

/// The bucket that an area of usable size `size` is freed into: the last
/// one whose size is at most `size`.
pub open spec fn spec_size_to_index_freeing(size: int) -> int
    decreases size,
{
    if size < 128 {
        size / 8 - 1
    } else if size < 256 {
        size / 16 + 7
    } else {
        spec_size_to_index_freeing(size / 2) + 8
    }
}

/// The bucket that a request of `size` bytes is allocated from: the first
/// one whose size is at least `size`.
pub open spec fn spec_size_to_index_allocating(size: int) -> int {
    let rounded = spec_roundup(size, 8);
    if rounded <= 128 {
        rounded / 8 - 1
    } else {
        spec_size_to_index_freeing(rounded - 8) + 1
    }
}

/// The usable size a request of `size` bytes is rounded up to: the size of
/// the bucket it is allocated from.
pub open spec fn spec_rounded_size(size: int) -> int {
    bucket_size(spec_size_to_index_allocating(size))
}

/// The sizes of the buckets grow, by at least 8 from one bucket to the
/// next and by at least 16 from bucket 15 on.
pub proof fn lemma_bucket_size_step(k: int)
    requires
        0 <= k,
    ensures
        bucket_size(k) + 8 <= bucket_size(k + 1),
        k >= 15 ==> bucket_size(k) + 16 <= bucket_size(k + 1),
        bucket_size(k) >= 8,
        bucket_size(k) % 8 == 0,
        k >= 15 ==> bucket_size(k) >= 128 && bucket_size(k) % 16 == 0,
    decreases k,
{
    if k >= 23 {
        lemma_bucket_size_step(k - 8);
    } else if k >= 15 {
        if k == 22 {
            assert(bucket_size(23) == 2 * bucket_size(15));
        }
    }
}

/// The sizes of the buckets are monotone.
pub proof fn lemma_bucket_size_mono(a: int, b: int)
    requires
        0 <= a <= b,
    ensures
        bucket_size(a) <= bucket_size(b),
        a < b ==> bucket_size(a) < bucket_size(b),
    decreases b - a,
{
    if a < b {
        lemma_bucket_size_mono(a, b - 1);
        lemma_bucket_size_step(b - 1);
    }
}

/// An area is freed into the last bucket whose size it reaches.
pub proof fn lemma_freeing_bucket(size: int)
    requires
        8 <= size,
    ensures
        0 <= spec_size_to_index_freeing(size),
        size >= 128 ==> spec_size_to_index_freeing(size) >= 15,
        bucket_size(spec_size_to_index_freeing(size)) <= size < bucket_size(
            spec_size_to_index_freeing(size) + 1,
        ),
    decreases size,
{
    if size >= 256 {
        lemma_freeing_bucket(size / 2);
        let k = spec_size_to_index_freeing(size / 2);
        assert(bucket_size(k + 8) == 2 * bucket_size(k));
        assert(bucket_size(k + 9) == 2 * bucket_size(k + 1));
    } else if size >= 128 {
        let k = size / 16 + 7;
        if k == 22 {
            assert(bucket_size(23) == 2 * bucket_size(15));
        }
    }
}

/// Larger areas are freed into later buckets.
pub proof fn lemma_freeing_mono(x: int, y: int)
    requires
        8 <= x <= y,
    ensures
        spec_size_to_index_freeing(x) <= spec_size_to_index_freeing(y),
{
    lemma_freeing_bucket(x);
    lemma_freeing_bucket(y);
    let a = spec_size_to_index_freeing(x);
    let b = spec_size_to_index_freeing(y);
    if a > b {
        lemma_bucket_size_mono(b + 1, a);
    }
}

/// A request is allocated from the first bucket whose size it fits in.
pub proof fn lemma_allocating_bucket(size: int)
    requires
        1 <= size,
    ensures
        0 <= spec_size_to_index_allocating(size),
        size <= spec_roundup(size, 8) <= spec_rounded_size(size),
        spec_size_to_index_allocating(size) > 0 ==> bucket_size(
            spec_size_to_index_allocating(size) - 1,
        ) < spec_roundup(size, 8),
{
    lemma_roundup(size, 8);
    let rounded = spec_roundup(size, 8);
    if rounded > 128 {
        lemma_freeing_bucket(rounded - 8);
        let k = spec_size_to_index_freeing(rounded - 8);
        lemma_bucket_size_step(k);
        lemma_bucket_size_step(k + 1);
    }
}

/// For every size of at least 8 bytes the bucket it is allocated from is
/// not before the bucket it is freed into.
pub proof fn lemma_allocating_not_before_freeing(size: int)
    requires
        8 <= size,
    ensures
        spec_size_to_index_freeing(size) <= spec_size_to_index_allocating(size),
{
    lemma_roundup(size, 8);
    let rounded = spec_roundup(size, 8);
    if rounded <= 128 {
        if size == 128 {
        }
    } else {
        lemma_freeing_mono(size, rounded);
        lemma_freeing_bucket(rounded - 8);
        lemma_freeing_bucket(rounded);
        let k = spec_size_to_index_freeing(rounded - 8);
        lemma_bucket_size_step(k + 1);
        lemma_bucket_size_step(k);
        if spec_size_to_index_freeing(rounded) > k + 1 {
            lemma_bucket_size_mono(k + 2, spec_size_to_index_freeing(rounded));
        }
    }
}

/// Sizes up to `limit` go to buckets up to the one of `limit`.
pub proof fn lemma_bucket_bounds(size: int)
    requires
        8 <= size < 2097152,
    ensures
        spec_size_to_index_freeing(size) < 127,
        size <= HEAP_MAX_ALLOC_SIZE ==> spec_size_to_index_allocating(size) < 127,
{
    lemma_freeing_bucket(size);
    lemma_bucket_top();
    let k = spec_size_to_index_freeing(size);
    if k >= 127 {
        lemma_bucket_size_mono(127, k);
    }
    if size <= HEAP_MAX_ALLOC_SIZE {
        lemma_roundup(size, 8);
        let rounded = spec_roundup(size, 8);
        if rounded > 128 {
            lemma_freeing_bucket(rounded - 8);
            let j = spec_size_to_index_freeing(rounded - 8);
            if j >= 119 {
                lemma_bucket_size_mono(119, j);
            }
        }
    }
}

/// Requests up to the largest one are allocated from buckets up to 119.
pub proof fn lemma_allocating_bound(size: int)
    requires
        1 <= size <= HEAP_MAX_ALLOC_SIZE,
    ensures
        0 <= spec_size_to_index_allocating(size) <= 119,
        spec_rounded_size(size) <= 1048576,
{
    lemma_roundup(size, 8);
    lemma_bucket_top();
    let rounded = spec_roundup(size, 8);
    if rounded > 128 {
        lemma_freeing_bucket(rounded - 8);
        let j = spec_size_to_index_freeing(rounded - 8);
        if j >= 119 {
            lemma_bucket_size_mono(119, j);
        }
    }
    lemma_bucket_size_mono(spec_size_to_index_allocating(size), 119);
}

/// The sizes of buckets 119 and 127.
pub proof fn lemma_bucket_top()
    ensures
        bucket_size(119) == 1048576,
        bucket_size(127) == 2097152,
{
    assert(bucket_size(15) == 128);
    assert(bucket_size(23) == 2 * bucket_size(15));
    assert(bucket_size(31) == 2 * bucket_size(23));
    assert(bucket_size(39) == 2 * bucket_size(31));
    assert(bucket_size(47) == 2 * bucket_size(39));
    assert(bucket_size(55) == 2 * bucket_size(47));
    assert(bucket_size(63) == 2 * bucket_size(55));
    assert(bucket_size(71) == 2 * bucket_size(63));
    assert(bucket_size(79) == 2 * bucket_size(71));
    assert(bucket_size(87) == 2 * bucket_size(79));
    assert(bucket_size(95) == 2 * bucket_size(87));
    assert(bucket_size(103) == 2 * bucket_size(95));
    assert(bucket_size(111) == 2 * bucket_size(103));
    assert(bucket_size(119) == 2 * bucket_size(111));
    assert(bucket_size(127) == 2 * bucket_size(119));
}

/// An area that was freed into a bucket at or behind the one a request is
/// allocated from is large enough for the request.
pub proof fn lemma_bucket_capacity(area: int, request: int)
    requires
        8 <= area,
        1 <= request,
        spec_size_to_index_allocating(request) <= spec_size_to_index_freeing(area),
    ensures
        spec_rounded_size(request) <= area,
{
    lemma_freeing_bucket(area);
    lemma_allocating_bucket(request);
    lemma_bucket_size_mono(
        spec_size_to_index_allocating(request),
        spec_size_to_index_freeing(area),
    );
}

/// With the highest set bit of `x` at position `row + 3`, the bits of `x`
/// from `row` on spell a number from 8 to 15.
proof fn lemma_top_bits(x: u64, row: u64)
    requires
        4 <= row <= 17,
        (x >> (row + 3) as u64) & 1 != 0,
        x >> (row + 4) as u64 == 0,
    ensures
        8 <= (x >> row) < 16,
        (x >> row) & 7 == (x >> row) - 8,
        (row << 3) | ((x >> row) & 7) == row * 8 + ((x >> row) - 8),
        (row == 4) == (x < 256),
        x >= 128,
        row == 4 ==> (x >> row) == x / 16,
        row > 4 ==> (x / 2) >> ((row - 1) as u64) == x >> row && ((x / 2) >> ((row + 2) as u64)) & 1
            != 0 && (x / 2) >> ((row + 3) as u64) == 0,
{
    assert(4 <= row <= 17 && (x >> ((row + 3) as u64)) & 1 != 0 && x >> ((row + 4) as u64) == 0
        ==> 8 <= (x >> row) < 16 && (x >> row) & 7 == (x >> row) - 8 && (row << 3) | ((x >> row)
        & 7) == row * 8 + ((x >> row) - 8) && ((row == 4) == (x < 256)) && x >= 128 && (row == 4
        ==> (x >> row) == x / 16) && (row > 4 ==> (x / 2) >> ((row - 1) as u64) == x >> row && ((x
        / 2) >> ((row + 2) as u64)) & 1 != 0 && (x / 2) >> ((row + 3) as u64) == 0))
        by (bit_vector);
}

/// Where the highest set bit of a number from 128 to below 2^21 lies.
proof fn lemma_leading_zeros_range(x: u64)
    requires
        128 <= x < 0x20_0000,
    ensures
        43 <= u64_leading_zeros(x) <= 56,
        (x >> (63 - u64_leading_zeros(x)) as u64) & 1 != 0,
        x >> (64 - u64_leading_zeros(x)) as u64 == 0,
{
    axiom_u64_leading_zeros(x);
    let lz = u64_leading_zeros(x) as u64;
    assert(x >> ((64 - lz) as u64) == 0 && x >= 128 && lz <= 64 ==> lz <= 56) by (bit_vector);
    assert((x >> ((63 - lz) as u64)) & 1 != 0 && x < 0x20_0000 && lz <= 56 ==> lz >= 43)
        by (bit_vector);
}

/// The bucket an area is freed into, from where its highest set bit lies
/// and the three bits behind it.
proof fn lemma_freeing_index(x: u64, row: u64)
    requires
        4 <= row <= 17,
        (x >> (row + 3) as u64) & 1 != 0,
        x >> (row + 4) as u64 == 0,
    ensures
        spec_size_to_index_freeing(x as int) == (row - 4) * 8 + ((x >> row) - 8) + 15,
    decreases row,
{
    lemma_top_bits(x, row);
    if row > 4 {
        lemma_freeing_index(x / 2, (row - 1) as u64);
    }
}

/// The size that the row and the column of a bucket spell.
proof fn lemma_row_column_size(c: u64, r: u64)
    requires
        c < 8,
        4 <= r <= 18,
    ensures
        (((8 + c) as u64) << r) == bucket_size((r - 4) * 8 + c + 15),
        (((8 + c) as u64) << r) <= 0x40_0000,
    decreases r,
{
    if r == 4 {
        assert(c < 8 ==> (((8 + c) as u64) << 4) == (8 + c) * 16) by (bit_vector);
    } else {
        lemma_row_column_size(c, (r - 1) as u64);
        assert(c < 8 && 4 < r <= 18 ==> (((8 + c) as u64) << r) == 2 * (((8 + c) as u64) << ((r
            - 1) as u64)) && (((8 + c) as u64) << r) <= 0x40_0000) by (bit_vector);
    }
}

/// Splitting the number of a row and column into the two.
proof fn lemma_row_column_split(rc: u64)
    requires
        rc < 256,
    ensures
        rc & 7 == rc % 8,
        rc >> 3 == rc / 8,
{
    assert(rc & 7 == rc % 8 && rc >> 3 == rc / 8) by (bit_vector);
}

/// Computes the bucket for a usable size of at least 8 bytes and below
/// 2^21, and the size of that bucket. With `(0, 0)` for `adjust` and
/// `increment` the size is rounded down to its bucket, as when freeing;
/// with `(-8, 1)` a size that is a multiple of 8 is rounded up, as when
/// allocating.
fn size_to_index_helper(size: usize, adjust: isize, increment: usize) -> (r: (usize, usize))
    requires
        8 <= size < 0x20_0000,
        (adjust == 0 && increment == 0) || (adjust == -8 && increment == 1 && size % 8 == 0),
    ensures
        r.0 < NUMBER_OF_BUCKETS,
        increment == 0 ==> r.0 == spec_size_to_index_freeing(size as int),
        increment == 0 ==> r.1 == (if size <= 128 {
            size as int
        } else {
            bucket_size(r.0 as int)
        }),
        increment == 1 ==> r.0 == spec_size_to_index_allocating(size as int) && r.1
            == spec_rounded_size(size as int),
{
    proof {
        lemma_bucket_bounds(size as int);
        lemma_roundup_alt(size as int, 8);
    }
    // First buckets are simply 8-spaced up to 128.
    if size <= 128 {
        return (size / 8 - 1, size);
    }
    // We are going to go up to the next size to round up, but if we hit a
    // bucket size exactly we don't want to go up. By subtracting 8 here,
    // we will do the right thing.
    let x: u64 = if increment == 0 {
        size as u64
    } else {
        (size - 8) as u64
    };
    // After 128 the buckets are logarithmically spaced, every 16 up to
    // 256, every 32 up to 512 etc. This can be thought of as rows of 8
    // buckets.
    proof {
        lemma_leading_zeros_range(x);
    }
    let row: u64 = 60 - x.leading_zeros() as u64;
    proof {
        lemma_top_bits(x, row);
        lemma_freeing_index(x, row);
    }
    // For row 4 we want to shift down 4 bits.
    let column: u64 = (x >> row) & 7;
    let mut row_column: u64 = (row << 3) | column;
    row_column += increment as u64;
    proof {
        lemma_row_column_split(row_column);
        lemma_row_column_size((row_column % 8) as u64, (row_column / 8) as u64);
    }
    let size: u64 = (8 + (row_column & 7)) << (row_column >> 3);
    // We start with 15 buckets, 8, 16, 24, 32, 40, 48, 56, 64, 72, 80, 88,
    // 96, 104, 112, 120. Then we have row 4, sizes 128 and up, with the
    // row-column 8 and up.
    let answer: u64 = row_column + 15 - 32;
    (answer as usize, size as usize)
}

/// Rounds a size up to the next bucket, as when allocating: the bucket,
/// and the size of the bucket.
pub fn size_to_index_allocating(size: usize) -> (r: (usize, usize))
    requires
        1 <= size <= HEAP_MAX_ALLOC_SIZE,
    ensures
        r.0 == spec_size_to_index_allocating(size as int),
        r.1 == spec_rounded_size(size as int),
        r.0 < NUMBER_OF_BUCKETS - 1,
        size <= r.1 <= 0x10_0000,
{
    proof {
        lemma_roundup(size as int, 8);
        lemma_roundup(spec_roundup(size as int, 8), 8);
        lemma_allocating_bucket(size as int);
        lemma_allocating_bound(size as int);
    }
    let rounded = roundup(size, 8);
    size_to_index_helper(rounded, -8, 1)
}

/// Rounds a size down to its bucket, as when freeing.
pub fn size_to_index_freeing(size: usize) -> (bucket: usize)
    requires
        8 <= size < 0x20_0000,
    ensures
        bucket == spec_size_to_index_freeing(size as int),
        bucket < NUMBER_OF_BUCKETS - 1,
{
    proof {
        lemma_bucket_bounds(size as int);
    }
    let (bucket, _) = size_to_index_helper(size, 0, 0);
    bucket
}

/// The header in front of every memory area.
#[derive(Clone, Copy, Debug)]
pub struct header_t {
    /// Where the header lies.
    addr: vaddr_t,
    /// The previous area in memory order, or 0.
    left: vaddr_t,
    /// The size of the memory area in bytes, including this header. The
    /// right sentinel has 0 in this field.
    size: usize,
    /// Extra state: see `FREE_BIT`.
    flag: u32,
}

impl View for header_t {
    type V = Block;

    closed spec fn view(&self) -> Block {
        Block {
            addr: self.addr as int,
            left: self.left as int,
            size: self.size as int,
            free: self.flag == FREE_BIT,
        }
    }
}

impl header_t {
    /// The flag is one of the two values that are in use.
    pub closed spec fn flag_wf(&self) -> bool {
        self.flag == 0 || self.flag == FREE_BIT
    }

    /// The size of the memory area in bytes, including the header.
    pub fn size(&self) -> (r: usize)
        ensures
            r == self@.size,
    {
        self.size
    }
}

/// Bit `index` of the bitmask of nonempty buckets. The buckets are
/// counted from the most significant bit of each word on.
pub open spec fn bucket_bit(bits: Seq<u32>, index: int) -> bool {
    word_bit(bits[index / 32], index % 32)
}

/// Bit `c` of a word of the bitmask, counted from the most significant
/// bit on.
pub open spec fn word_bit(word: u32, c: int) -> bool {
    (word >> ((31 - c) as u32)) & 1 == 1
}

proof fn lemma_u32_set_bit(w: u32, k: u32, j: u32)
    requires
        k < 32,
        j < 32,
    ensures
        ((w | (1u32 << k)) >> j) & 1 == 1 <==> (j == k || (w >> j) & 1 == 1),
        ((w & !(1u32 << k)) >> j) & 1 == 1 <==> (j != k && (w >> j) & 1 == 1),
{
    assert(k < 32 && j < 32 ==> ((((w | (1u32 << k)) >> j) & 1 == 1) <==> (j == k || (w >> j) & 1
        == 1)) && ((((w & !(1u32 << k)) >> j) & 1 == 1) <==> (j != k && (w >> j) & 1 == 1)))
        by (bit_vector);
}

proof fn lemma_u32_low_mask(w: u32, k: u32, j: u32, low: u32, mask: u32)
    requires
        k < 32,
        j < 32,
        low == (1u32 << k) - 1,
        mask == low * 2 + 1,
    ensures
        ((mask & w) >> j) & 1 == 1 <==> (j <= k && (w >> j) & 1 == 1),
{
    assert(((mask & w) >> j) & 1 == 1 <==> (j <= k && (w >> j) & 1 == 1)) by (bit_vector)
        requires
            k < 32,
            j < 32,
            low == (1u32 << k) - 1,
            mask == low * 2 + 1,
    ;
}

proof fn lemma_u32_low_fits(k: u32)
    requires
        k < 32,
    ensures
        (1u32 << k) >= 1,
        ((1u32 << k) - 1) * 2 + 1 <= 0xffff_ffff,
{
    assert(k < 32 ==> (1u32 << k) >= 1 && ((1u32 << k) - 1) * 2 + 1 <= 0xffff_ffff)
        by (bit_vector);
}

proof fn lemma_u32_zero(j: u32)
    requires
        j < 32,
    ensures
        (0u32 >> j) & 1 == 0,
{
    assert((0u32 >> j) & 1 == 0) by (bit_vector);
}

proof fn lemma_u32_bit_low(x: u32)
    ensures
        x & 1 == 0 || x & 1 == 1,
{
    assert(x & 1 == 0 || x & 1 == 1) by (bit_vector);
}

/// In a word of the bitmask, finds the first bucket at or behind `from`
/// whose bit is set.
fn first_bit_from(word: u32, from: u32) -> (r: Option<u32>)
    requires
        from < 32,
    ensures
        r is Some ==> from <= r->Some_0 < 32 && word_bit(word, r->Some_0 as int) && forall|c: int|
            from <= c < r->Some_0 ==> !#[trigger] word_bit(word, c),
        r is None ==> forall|c: int| from <= c < 32 ==> !#[trigger] word_bit(word, c),
{
    let k: u32 = 31 - from;
    proof {
        lemma_u32_low_fits(k);
    }
    let low: u32 = (1u32 << k) - 1;
    let full: u32 = low * 2 + 1;
    let mask: u32 = full & word;
    if mask != 0 {
        let lz = mask.leading_zeros();
        proof {
            axiom_u32_leading_zeros(mask);
            let p = (31 - lz) as u32;
            lemma_u32_bit_low(mask >> p);
            lemma_u32_low_mask(word, k, p, low, full);
            assert forall|c: int| from <= c < lz implies !#[trigger] word_bit(word, c) by {
                let j = (31 - c) as u32;
                lemma_u32_low_mask(word, k, j, low, full);
                assert((mask >> j) & 1u32 == 0u32);
            }
        }
        return Some(lz);
    }
    proof {
        assert forall|c: int| from <= c < 32 implies !#[trigger] word_bit(word, c) by {
            let j = (31 - c) as u32;
            lemma_u32_low_mask(word, k, j, low, full);
            lemma_u32_zero(j);
        }
    }
    None
}

/// The byte at `a` lies on a page of the region of `valloc` that is
/// allocated, behind the pages of its bitmap.
pub open spec fn covers(valloc: &VirtualAlloc, a: int) -> bool {
    let k = (a - valloc.spec_alloc_base()) / (PAGE_SIZE as int);
    &&& valloc.spec_alloc_base() != 0
    &&& valloc.spec_alloc_base() <= a
    &&& valloc.spec_bitmap_pages() <= k < valloc.bits().len()
    &&& valloc.bits()[k]
}

/// The heap lives in memory that `valloc` handed out: every byte of an
/// area of the heap, and of the area held back for reuse, lies on an
/// allocated page of the region of `valloc`.
pub open spec fn hosted(v: HeapView, valloc: &VirtualAlloc) -> bool {
    &&& forall|a: int| #[trigger] in_heap(v.blocks, a) ==> covers(valloc, a)
    &&& v.cached is Some ==> forall|a: int|
        v.cached->Some_0.0 <= a < v.cached->Some_0.0 + v.cached->Some_0.1 ==> #[trigger] covers(
            valloc,
            a,
        )
}

/// The pages of a page-aligned range whose bytes are all covered are
/// allocated pages behind the bitmap, so that the range can be released.
pub proof fn lemma_covered_range(valloc: &VirtualAlloc, base: int, total: int)
    requires
        valloc.wf(),
        base % (PAGE_SIZE as int) == 0,
        total % (PAGE_SIZE as int) == 0,
        total >= PAGE_SIZE,
        0 < base,
        base + total <= usize::MAX,
        forall|a: int| base <= a < base + total ==> #[trigger] covers(valloc, a),
    ensures
        valloc.free_pages_error(base as usize, (total / (PAGE_SIZE as int)) as usize) is None,
        valloc.page_index(base as usize) + total / (PAGE_SIZE as int) <= valloc.bits().len(),
        valloc.page_va(valloc.page_index(base as usize)) == base,
{
    assert(covers(valloc, base));
    assert(covers(valloc, base + total - 1));
    let vb = valloc.spec_alloc_base() as int;
    let s = (base - vb) / (PAGE_SIZE as int);
    let pages = total / (PAGE_SIZE as int);
    assert(base - vb == s * PAGE_SIZE);
    assert((base + total - 1 - vb) / (PAGE_SIZE as int) == s + pages - 1);
    assert forall|k: int| s <= k < s + pages implies valloc.bits()[k] by {
        let a = vb + k * PAGE_SIZE;
        assert(covers(valloc, a));
        assert((a - vb) / (PAGE_SIZE as int) == k);
    }
}

/// A heap that shares no byte with a range stays hosted when the pages
/// of that range are released.
pub proof fn lemma_hosted_shrink(
    v: HeapView,
    valloc: &VirtualAlloc,
    after: &VirtualAlloc,
    base: int,
    total: int,
)
    requires
        valloc.wf(),
        hosted(v, valloc),
        base % (PAGE_SIZE as int) == 0,
        total % (PAGE_SIZE as int) == 0,
        total >= PAGE_SIZE,
        valloc.spec_alloc_base() <= base,
        base + total <= usize::MAX,
        forall|a: int| #[trigger] in_heap(v.blocks, a) ==> !(base <= a < base + total),
        v.cached is Some ==> base + total <= v.cached->Some_0.0 || v.cached->Some_0.0
            + v.cached->Some_0.1 <= base,
        after.spec_alloc_base() == valloc.spec_alloc_base(),
        after.spec_bitmap_pages() == valloc.spec_bitmap_pages(),
        after.bits() == valloc.bits_with(
            valloc.page_index(base as usize),
            valloc.page_index(base as usize) + total / (PAGE_SIZE as int),
            false,
        ),
    ensures
        hosted(v, after),
{
    let vb = valloc.spec_alloc_base() as int;
    let s = (base - vb) / (PAGE_SIZE as int);
    let pages = total / (PAGE_SIZE as int);
    assert(valloc.page_index(base as usize) == s);
    assert forall|a: int| covers(valloc, a) && !(base <= a < base + total) implies covers(
        after,
        a,
    ) by {
        let k = (a - vb) / (PAGE_SIZE as int);
        assert(base - vb == s * PAGE_SIZE);
        if s <= k < s + pages {
            assert(false);
        }
    }
    assert forall|a: int| #[trigger] in_heap(v.blocks, a) implies covers(after, a) by {
        assert(covers(valloc, a));
    }
    if v.cached is Some {
        assert forall|a: int|
            v.cached->Some_0.0 <= a < v.cached->Some_0.0 + v.cached->Some_0.1 implies #[trigger] covers(
            after,
            a,
        ) by {
            assert(covers(valloc, a));
        }
    }
}

/// A heap stays hosted when more of the region is allocated, and a
/// page-aligned range of newly allocated pages is covered.
pub proof fn lemma_hosted_grow(
    v: HeapView,
    valloc: &VirtualAlloc,
    after: &VirtualAlloc,
    s: int,
    pages: int,
)
    requires
        valloc.wf(),
        after.wf(),
        hosted(v, valloc),
        valloc.spec_alloc_base() != 0,
        after.spec_alloc_base() == valloc.spec_alloc_base(),
        after.spec_bitmap_pages() == valloc.spec_bitmap_pages(),
        valloc.spec_bitmap_pages() <= s,
        0 < pages,
        s + pages <= valloc.bits().len(),
        forall|k: int| s <= k < s + pages ==> !valloc.bits()[k],
        after.bits() == valloc.bits_with(s, s + pages, true),
    ensures
        hosted(v, after),
        forall|a: int|
            valloc.page_va(s) <= a < valloc.page_va(s) + pages * PAGE_SIZE ==> #[trigger] covers(
                after,
                a,
            ) && !covers(valloc, a),
{
    let vb = valloc.spec_alloc_base() as int;
    assert forall|a: int| covers(valloc, a) implies covers(after, a) by {}
    assert forall|a: int| #[trigger] in_heap(v.blocks, a) implies covers(after, a) by {
        assert(covers(valloc, a));
    }
    if v.cached is Some {
        assert forall|a: int|
            v.cached->Some_0.0 <= a < v.cached->Some_0.0 + v.cached->Some_0.1 implies #[trigger] covers(
            after,
            a,
        ) by {
            assert(covers(valloc, a));
        }
    }
    assert forall|a: int|
        valloc.page_va(s) <= a < valloc.page_va(s) + pages * PAGE_SIZE implies #[trigger] covers(
        after,
        a,
    ) && !covers(valloc, a) by {
        let k = (a - vb) / (PAGE_SIZE as int);
        assert(s <= k < s + pages);
    }
}

/// The heap: the memory areas in the order in which they lie in memory,
/// the free lists, and the counts.
pub struct Heap {
    /// Total bytes allocated from the OS for the heap.
    size: usize,
    /// Bytes of usable free space in the heap.
    remaining: usize,
    /// An area obtained from the OS that could have been returned to it
    /// but was not: where it starts and how many bytes it has. It is used
    /// before more memory is obtained from the OS, to reduce churn.
    cached_os_alloc: Option<(vaddr_t, usize)>,
    /// Free lists, bucketed by size.
    free_lists: Vec<List<header_t>>,
    /// Bitmask that tracks whether a given free list has any elements.
    free_list_bits: Vec<u32>,
    /// The headers of all memory areas, in the order of their addresses.
    blocks: Vec<header_t>,
}

impl View for Heap {
    type V = HeapView;

    closed spec fn view(&self) -> HeapView {
        HeapView {
            blocks: Seq::new(self.blocks@.len(), |i: int| self.blocks@[i]@),
            lists: Seq::new(self.free_lists@.len(), |b: int| self.free_lists@[b]@),
            cached: match self.cached_os_alloc {
                Some((c, cs)) => Some((c as int, cs as int)),
                None => None,
            },
            size: self.size as int,
            remaining: self.remaining as int,
        }
    }
}

impl Heap {
    /// The heap has a list and a bit for each bucket, the lists are ready
    /// for use, each bit says whether the list of its bucket has an
    /// element, and every header carries one of the two flags in use.
    pub closed spec fn shape(&self) -> bool {
        &&& self.free_lists@.len() == NUMBER_OF_BUCKETS
        &&& self.free_list_bits@.len() == BUCKET_WORDS
        &&& forall|b: int|
            0 <= b < NUMBER_OF_BUCKETS ==> (#[trigger] self.free_lists@[b]).spec_is_initialized()
                && bucket_bit(self.free_list_bits@, b) == (self.free_lists@[b]@.len() > 0)
        &&& forall|i: int| 0 <= i < self.blocks@.len() ==> (#[trigger] self.blocks@[i]).flag_wf()
    }

    /// The heap is sound.
    pub open spec fn wf(&self) -> bool {
        self.shape() && view_wf(self@)
    }

    /// A heap without memory, not ready for use yet.
    pub fn new() -> (r: Self)
        ensures
            r@.blocks.len() == 0,
            r@.lists.len() == 0,
            r@.cached is None,
            r@.size == 0,
            r@.remaining == 0,
            !r.wf(),
    {
        Self {
            size: 0,
            remaining: 0,
            cached_os_alloc: None,
            free_lists: Vec::new(),
            free_list_bits: Vec::new(),
            blocks: Vec::new(),
        }
    }

    /// Gives the heap its free lists, all empty.
    fn init_lists(&mut self)
        requires
            old(self)@.blocks.len() == 0,
            old(self)@.cached is None,
            old(self)@.size == 0,
            old(self)@.remaining == 0,
        ensures
            final(self).wf(),
            final(self)@.blocks.len() == 0,
            final(self)@.cached is None,
            final(self)@.size == 0,
            final(self)@.remaining == 0,
            final(self)@.lists == Seq::new(NUMBER_OF_BUCKETS as nat, |b: int| Seq::<usize>::empty()),
    {
        let mut lists: Vec<List<header_t>> = Vec::new();
        let mut i: usize = 0;
        while i < NUMBER_OF_BUCKETS
            invariant
                i <= NUMBER_OF_BUCKETS,
                lists@.len() == i,
                forall|b: int|
                    0 <= b < i ==> (#[trigger] lists@[b]).spec_is_initialized() && lists@[b]@.len()
                        == 0,
            decreases NUMBER_OF_BUCKETS - i,
        {
            let mut l = List::<header_t>::new();
            l.init();
            lists.push(l);
            i += 1;
        }
        let mut bits: Vec<u32> = Vec::new();
        bits.push(0);
        bits.push(0);
        bits.push(0);
        bits.push(0);
        self.free_lists = lists;
        self.free_list_bits = bits;
        proof {
            assert forall|b: int| 0 <= b < NUMBER_OF_BUCKETS implies !bucket_bit(
                self.free_list_bits@,
                b,
            ) by {
                lemma_u32_zero((31 - b % 32) as u32);
            }
            assert forall|b: int| 0 <= b < NUMBER_OF_BUCKETS implies #[trigger] self@.lists[b]
                =~= Seq::<usize>::empty() by {
                assert(self.free_lists@[b]@.len() == 0);
            }
            assert(self@.lists =~= Seq::new(
                NUMBER_OF_BUCKETS as nat,
                |b: int| Seq::<usize>::empty(),
            ));
            assert(self@.blocks =~= Seq::<Block>::empty());
            crate::klib::heap_model::lemma_empty_wf(self@);
        }
    }

    /// Sets the bit of the bucket `index` in the bitmask.
    fn set_free_list_bit(&mut self, index: usize)
        requires
            index < NUMBER_OF_BUCKETS,
            old(self).free_list_bits@.len() == BUCKET_WORDS,
        ensures
            final(self).free_list_bits@.len() == BUCKET_WORDS,
            final(self).free_lists == old(self).free_lists,
            final(self).blocks == old(self).blocks,
            final(self).size == old(self).size,
            final(self).remaining == old(self).remaining,
            final(self).cached_os_alloc == old(self).cached_os_alloc,
            forall|b: int|
                0 <= b < NUMBER_OF_BUCKETS ==> #[trigger] bucket_bit(final(self).free_list_bits@, b)
                    == (b == index || bucket_bit(old(self).free_list_bits@, b)),
    {
        let word = self.free_list_bits[index / 32];
        let k: u32 = 31 - (index % 32) as u32;
        let updated = word | (1u32 << k);
        self.free_list_bits[index / 32] = updated;
        proof {
            assert forall|b: int| 0 <= b < NUMBER_OF_BUCKETS implies #[trigger] bucket_bit(
                self.free_list_bits@,
                b,
            ) == (b == index || bucket_bit(old(self).free_list_bits@, b)) by {
                if b / 32 == index / 32 {
                    lemma_u32_set_bit(word, k, (31 - b % 32) as u32);
                }
            }
        }
    }

    /// Clears the bit of the bucket `index` in the bitmask.
    fn clear_free_list_bit(&mut self, index: usize)
        requires
            index < NUMBER_OF_BUCKETS,
            old(self).free_list_bits@.len() == BUCKET_WORDS,
        ensures
            final(self).free_list_bits@.len() == BUCKET_WORDS,
            final(self).free_lists == old(self).free_lists,
            final(self).blocks == old(self).blocks,
            final(self).size == old(self).size,
            final(self).remaining == old(self).remaining,
            final(self).cached_os_alloc == old(self).cached_os_alloc,
            forall|b: int|
                0 <= b < NUMBER_OF_BUCKETS ==> #[trigger] bucket_bit(final(self).free_list_bits@, b)
                    == (b != index && bucket_bit(old(self).free_list_bits@, b)),
    {
        let word = self.free_list_bits[index / 32];
        let k: u32 = 31 - (index % 32) as u32;
        let updated = word & !(1u32 << k);
        self.free_list_bits[index / 32] = updated;
        proof {
            assert forall|b: int| 0 <= b < NUMBER_OF_BUCKETS implies #[trigger] bucket_bit(
                self.free_list_bits@,
                b,
            ) == (b != index && bucket_bit(old(self).free_list_bits@, b)) by {
                if b / 32 == index / 32 {
                    lemma_u32_set_bit(word, k, (31 - b % 32) as u32);
                }
            }
        }
    }

    /// Finds the first bucket at or behind `index` that has a free area.
    fn find_nonempty_bucket(&self, index: usize) -> (r: Result<usize, ErrNO>)
        requires
            self.shape(),
            index < NUMBER_OF_BUCKETS,
        ensures
            r is Ok <==> has_nonempty(self@.lists, index as int),
            r is Ok ==> r->Ok_0 == first_nonempty(self@.lists, index as int) && index <= r->Ok_0
                < NUMBER_OF_BUCKETS && self@.lists[r->Ok_0 as int].len() > 0,
            r is Err ==> r == Err::<usize, ErrNO>(ErrNO::NotFound),
    {
        let first = index / 32;
        match first_bit_from(self.free_list_bits[first], (index % 32) as u32) {
            Some(c) => {
                let found = first * 32 + c as usize;
                proof {
                    assert(bucket_bit(self.free_list_bits@, found as int));
                    assert forall|b: int| index <= b < found implies (#[trigger] self@.lists[b]).len()
                        == 0 by {
                        assert(!word_bit(self.free_list_bits@[first as int], b % 32));
                        assert(!bucket_bit(self.free_list_bits@, b));
                        assert(self.free_lists@[b].spec_is_initialized());
                    }
                    assert(self.free_lists@[found as int].spec_is_initialized());
                    lemma_first_nonempty(self@.lists, index as int, found as int);
                }
                return Ok(found);
            },
            None => {},
        }
        let mut i = first + 1;
        while i < BUCKET_WORDS
            invariant
                self.shape(),
                first < i <= BUCKET_WORDS,
                first == index / 32,
                index < NUMBER_OF_BUCKETS,
                forall|b: int| index <= b < i * 32 ==> (#[trigger] self@.lists[b]).len() == 0,
            decreases BUCKET_WORDS - i,
        {
            match first_bit_from(self.free_list_bits[i], 0) {
                Some(c) => {
                    let found = i * 32 + c as usize;
                    proof {
                        assert(bucket_bit(self.free_list_bits@, found as int));
                        assert forall|b: int| index <= b < found implies (
                        #[trigger] self@.lists[b]).len() == 0 by {
                            if b >= i * 32 {
                                assert(!word_bit(self.free_list_bits@[i as int], b % 32));
                                assert(!bucket_bit(self.free_list_bits@, b));
                                assert(self.free_lists@[b].spec_is_initialized());
                            }
                        }
                        assert(self.free_lists@[found as int].spec_is_initialized());
                        lemma_first_nonempty(self@.lists, index as int, found as int);
                    }
                    return Ok(found);
                },
                None => {
                    proof {
                        assert forall|b: int| index <= b < (i + 1) * 32 implies (
                        #[trigger] self@.lists[b]).len() == 0 by {
                            if b >= i * 32 {
                                assert(!word_bit(self.free_list_bits@[i as int], b % 32));
                                assert(!bucket_bit(self.free_list_bits@, b));
                                assert(self.free_lists@[b].spec_is_initialized());
                            }
                        }
                    }
                },
            }
            i += 1;
        }
        Err(ErrNO::NotFound)
    }

    /// The position of the header that lies at `addr`, if there is one.
    fn block_index(&self, addr: vaddr_t) -> (r: Option<usize>)
        requires
            blocks_wf(self@.blocks),
        ensures
            r is Some <==> has_block(self@.blocks, addr as int),
            r is Some ==> r->Some_0 < self@.blocks.len() && r->Some_0 == find_block(
                self@.blocks,
                addr as int,
            ) && self@.blocks[r->Some_0 as int].addr == addr,
    {
        let mut lo: usize = 0;
        let mut hi: usize = self.blocks.len();
        while lo < hi
            invariant
                lo <= hi <= self.blocks@.len(),
                blocks_wf(self@.blocks),
                forall|k: int| 0 <= k < lo ==> (#[trigger] self@.blocks[k]).addr < addr,
                forall|k: int| hi <= k < self.blocks@.len() ==> (#[trigger] self@.blocks[k]).addr > addr,
            decreases hi - lo,
        {
            let mid = lo + (hi - lo) / 2;
            let a = self.blocks[mid].addr;
            assert(a == self@.blocks[mid as int].addr);
            if a == addr {
                proof {
                    lemma_find_block(self@.blocks, mid as int);
                }
                return Some(mid);
            } else if a < addr {
                proof {
                    assert forall|k: int| 0 <= k < mid + 1 implies (#[trigger] self@.blocks[k]).addr
                        < addr by {
                        if k < mid {
                            lemma_blocks_ordered(self@.blocks, k, mid as int);
                        }
                    }
                }
                lo = mid + 1;
            } else {
                proof {
                    assert forall|k: int| mid <= k < self.blocks@.len() implies (
                    #[trigger] self@.blocks[k]).addr > addr by {
                        if k > mid {
                            lemma_blocks_ordered(self@.blocks, mid as int, k);
                        }
                    }
                }
                hi = mid;
            }
        }
        proof {
            if has_block(self@.blocks, addr as int) {
                let k = find_block(self@.blocks, addr as int);
                assert(self@.blocks[k].addr == addr);
            }
        }
        None
    }

    /// The bucket that a free area of `size` bytes, header included, lives
    /// in.
    fn bucket_for(size: usize) -> (r: usize)
        requires
            size >= MIN_AREA,
        ensures
            r == bucket_of(size as int),
            r < NUMBER_OF_BUCKETS,
    {
        if size - SIZE_OF_HEADER_T >= 0x20_0000 {
            NUMBER_OF_BUCKETS - 1
        } else {
            size_to_index_freeing(size - SIZE_OF_HEADER_T)
        }
    }

    /// Takes the free area at position `i` off the list of its bucket and
    /// marks it as in use.
    fn unlink_free(&mut self, i: usize)
        requires
            old(self).wf(),
            i < old(self)@.blocks.len(),
            old(self)@.blocks[i as int].free,
        ensures
            final(self).wf(),
            final(self)@ == unlinked(old(self)@, i as int),
    {
        proof {
            lemma_free_block(self@, i as int);
            lemma_unlinked_wf(self@, i as int);
            lemma_sum_bounds(self@.blocks, i as int);
            lemma_block_basic(self@.blocks, i as int);
        }
        let size = self.blocks[i].size;
        let addr = self.blocks[i].addr;
        let bucket = Self::bucket_for(size);
        self.remaining = self.remaining - size;
        let ghost before = self.free_lists@[bucket as int]@;
        let found = self.free_lists[bucket].delete(addr);
        let mut header = self.blocks[i];
        header.flag = 0;
        self.blocks[i] = header;
        let ghost mid = *self;
        if self.free_lists[bucket].empty() {
            self.clear_free_list_bit(bucket);
        }
        proof {
            assert(self@.blocks =~= unlinked(old(self)@, i as int).blocks);
            assert(self@.lists =~= unlinked(old(self)@, i as int).lists) by {
                assert forall|b: int| 0 <= b < NUMBER_OF_BUCKETS implies #[trigger] self@.lists[b]
                    == unlinked(old(self)@, i as int).lists[b] by {
                    if b != bucket {
                        assert(self.free_lists@[b] == old(self).free_lists@[b]);
                    }
                }
            }
            assert forall|b: int| 0 <= b < NUMBER_OF_BUCKETS implies (
            #[trigger] self.free_lists@[b]).spec_is_initialized() && bucket_bit(
                self.free_list_bits@,
                b,
            ) == (self.free_lists@[b]@.len() > 0) by {
                if b != bucket {
                    assert(self.free_lists@[b] == old(self).free_lists@[b]);
                    assert(bucket_bit(mid.free_list_bits@, b) == bucket_bit(
                        old(self).free_list_bits@,
                        b,
                    ));
                } else {
                    assert(bucket_bit(old(self).free_list_bits@, b));
                }
            }
            assert forall|k: int| 0 <= k < self.blocks@.len() implies (
            #[trigger] self.blocks@[k]).flag_wf() by {
                if k != i {
                    assert(self.blocks@[k] == old(self).blocks@[k]);
                }
            }
        }
    }

    /// Marks the area at position `i`, which is in use, as free and puts
    /// it at the head of the list of its bucket.
    fn create_free_area(&mut self, i: usize)
        requires
            old(self).wf(),
            0 < i < old(self)@.blocks.len() - 1,
            !old(self)@.blocks[i as int].free,
            old(self)@.blocks[i as int].left != 0,
            old(self)@.blocks[i as int].size >= MIN_AREA,
            !old(self)@.blocks[i - 1].free,
            !old(self)@.blocks[i + 1].free,
        ensures
            final(self).wf(),
            final(self)@ == linked(old(self)@, i as int),
    {
        proof {
            lemma_linked_wf(self@, i as int);
            let w = linked(self@, i as int);
            lemma_sum_bounds(w.blocks, i as int);
            lemma_block_basic(self@.blocks, i as int);
        }
        let size = self.blocks[i].size;
        let addr = self.blocks[i].addr;
        let bucket = Self::bucket_for(size);
        let mut header = self.blocks[i];
        header.flag = FREE_BIT;
        self.blocks[i] = header;
        self.free_lists[bucket].add_head(addr);
        self.remaining = self.remaining + size;
        let ghost mid = *self;
        self.set_free_list_bit(bucket);
        proof {
            assert(self@.blocks =~= linked(old(self)@, i as int).blocks);
            assert(self@.lists =~= linked(old(self)@, i as int).lists) by {
                assert forall|b: int| 0 <= b < NUMBER_OF_BUCKETS implies #[trigger] self@.lists[b]
                    == linked(old(self)@, i as int).lists[b] by {
                    if b != bucket {
                        assert(self.free_lists@[b] == old(self).free_lists@[b]);
                    }
                }
            }
            assert forall|b: int| 0 <= b < NUMBER_OF_BUCKETS implies (
            #[trigger] self.free_lists@[b]).spec_is_initialized() && bucket_bit(
                self.free_list_bits@,
                b,
            ) == (self.free_lists@[b]@.len() > 0) by {
                if b != bucket {
                    assert(self.free_lists@[b] == old(self).free_lists@[b]);
                    assert(bucket_bit(mid.free_list_bits@, b) == bucket_bit(
                        old(self).free_list_bits@,
                        b,
                    ));
                }
            }
            assert forall|k: int| 0 <= k < self.blocks@.len() implies (
            #[trigger] self.blocks@[k]).flag_wf() by {
                if k != i {
                    assert(self.blocks@[k] == old(self).blocks@[k]);
                }
            }
        }
    }

    /// Cuts the area at position `i`, which is in use, to `size` bytes and
    /// makes a new area in use of the rest.
    fn split(&mut self, i: usize, size: usize)
        requires
            old(self).wf(),
            i < old(self)@.blocks.len(),
            !old(self)@.blocks[i as int].free,
            old(self)@.blocks[i as int].left != 0,
            old(self)@.blocks[i as int].size > 0,
            size % 8 == 0,
            MIN_AREA <= size,
            old(self)@.blocks[i as int].size - size >= MIN_AREA,
        ensures
            final(self).wf(),
            final(self)@ == (HeapView {
                blocks: split_blocks(old(self)@.blocks, i as int, size as int),
                ..old(self)@
            }),
    {
        proof {
            lemma_split_wf(self@, i as int, size as int);
            lemma_block_ok(self@.blocks, i as int);
            lemma_block_basic(self@.blocks, i as int);
        }
        let n = self.blocks.len();
        assert(i + 1 < n);
        let b = self.blocks[i];
        let mut first = b;
        first.size = size;
        let rest = header_t { addr: b.addr + size, left: b.addr, size: b.size - size, flag: 0 };
        let mut right = self.blocks[i + 1];
        right.left = b.addr + size;
        self.blocks[i] = first;
        self.blocks.insert(i + 1, rest);
        self.blocks[i + 2] = right;
        proof {
            assert(self@.blocks =~= split_blocks(old(self)@.blocks, i as int, size as int));
            assert(self@.lists =~= old(self)@.lists);
            assert forall|k: int| 0 <= k < self.blocks@.len() implies (
            #[trigger] self.blocks@[k]).flag_wf() by {
                if k < i {
                    assert(self.blocks@[k] == old(self).blocks@[k]);
                } else if k > i + 2 {
                    assert(self.blocks@[k] == old(self).blocks@[k - 1]);
                } else {
                    assert(old(self).blocks@[i as int].flag_wf());
                    assert(old(self).blocks@[i + 1].flag_wf());
                }
            }
        }
    }

    /// Lets the area at position `i` take in the area behind it; both are
    /// in use.
    fn absorb(&mut self, i: usize)
        requires
            old(self).wf(),
            i + 1 < old(self)@.blocks.len(),
            !old(self)@.blocks[i as int].free,
            old(self)@.blocks[i as int].left != 0,
            old(self)@.blocks[i as int].size > 0,
            !old(self)@.blocks[i + 1].free,
            old(self)@.blocks[i + 1].size > 0,
        ensures
            final(self).wf(),
            final(self)@ == (HeapView {
                blocks: absorbed(old(self)@.blocks, i as int),
                ..old(self)@
            }),
    {
        proof {
            lemma_absorbed_wf(self@, i as int);
            lemma_block_ok(self@.blocks, i as int);
            lemma_block_ok(self@.blocks, i + 1);
            lemma_block_basic(self@.blocks, i + 1);
        }
        let n = self.blocks.len();
        assert(i + 2 < n);
        let b = self.blocks[i];
        let next = self.blocks[i + 1];
        let mut merged = b;
        merged.size = b.size + next.size;
        let mut right = self.blocks[i + 2];
        right.left = b.addr;
        self.blocks[i] = merged;
        self.blocks.remove(i + 1);
        self.blocks[i + 1] = right;
        proof {
            assert(self@.blocks =~= absorbed(old(self)@.blocks, i as int));
            assert(self@.lists =~= old(self)@.lists);
            assert forall|k: int| 0 <= k < self.blocks@.len() implies (
            #[trigger] self.blocks@[k]).flag_wf() by {
                if k < i {
                    assert(self.blocks@[k] == old(self).blocks@[k]);
                } else if k > i + 1 {
                    assert(self.blocks@[k] == old(self).blocks@[k + 1]);
                } else {
                    assert(old(self).blocks@[i as int].flag_wf());
                    assert(old(self).blocks@[i + 2].flag_wf());
                }
            }
        }
    }

    /// Serves a request of `size` bytes from the free lists, some bucket
    /// at or behind the one of the request having a free area: the first
    /// area of the first such bucket is taken, and split if what it has
    /// beyond the request is worth keeping. Returns where the bytes of the
    /// allocation start.
    fn take(&mut self, size: usize) -> (ptr: vaddr_t)
        requires
            old(self).wf(),
            1 <= size <= HEAP_MAX_ALLOC_SIZE,
            has_nonempty(old(self)@.lists, spec_size_to_index_allocating(size as int)),
        ensures
            final(self).wf(),
            final(self)@ == taken(old(self)@, size as int),
            ptr == taken_addr(old(self)@, size as int),
    {
        proof {
            lemma_take_finds(self@, size as int);
            lemma_taken_wf(self@, size as int);
        }
        let (start_bucket, rounded) = size_to_index_allocating(size);
        let rounded_up = rounded + SIZE_OF_HEADER_T;
        let bucket = self.find_nonempty_bucket(start_bucket).unwrap();
        assert(self.free_lists@[bucket as int].spec_is_initialized());
        let head = self.free_lists[bucket].head().unwrap();
        assert(head == self@.lists[bucket as int][0]);
        let i = self.block_index(head).unwrap();
        proof {
            lemma_block_basic(self@.blocks, i as int);
        }
        let left_over = self.blocks[i].size - rounded_up;
        self.unlink_free(i);
        // We can't carve off the rest for a new free space if it's smaller
        // than the free-list linked structure. We also don't carve it off
        // if it's less than 1.6% the size of the allocation. This is to
        // avoid small long-lived allocations being placed right next to
        // large allocations, hindering coalescing and returning pages to
        // the OS.
        if left_over >= SIZE_OF_FREE_T && left_over > size / 64 {
            proof {
                lemma_block_ok(old(self)@.blocks, i as int);
                lemma_block_ok(old(self)@.blocks, i + 1);
                lemma_split_wf(self@, i as int, rounded_up as int);
                crate::klib::heap_model::lemma_split_shape(
                    self@.blocks,
                    i as int,
                    rounded_up as int,
                );
            }
            self.split(i, rounded_up);
            let n = self.blocks.len();
            assert(i + 2 < n);
            self.create_free_area(i + 1);
        }
        head + SIZE_OF_HEADER_T
    }

    /// Merges the area in use at position `i` with its neighbours as far
    /// as they are free, each of which leaves its bucket first. Returns
    /// where the merged area, which is in use, is then.
    fn coalesce(&mut self, i: usize) -> (j: usize)
        requires
            old(self).wf(),
            is_live(old(self)@.blocks, i as int),
        ensures
            final(self).wf(),
            final(self)@ == coalesced(old(self)@, i as int).0,
            j == coalesced(old(self)@, i as int).1,
    {
        proof {
            lemma_coalesced_wf(self@, i as int);
            lemma_block_ok(self@.blocks, i as int);
            lemma_block_ok(self@.blocks, i - 1);
            lemma_block_ok(self@.blocks, i + 1);
        }
        let n = self.blocks.len();
        let mut j = i;
        if self.blocks[i - 1].flag == FREE_BIT {
            // Coalesce with left free object.
            self.unlink_free(i - 1);
            proof {
                lemma_block_ok(old(self)@.blocks, i - 2);
            }
            self.absorb(i - 1);
            j = i - 1;
        }
        proof {
            crate::klib::heap_model::lemma_coalesced_step(old(self)@, i as int);
            lemma_block_ok(self@.blocks, j as int);
            lemma_block_ok(self@.blocks, j + 1);
        }
        let m = self.blocks.len();
        if self.blocks[j + 1].flag == FREE_BIT {
            // Coalesce with right free object.
            self.unlink_free(j + 1);
            self.absorb(j);
        }
        j
    }

    /// Takes the whole area obtained from the OS around position `j` out
    /// of the heap: it is held back for reuse if nothing is held back
    /// yet, else it is returned to `valloc`.
    fn release_region(
        &mut self,
        j: usize,
        valloc: &mut VirtualAlloc,
        pmm: &mut PmmNode,
        aspace: &mut VmAspace,
    )
        requires
            old(self).wf(),
            0 < j < old(self)@.blocks.len() - 1,
            !old(self)@.blocks[j as int].free,
            spans_region(old(self)@.blocks, j as int),
            hosted(old(self)@, old(valloc)),
            old(valloc).wf(),
            old(pmm).wf(),
            old(aspace).wf(),
            old(valloc).backed(old(pmm), old(aspace)),
        ensures
            final(self).wf(),
            final(self)@ == region_released(old(self)@, j as int),
            hosted(final(self)@, final(valloc)),
            final(valloc).wf(),
            final(pmm).wf(),
            final(aspace).wf(),
            final(valloc).backed(final(pmm), final(aspace)),
            old(self)@.cached is None ==> *final(valloc) == *old(valloc) && *final(pmm) == *old(pmm)
                && *final(aspace) == *old(aspace),
            old(self)@.cached is Some ==> old(valloc).free_pages_ok(
                old(pmm),
                old(aspace),
                old(self)@.blocks[j - 1].addr as usize,
                ((old(self)@.blocks[j as int].size + 2 * SIZE_OF_HEADER_T) / (
                PAGE_SIZE as int)) as usize,
                final(valloc),
                final(pmm),
            ),
    {
        let ghost v2 = self@;
        let ghost hs = self.blocks@;
        proof {
            lemma_region_removed(v2, j as int);
            lemma_region_released_wf(v2, j as int);
            lemma_block_basic(v2.blocks, j - 1);
            lemma_block_basic(v2.blocks, j as int);
            lemma_block_basic(v2.blocks, j + 1);
            crate::klib::heap_model::lemma_within_same(v2.blocks);
        }
        let n = self.blocks.len();
        let base = self.blocks[j - 1].addr;
        let total = self.blocks[j].size + 2 * SIZE_OF_HEADER_T;
        self.blocks.remove(j + 1);
        self.blocks.remove(j);
        self.blocks.remove(j - 1);
        proof {
            assert(self@.blocks =~= region_removed(v2.blocks, j as int));
            assert(self@.lists =~= v2.lists);
            assert forall|k: int| 0 <= k < self.blocks@.len() implies (
            #[trigger] self.blocks@[k]).flag_wf() by {
                if k < j - 1 {
                    assert(self.blocks@[k] == hs[k]);
                } else {
                    assert(self.blocks@[k] == hs[k + 3]);
                }
            }
        }
        if self.cached_os_alloc.is_none() {
            // Keep the area for reuse.
            self.cached_os_alloc = Some((base, total));
            proof {
                self.lemma_hosted_cached(v2, v2, valloc, j as int);
            }
        } else {
            // Return the area to the OS.
            proof {
                assert forall|a: int| base <= a < base + total implies #[trigger] covers(
                    valloc,
                    a,
                ) by {
                    Self::lemma_region_bytes(v2, v2, j as int, a);
                }
                lemma_covered_range(valloc, base as int, total as int);
            }
            let freed = valloc.free_pages(base, total / PAGE_SIZE, pmm, aspace);
            assert(freed is Ok);
            self.size = self.size - total;
            proof {
                let remains = self@;
                assert(hosted(remains, old(valloc))) by {
                    assert forall|a: int| #[trigger] in_heap(remains.blocks, a) implies covers(
                        old(valloc),
                        a,
                    ) by {
                        assert(in_heap(v2.blocks, a));
                    }
                }
                assert forall|a: int| #[trigger] in_heap(remains.blocks, a) implies !(base <= a
                    < base + total) by {
                    let k = choose|k: int|
                        0 <= k < remains.blocks.len() && (#[trigger] remains.blocks[k]).addr <= a
                            < remains.blocks[k].addr + extent(remains.blocks[k]);
                    assert(remains.blocks[k].addr + extent(remains.blocks[k]) <= base || base
                        + total <= remains.blocks[k].addr);
                }
                assert(covers(old(valloc), base as int)) by {
                    Self::lemma_region_bytes(v2, v2, j as int, base as int);
                }
                lemma_hosted_shrink(remains, old(valloc), &*valloc, base as int, total as int);
            }
        }
    }

    /// Frees the area in use at position `i`: it is merged with its free
    /// neighbours; if the merged area is all there is between the
    /// sentinels of an area obtained from the OS, that whole area leaves
    /// the heap, to be held back for reuse if nothing is held back yet,
    /// else to be returned to `valloc`; otherwise the merged area joins
    /// the bucket of its size.
    fn release(&mut self, i: usize, valloc: &mut VirtualAlloc, pmm: &mut PmmNode, aspace: &mut VmAspace)
        requires
            old(self).wf(),
            is_live(old(self)@.blocks, i as int),
            hosted(old(self)@, old(valloc)),
            old(valloc).wf(),
            old(pmm).wf(),
            old(aspace).wf(),
            old(valloc).backed(old(pmm), old(aspace)),
        ensures
            final(self).wf(),
            final(self)@ == released(
                old(self)@,
                old(self)@.blocks[i as int].addr + SIZE_OF_HEADER_T,
            ),
            hosted(final(self)@, final(valloc)),
            final(valloc).wf(),
            final(pmm).wf(),
            final(aspace).wf(),
            final(valloc).backed(final(pmm), final(aspace)),
            released_to_os(old(self)@, old(self)@.blocks[i as int].addr + SIZE_OF_HEADER_T)
                is None ==> *final(valloc) == *old(valloc) && *final(pmm) == *old(pmm) && *final(aspace) == *old(aspace),
            released_to_os(old(self)@, old(self)@.blocks[i as int].addr + SIZE_OF_HEADER_T)
                is Some ==> old(valloc).free_pages_ok(
                old(pmm),
                old(aspace),
                released_to_os(
                    old(self)@,
                    old(self)@.blocks[i as int].addr + SIZE_OF_HEADER_T,
                )->Some_0.0 as usize,
                (released_to_os(
                    old(self)@,
                    old(self)@.blocks[i as int].addr + SIZE_OF_HEADER_T,
                )->Some_0.1 / (PAGE_SIZE as int)) as usize,
                final(valloc),
                final(pmm),
            ),
    {
        let ghost v0 = self@;
        proof {
            lemma_find_block(v0.blocks, i as int);
            lemma_coalesced_wf(v0, i as int);
        }
        let j = self.coalesce(i);
        let ghost v2 = self@;
        proof {
            assert(hosted(v2, valloc)) by {
                assert forall|a: int| #[trigger] in_heap(v2.blocks, a) implies covers(
                    valloc,
                    a,
                ) by {
                    assert(in_heap(v0.blocks, a));
                }
            }
            lemma_block_basic(v2.blocks, j as int);
        }
        let n = self.blocks.len();
        assert(j + 1 < n);
        if self.blocks[j - 1].left == 0 && self.blocks[j + 1].size == 0 {
            self.release_region(j, valloc, pmm, aspace);
        } else {
            self.create_free_area(j);
            proof {
                lemma_linked_wf(v2, j as int);
                assert forall|a: int| #[trigger] in_heap(self@.blocks, a) implies covers(
                    valloc,
                    a,
                ) by {
                    assert(in_heap(v2.blocks, a));
                }
            }
        }
    }

    /// A byte of a whole area obtained from the OS is a byte of one of the
    /// three areas that make it up, and so covered.
    proof fn lemma_region_bytes(v0: HeapView, v2: HeapView, j: int, a: int)
        requires
            view_wf(v2),
            bytes_within(v2.blocks, v0.blocks),
            0 < j < v2.blocks.len() - 1,
            spans_region(v2.blocks, j),
            v2.blocks[j - 1].addr <= a < v2.blocks[j - 1].addr + v2.blocks[j].size + 2
                * SIZE_OF_HEADER_T,
        ensures
            in_heap(v0.blocks, a),
    {
        lemma_block_ok(v2.blocks, j - 1);
        lemma_block_ok(v2.blocks, j);
        lemma_block_ok(v2.blocks, j + 1);
        let k = if a < v2.blocks[j].addr {
            j - 1
        } else if a < v2.blocks[j + 1].addr {
            j
        } else {
            j + 1
        };
        assert(v2.blocks[k].addr <= a < v2.blocks[k].addr + extent(v2.blocks[k]));
        assert(in_heap(v2.blocks, a));
    }

    /// The heap stays hosted when a whole area obtained from the OS
    /// leaves it to be held back for reuse.
    proof fn lemma_hosted_cached(&self, v0: HeapView, v2: HeapView, valloc: &VirtualAlloc, j: int)
        requires
            view_wf(v2),
            hosted(v0, valloc),
            bytes_within(v2.blocks, v0.blocks),
            0 < j < v2.blocks.len() - 1,
            spans_region(v2.blocks, j),
            self@.blocks == region_removed(v2.blocks, j),
            self@.cached == Some(
                (v2.blocks[j - 1].addr, v2.blocks[j].size + 2 * SIZE_OF_HEADER_T),
            ),
            bytes_within(self@.blocks, v0.blocks),
        ensures
            hosted(self@, valloc),
    {
        assert forall|a: int| #[trigger] in_heap(self@.blocks, a) implies covers(valloc, a) by {
            assert(in_heap(v0.blocks, a));
        }
        assert forall|a: int|
            self@.cached->Some_0.0 <= a < self@.cached->Some_0.0
                + self@.cached->Some_0.1 implies #[trigger] covers(valloc, a) by {
            Self::lemma_region_bytes(v0, v2, j, a);
        }
    }

    /// Where a new area at `area`, at which no area of the heap starts,
    /// goes among the headers.
    fn region_pos(&self, area: vaddr_t) -> (pos: usize)
        requires
            blocks_wf(self@.blocks),
            forall|k: int| 0 <= k < self@.blocks.len() ==> (#[trigger] self@.blocks[k]).addr != area,
        ensures
            splits_at(self@.blocks, area as int, pos as int),
    {
        let mut lo: usize = 0;
        let mut hi: usize = self.blocks.len();
        while lo < hi
            invariant
                lo <= hi <= self.blocks@.len(),
                blocks_wf(self@.blocks),
                forall|k: int|
                    0 <= k < self@.blocks.len() ==> (#[trigger] self@.blocks[k]).addr != area,
                forall|k: int| 0 <= k < lo ==> (#[trigger] self@.blocks[k]).addr < area,
                forall|k: int| hi <= k < self.blocks@.len() ==> (#[trigger] self@.blocks[k]).addr > area,
            decreases hi - lo,
        {
            let mid = lo + (hi - lo) / 2;
            let a = self.blocks[mid].addr;
            assert(a == self@.blocks[mid as int].addr);
            if a < area {
                proof {
                    assert forall|k: int| 0 <= k < mid + 1 implies (#[trigger] self@.blocks[k]).addr
                        < area by {
                        if k < mid {
                            lemma_blocks_ordered(self@.blocks, k, mid as int);
                        }
                    }
                }
                lo = mid + 1;
            } else {
                proof {
                    assert forall|k: int| mid <= k < self.blocks@.len() implies (
                    #[trigger] self@.blocks[k]).addr > area by {
                        if k > mid {
                            lemma_blocks_ordered(self@.blocks, mid as int, k);
                        }
                    }
                }
                hi = mid;
            }
        }
        lo
    }

    /// Puts a new area of `total` bytes obtained from the OS at `area`
    /// into the heap: a sentinel at either end, and between them one free
    /// area. Nothing is held back for reuse then, and `new_size` bytes are
    /// counted as obtained from the OS.
    fn add_to_heap(&mut self, area: vaddr_t, total: usize, new_size: usize)
        requires
            old(self).wf(),
            area > 0,
            area % PAGE_SIZE == 0,
            total % PAGE_SIZE == 0,
            total >= PAGE_SIZE,
            area + total <= usize::MAX,
            forall|a: int| #[trigger] in_heap(old(self)@.blocks, a) ==> !(area <= a < area + total),
            new_size == sum_blocks(old(self)@.blocks, false) + total,
        ensures
            final(self).wf(),
            final(self)@ == grown(old(self)@, area as int, total as int, new_size as int),
            splits_at(
                old(self)@.blocks,
                area as int,
                region_position(old(self)@.blocks, area as int),
            ),
            forall|request: int|
                1 <= request <= HEAP_MAX_ALLOC_SIZE && spec_rounded_size(request) + 3
                    * SIZE_OF_HEADER_T <= total ==> #[trigger] has_nonempty(
                    final(self)@.lists,
                    spec_size_to_index_allocating(request),
                ),
    {
        let ghost v0 = self@;
        let ghost hs = self.blocks@;
        proof {
            assert forall|k: int| 0 <= k < v0.blocks.len() implies (#[trigger] v0.blocks[k]).addr
                + extent(v0.blocks[k]) <= area || area + total <= v0.blocks[k].addr by {
                lemma_block_basic(v0.blocks, k);
                let b = v0.blocks[k];
                assert(in_heap(v0.blocks, b.addr));
                assert(in_heap(v0.blocks, b.addr + extent(b) - 1));
                if b.addr < area && area < b.addr + extent(b) {
                    assert(in_heap(v0.blocks, area as int));
                }
            }
            assert forall|k: int| 0 <= k < v0.blocks.len() implies (#[trigger] v0.blocks[k]).addr
                != area by {
                lemma_block_basic(v0.blocks, k);
                assert(in_heap(v0.blocks, v0.blocks[k].addr));
            }
        }
        let pos = self.region_pos(area);
        proof {
            lemma_grown_wf(v0, area as int, total as int, new_size as int, pos as int);
            lemma_region_added(v0, pos as int, area as int, total as int);
        }
        // Set up the left sentinel.
        let left = header_t { addr: area, left: 0, size: SIZE_OF_HEADER_T, flag: 0 };
        // Set up the usable memory area, which will be marked free.
        let free_area = header_t {
            addr: area + SIZE_OF_HEADER_T,
            left: area,
            size: total - 2 * SIZE_OF_HEADER_T,
            flag: 0,
        };
        // Set up the right sentinel.
        let right = header_t {
            addr: area + total - SIZE_OF_HEADER_T,
            left: area + SIZE_OF_HEADER_T,
            size: 0,
            flag: 0,
        };
        self.blocks.insert(pos, left);
        let n1 = self.blocks.len();
        assert(pos < n1);
        self.blocks.insert(pos + 1, free_area);
        let n2 = self.blocks.len();
        assert(pos + 1 < n2);
        self.blocks.insert(pos + 2, right);
        let n3 = self.blocks.len();
        assert(pos + 2 < n3);
        self.cached_os_alloc = None;
        self.size = new_size;
        proof {
            assert(self@.blocks =~= region_added(v0.blocks, pos as int, area as int, total as int));
            assert(self@.lists =~= v0.lists);
            assert forall|k: int| 0 <= k < self.blocks@.len() implies (
            #[trigger] self.blocks@[k]).flag_wf() by {
                if k < pos {
                    assert(self.blocks@[k] == hs[k]);
                } else if k >= pos + 3 {
                    assert(self.blocks@[k] == hs[k - 3]);
                }
            }
            assert(view_wf(self@));
        }
        self.create_free_area(pos + 1);
    }

    /// Makes a new free area of at least `size` bytes, header included.
    /// The area that is held back for reuse becomes that area if it is
    /// large enough; if it is not, it is returned to `valloc`, and in that
    /// case as when nothing is held back the memory is obtained from
    /// `valloc`. Returns where the area obtained from the OS starts and how
    /// many bytes it has.
    #[verifier::rlimit(100)]
    #[verifier::spinoff_prover]
    fn heap_grow(
        &mut self,
        size: usize,
        valloc: &mut VirtualAlloc,
        pmm: &mut PmmNode,
        aspace: &mut VmAspace,
    ) -> (r: Result<(vaddr_t, usize), ErrNO>)
        requires
            old(self).wf(),
            size <= HEAP_LARGE_ALLOC_BYTES,
            hosted(old(self)@, old(valloc)),
            old(valloc).wf(),
            old(pmm).wf(),
            old(aspace).wf(),
            old(valloc).backed(old(pmm), old(aspace)),
        ensures
            final(self).wf(),
            hosted(final(self)@, final(valloc)),
            final(valloc).wf(),
            final(pmm).wf(),
            final(aspace).wf(),
            final(valloc).backed(final(pmm), final(aspace)),
            r is Err ==> final(self)@ == dropped(old(self)@) && (r == Err::<(vaddr_t, usize), ErrNO>(
                ErrNO::NoMem,
            ) || r == Err::<(vaddr_t, usize), ErrNO>(ErrNO::BadState)),
            r == Err::<(vaddr_t, usize), ErrNO>(ErrNO::BadState) ==> old(valloc).spec_alloc_base()
                == 0,
            r is Err && old(self)@.cached is None ==> *final(valloc) == *old(valloc) && *final(aspace)
                == *old(aspace) && Self::spec_pmm_kept(old(valloc), old(pmm), final(pmm)),
            old(self)@.cached is None && old(valloc).spec_alloc_base() == 0 && r is Err && old(self)@.size + spec_roundup(size + HEAP_GROW_OVER_HEAD, PAGE_SIZE as int) <= usize::MAX ==> r
                == Err::<(vaddr_t, usize), ErrNO>(ErrNO::BadState),
            r is Ok ==> ({
                let (area, total) = r->Ok_0;
                &&& final(self)@ == grown(
                    dropped(old(self)@),
                    area as int,
                    total as int,
                    dropped(old(self)@).size + total,
                )
                &&& total >= size + HEAP_GROW_OVER_HEAD
                &&& total % PAGE_SIZE == 0
                &&& splits_at(
                    old(self)@.blocks,
                    area as int,
                    region_position(old(self)@.blocks, area as int),
                )
                &&& old(self)@.cached is None ==> total == spec_roundup(
                    size + HEAP_GROW_OVER_HEAD,
                    PAGE_SIZE as int,
                ) && old(valloc).alloc_pages_ok(
                    old(pmm),
                    (total / PAGE_SIZE) as usize,
                    final(valloc),
                    final(pmm),
                    area,
                )
                &&& forall|a: int|
                    area <= a < area + total ==> !#[trigger] in_heap(old(self)@.blocks, a)
                &&& forall|request: int|
                    1 <= request <= HEAP_MAX_ALLOC_SIZE && spec_rounded_size(request) + 3
                        * SIZE_OF_HEADER_T <= total ==> #[trigger] has_nonempty(
                        final(self)@.lists,
                        spec_size_to_index_allocating(request),
                    )
            }),
            old(self)@.cached is Some && old(self)@.cached->Some_0.1 >= spec_roundup(
                size + HEAP_GROW_OVER_HEAD,
                PAGE_SIZE as int,
            ) ==> r == Ok::<(vaddr_t, usize), ErrNO>(
                (old(self)@.cached->Some_0.0 as usize, old(self)@.cached->Some_0.1 as usize),
            ) && *final(valloc) == *old(valloc) && *final(pmm) == *old(pmm) && *final(aspace)
                == *old(aspace),
            old(self)@.cached is None ==> (r is Ok <==> old(self)@.size + spec_roundup(
                size + HEAP_GROW_OVER_HEAD,
                PAGE_SIZE as int,
            ) <= usize::MAX && old(valloc).can_alloc(
                old(pmm),
                (spec_roundup(size + HEAP_GROW_OVER_HEAD, PAGE_SIZE as int) / (
                PAGE_SIZE as int)) as usize,
            )),
            old(self)@.cached is Some && old(self)@.cached->Some_0.1 < Self::grow_total(size as int)
                ==> exists|valloc_mid: VirtualAlloc, pmm_mid: PmmNode| #[trigger]
                Self::spec_grow_after_drop(
                    old(self)@,
                    old(valloc),
                    old(pmm),
                    old(aspace),
                    size as int,
                    r,
                    final(valloc),
                    final(pmm),
                    &valloc_mid,
                    &pmm_mid,
                ),
    {
        let ghost v0 = self@;
        let ghost mut mid_v = *valloc;
        let ghost mut mid_p = *pmm;
        proof {
            lemma_roundup((size + HEAP_GROW_OVER_HEAD) as int, PAGE_SIZE as int);
            lemma_dropped_wf(v0);
            lemma_view_counts(v0);
            reveal(cached_wf);
        }
        // The new free list entry will have a header on each side (the
        // sentinels) so we need to grow the gross heap size by this much
        // more.
        let total = roundup(size + HEAP_GROW_OVER_HEAD, PAGE_SIZE);
        match self.cached_os_alloc {
            Some((c, cs)) => {
                if cs >= total {
                    // Use the saved area.
                    proof {
                        assert forall|a: int| #[trigger] in_heap(v0.blocks, a) implies !(c <= a < c
                            + cs) by {
                            let k = choose|k: int|
                                0 <= k < v0.blocks.len() && (#[trigger] v0.blocks[k]).addr <= a
                                    < v0.blocks[k].addr + extent(v0.blocks[k]);
                            assert(v0.blocks[k].addr + extent(v0.blocks[k]) <= c || c + cs
                                <= v0.blocks[k].addr);
                        }
                        assert(grown(v0, c as int, cs as int, v0.size) == grown(
                            dropped(v0),
                            c as int,
                            cs as int,
                            v0.size,
                        ));
                    }
                    let new_size = self.size;
                    self.add_to_heap(c, cs, new_size);
                    proof {
                        self.lemma_hosted_region(v0, valloc, c as int, cs as int);
                    }
                    return Ok((c, cs));
                }
                // We need to allocate more from the OS. Return the cached
                // OS allocation, in case we're holding an unusually-small
                // block that's unlikely to satisfy future calls.
                proof {
                    lemma_covered_range(valloc, c as int, cs as int);
                }
                let freed = valloc.free_pages(c, cs / PAGE_SIZE, pmm, aspace);
                assert(freed is Ok);
                self.size = self.size - cs;
                self.cached_os_alloc = None;
                proof {
                    mid_v = *valloc;
                    mid_p = *pmm;
                    assert(self@ == dropped(v0));
                    let remains = self@;
                    assert(hosted(remains, old(valloc)));
                    assert forall|a: int| #[trigger] in_heap(remains.blocks, a) implies !(c <= a < c
                        + cs) by {
                        let k = choose|k: int|
                            0 <= k < v0.blocks.len() && (#[trigger] v0.blocks[k]).addr <= a
                                < v0.blocks[k].addr + extent(v0.blocks[k]);
                        assert(v0.blocks[k].addr + extent(v0.blocks[k]) <= c || c + cs
                            <= v0.blocks[k].addr);
                    }
                    assert(covers(old(valloc), c as int));
                    lemma_hosted_shrink(remains, old(valloc), &*valloc, c as int, cs as int);
                }
            },
            None => {
                assert(self@ == dropped(v0));
            },
        }
        if self.size > usize::MAX - total {
            proof {
                crate::allocator::lemma_updated_same(old(pmm), crate::vm_page_state::ALLOC);
                crate::allocator::lemma_updated_same(&mid_p, crate::vm_page_state::ALLOC);
                if v0.cached is Some {
                    assert(Self::spec_grow_after_drop(
                        v0,
                        old(valloc),
                        old(pmm),
                        old(aspace),
                        size as int,
                        Err::<(vaddr_t, usize), ErrNO>(ErrNO::NoMem),
                        &*valloc,
                        &*pmm,
                        &mid_v,
                        &mid_p,
                    ));
                }
            }
            return Err(ErrNO::NoMem);
        }
        let ghost valloc_mid = *valloc;
        let area = match valloc.alloc_pages(total / PAGE_SIZE, pmm, aspace) {
            Err(e) => {
                proof {
                    crate::allocator::lemma_updated_nothing(
                        &mid_p,
                        &*pmm,
                        crate::vm_page_state::ALLOC,
                    );
                    if v0.cached is Some {
                        assert(Self::spec_grow_after_drop(
                            v0,
                            old(valloc),
                            old(pmm),
                            old(aspace),
                            size as int,
                            Err::<(vaddr_t, usize), ErrNO>(e),
                            &*valloc,
                            &*pmm,
                            &mid_v,
                            &mid_p,
                        ));
                    }
                }
                return Err(e);
            },
            Ok(area) => area,
        };
        proof {
            let pages = (total / PAGE_SIZE) as int;
            let s = valloc_mid.spec_alloc_start(pages as usize)->Some_0;
            lemma_hosted_grow(self@, &valloc_mid, &*valloc, s, pages);
            assert forall|a: int| #[trigger] in_heap(self@.blocks, a) implies !(area <= a < area
                + total) by {
                assert(covers(&valloc_mid, a));
                if area <= a < area + total {
                    assert(covers(&*valloc, a) && !covers(&valloc_mid, a));
                }
            }
        }
        let new_size = self.size + total;
        let ghost before = self@;
        self.add_to_heap(area, total, new_size);
        proof {
            self.lemma_hosted_region(before, valloc, area as int, total as int);
            if v0.cached is Some {
                assert(Self::spec_grow_after_drop(
                    v0,
                    old(valloc),
                    old(pmm),
                    old(aspace),
                    size as int,
                    Ok::<(vaddr_t, usize), ErrNO>((area, total)),
                    &*valloc,
                    &*pmm,
                    &mid_v,
                    &mid_p,
                ));
            }
        }
        Ok((area, total))
    }

    /// The heap is hosted after a covered area joined it.
    proof fn lemma_hosted_region(&self, before: HeapView, valloc: &VirtualAlloc, area: int, total: int)
        requires
            forall|a: int| #[trigger] in_heap(before.blocks, a) ==> covers(valloc, a),
            forall|a: int| area <= a < area + total ==> #[trigger] covers(valloc, a),
            self@ == grown(before, area, total, self@.size),
            view_wf(before) || blocks_wf(before.blocks),
            splits_at(before.blocks, area, region_position(before.blocks, area)),
            total >= 2 * SIZE_OF_HEADER_T + MIN_AREA,
        ensures
            hosted(self@, valloc),
    {
        let pos = region_position(before.blocks, area);
        let added = region_added(before.blocks, pos, area, total);
        assert(self@.cached is None);
        assert forall|a: int| #[trigger] in_heap(self@.blocks, a) implies covers(valloc, a) by {
            let k = choose|k: int|
                0 <= k < self@.blocks.len() && (#[trigger] self@.blocks[k]).addr <= a
                    < self@.blocks[k].addr + extent(self@.blocks[k]);
            assert(self@.blocks[k].addr == added[k].addr && self@.blocks[k].size == added[k].size);
            if k < pos {
                assert(added[k] == before.blocks[k]);
                assert(in_heap(before.blocks, a));
            } else if k >= pos + 3 {
                assert(added[k] == before.blocks[k - 3]);
                assert(in_heap(before.blocks, a));
            } else {
                assert(area <= a < area + total);
            }
        }
    }

    /// An allocation whose bytes start at `ptr` is in use.
    pub open spec fn spec_is_allocated(&self, ptr: vaddr_t) -> bool {
        &&& ptr >= SIZE_OF_HEADER_T
        &&& has_block(self@.blocks, ptr - SIZE_OF_HEADER_T)
        &&& is_live(self@.blocks, find_block(self@.blocks, ptr - SIZE_OF_HEADER_T))
    }

    /// The bytes that the allocation at `ptr` has for its user.
    pub open spec fn spec_capacity(&self, ptr: vaddr_t) -> int {
        self@.blocks[find_block(self@.blocks, ptr - SIZE_OF_HEADER_T)].size - SIZE_OF_HEADER_T
    }

    /// Tells whether an allocation whose bytes start at `ptr` is in use.
    pub fn is_allocated(&self, ptr: vaddr_t) -> (r: bool)
        requires
            self.wf(),
        ensures
            r == self.spec_is_allocated(ptr),
    {
        if ptr < SIZE_OF_HEADER_T {
            return false;
        }
        match self.block_index(ptr - SIZE_OF_HEADER_T) {
            None => false,
            Some(i) => {
                let h = self.blocks[i];
                assert(self.blocks@[i as int].flag_wf());
                h.flag != FREE_BIT && h.left != 0 && h.size > 0
            },
        }
    }

    /// Total bytes obtained from the OS for the heap.
    pub fn total_size(&self) -> (r: usize)
        ensures
            r == self@.size,
    {
        self.size
    }

    /// Bytes in the free areas of the heap.
    pub fn remaining(&self) -> (r: usize)
        ensures
            r == self@.remaining,
    {
        self.remaining
    }

    /// Tells whether some bucket at or behind `index` has a free area.
    pub fn has_nonempty_bucket(&self, index: usize) -> (r: bool)
        requires
            self.wf(),
            index < NUMBER_OF_BUCKETS,
        ensures
            r == has_nonempty(self@.lists, index as int),
    {
        self.find_nonempty_bucket(index).is_ok()
    }

    /// Makes the heap ready for use: gives it its free lists and a first
    /// area from `valloc`.
    pub fn init(&mut self, valloc: &mut VirtualAlloc, pmm: &mut PmmNode, aspace: &mut VmAspace) -> (r:
        Result<(), ErrNO>)
        requires
            old(self)@.blocks.len() == 0,
            old(self)@.cached is None,
            old(self)@.size == 0,
            old(self)@.remaining == 0,
            old(valloc).wf(),
            old(pmm).wf(),
            old(aspace).wf(),
            old(valloc).backed(old(pmm), old(aspace)),
        ensures
            final(self).wf(),
            hosted(final(self)@, final(valloc)),
            final(valloc).wf(),
            final(pmm).wf(),
            final(aspace).wf(),
            final(valloc).backed(final(pmm), final(aspace)),
            r is Ok <==> old(valloc).can_alloc(old(pmm), HEAP_GROW_SIZE / PAGE_SIZE),
            r is Err ==> (r == Err::<(), ErrNO>(ErrNO::NoMem) || r == Err::<(), ErrNO>(
                ErrNO::BadState,
            )) && final(self)@.blocks.len() == 0,
            r == Err::<(), ErrNO>(ErrNO::BadState) <==> old(valloc).spec_alloc_base() == 0,
            r is Ok ==> final(self)@ == first_view(final(self)@.blocks[0].addr),
            r is Ok ==> forall|request: int| #[trigger]
                can_take(final(self)@, request) ==> taken_addr(final(self)@, request) == final(self)@.blocks[0].addr + 2 * SIZE_OF_HEADER_T,
            r is Ok ==> forall|request: int|
                1 <= request <= HEAP_MAX_ALLOC_SIZE && spec_rounded_size(request) + 3
                    * SIZE_OF_HEADER_T <= HEAP_GROW_SIZE ==> #[trigger] can_take(
                    final(self)@,
                    request,
                ),
            r is Ok ==> old(valloc).alloc_pages_ok(
                old(pmm),
                HEAP_GROW_SIZE / PAGE_SIZE,
                final(valloc),
                final(pmm),
                final(self)@.blocks[0].addr as usize,
            ) && final(self)@.blocks.len() == 3 && final(self)@.size == HEAP_GROW_SIZE && final(self)@.remaining == HEAP_USABLE_GROW_SIZE && final(self)@.blocks[1].free,
    {
        self.init_lists();
        proof {
            lemma_roundup_alt((HEAP_USABLE_GROW_SIZE + HEAP_GROW_OVER_HEAD) as int, PAGE_SIZE as int);
            assert forall|a: int| #[trigger] in_heap(self@.blocks, a) implies covers(valloc, a) by {}
        }
        let ghost v0 = self@;
        match self.heap_grow(HEAP_USABLE_GROW_SIZE, valloc, pmm, aspace) {
            Err(e) => Err(e),
            Ok((area, total)) => {
                proof {
                    assert(splits_at(v0.blocks, area as int, 0));
                    lemma_region_position(v0.blocks, area as int, 0);
                    assert(dropped(v0) == v0);
                    crate::klib::heap_model::lemma_first_region(v0, area as int, total as int);
                    assert(v0.blocks =~= fresh_view().blocks);
                    assert(v0.lists =~~= fresh_view().lists);
                    assert(v0 == fresh_view());
                    assert forall|request: int| #[trigger]
                        can_take(self@, request) implies taken_addr(self@, request) == area + 2
                        * SIZE_OF_HEADER_T by {
                        crate::klib::heap_model::lemma_first_view(area as int, request);
                    }
                }
                Ok(())
            },
        }
    }

    /// The bytes by which the heap tries to grow first for a request that
    /// takes `rounded_up` bytes with its header: an eighth of what the
    /// heap has, but no less than the usual step and than the request
    /// takes, and no more than the largest step.
    pub open spec fn spec_growby(heap_size: int, rounded_up: int) -> int {
        let eighth = heap_size / 8;
        let wanted = if eighth > HEAP_USABLE_GROW_SIZE {
            eighth
        } else {
            HEAP_USABLE_GROW_SIZE as int
        };
        let wanted = if wanted > rounded_up {
            wanted
        } else {
            rounded_up
        };
        if wanted < HEAP_LARGE_ALLOC_BYTES {
            wanted
        } else {
            HEAP_LARGE_ALLOC_BYTES as int
        }
    }

    /// The bytes that the heap obtains from the OS to grow by `growby`
    /// bytes: whole pages with room for the sentinels.
    pub open spec fn grow_total(growby: int) -> int {
        spec_roundup(growby + HEAP_GROW_OVER_HEAD, PAGE_SIZE as int)
    }

    /// The heap `v`, which holds no area back for reuse, can grow by
    /// `growby` bytes with memory from `valloc`.
    pub open spec fn can_grow(v: HeapView, valloc: &VirtualAlloc, pmm: &PmmNode, growby: int)
        -> bool {
        v.size + Self::grow_total(growby) <= usize::MAX && valloc.can_alloc(
            pmm,
            (Self::grow_total(growby) / (PAGE_SIZE as int)) as usize,
        )
    }

    /// The bytes by which the heap `v` grows when it tries `growby` bytes
    /// first and then half as much each time, but no less than `least`
    /// bytes: the first of these by which it can grow, if there is one.
    pub open spec fn grow_size(
        v: HeapView,
        valloc: &VirtualAlloc,
        pmm: &PmmNode,
        growby: int,
        least: int,
    ) -> Option<int>
        decreases growby,
    {
        if Self::can_grow(v, valloc, pmm, growby) {
            Some(growby)
        } else if growby <= least || growby <= 0 {
            None
        } else if growby / 2 > least {
            Self::grow_size(v, valloc, pmm, growby / 2, least)
        } else {
            Self::grow_size(v, valloc, pmm, least, least)
        }
    }

    /// Where the area starts that the heap obtains to grow by `growby`
    /// bytes.
    pub open spec fn grow_area(valloc: &VirtualAlloc, growby: int) -> int {
        valloc.page_va(
            valloc.spec_alloc_start(
                (Self::grow_total(growby) / (PAGE_SIZE as int)) as usize,
            )->Some_0,
        ) as int
    }

    /// A try to grow that failed left the page-frame allocator `pmm` as
    /// `other`: with the same page descriptors and the same number of free
    /// pages; and unchanged where `valloc` aligns no allocation beyond a
    /// page, while otherwise the order of its free list may differ.
    pub open spec fn spec_pmm_kept(valloc: &VirtualAlloc, pmm: &PmmNode, other: &PmmNode) -> bool {
        &&& pmm.updated(other, Set::empty(), crate::vm_page_state::ALLOC)
        &&& other.spec_free_count() == pmm.spec_free_count()
        &&& valloc.page_mode() ==> *other == *pmm
    }

    /// How the heap grows for a request of `size` bytes that the free
    /// lists cannot serve follows from the state of the heap, of `valloc`
    /// and of the page-frame allocator alone: the area that is held back
    /// for reuse is large enough for the first try, or no area is held
    /// back, so that a try that fails leaves the free pages what they
    /// were.
    pub open spec fn spec_growth_pinned(&self, valloc: &VirtualAlloc, size: usize) -> bool {
        let least = spec_rounded_size(size as int) + SIZE_OF_HEADER_T;
        let first = Self::spec_growby(self@.size, least);
        match self@.cached {
            Some(c) => c.1 >= Self::grow_total(first),
            None => true,
        }
    }

    /// Where the area starts by which the heap grows for a request of
    /// `size` bytes that the free lists cannot serve, and how many bytes
    /// it has; nothing, where the heap cannot grow.
    pub open spec fn spec_growth(&self, valloc: &VirtualAlloc, pmm: &PmmNode, size: usize)
        -> Option<(int, int)> {
        let least = spec_rounded_size(size as int) + SIZE_OF_HEADER_T;
        let first = Self::spec_growby(self@.size, least);
        match self@.cached {
            Some(c) => Some(c),
            None => match Self::grow_size(self@, valloc, pmm, first, least) {
                None => None,
                Some(g) => Some((Self::grow_area(valloc, g), Self::grow_total(g))),
            },
        }
    }

    /// What a request of `size` bytes that the free lists cannot serve
    /// returns, `r`, and makes of the heap, `after`, where how the heap
    /// grows is pinned down: nothing and no change where the heap cannot
    /// grow, else what the free lists of the grown heap give.
    pub open spec fn spec_served_grown(
        &self,
        valloc: &VirtualAlloc,
        pmm: &PmmNode,
        size: usize,
        r: Option<vaddr_t>,
        after: HeapView,
    ) -> bool {
        match self.spec_growth(valloc, pmm, size) {
            None => r is None && after == self@,
            Some((area, total)) => r == Some(
                taken_addr(self.spec_grown(area, total), size as int) as usize,
            ) && after == taken(self.spec_grown(area, total), size as int),
        }
    }

    /// What a request of `size` bytes at a multiple of `align`, whose
    /// padded size the free lists cannot serve, returns, `r`, and makes of
    /// the heap, `after`, where how the heap grows is pinned down: nothing
    /// and no change where the heap cannot grow; else the free lists of
    /// the grown heap serve the padded request, the front of what they
    /// give is cut off at the alignment and freed, and the rest is
    /// returned.
    pub open spec fn spec_aligned_grown(
        &self,
        valloc: &VirtualAlloc,
        pmm: &PmmNode,
        align: usize,
        size: usize,
        r: Option<vaddr_t>,
        after: HeapView,
    ) -> bool {
        let padded = size + align + SIZE_OF_FREE_T;
        match self.spec_growth(valloc, pmm, padded as usize) {
            None => r is None && after == self@,
            Some((area, total)) => {
                let g = self.spec_grown(area, total);
                let unaligned = taken_addr(g, padded) as usize;
                &&& r == Some(Self::aligned_payload(unaligned as int, align as int) as usize)
                &&& after == Self::aligned_view(taken(g, padded), unaligned as int, align as int)
            },
        }
    }

    /// The padded size of a request of `size` bytes at a multiple of
    /// `align` is in range, the free lists cannot serve it, and how the
    /// heap grows for it is pinned down.
    pub open spec fn spec_aligned_grows(&self, valloc: &VirtualAlloc, align: usize, size: usize)
        -> bool {
        let padded = size + align + SIZE_OF_FREE_T;
        &&& size > 0
        &&& align >= 8
        &&& align % 8 == 0
        &&& padded <= HEAP_MAX_ALLOC_SIZE
        &&& !can_take(self@, padded)
        &&& self.spec_growth_pinned(valloc, padded as usize)
    }

    /// The free lists cannot serve a request of `size` bytes, which is in
    /// range, and how the heap grows for it is pinned down.
    pub open spec fn spec_grows(&self, valloc: &VirtualAlloc, size: usize) -> bool {
        &&& 1 <= size <= HEAP_MAX_ALLOC_SIZE
        &&& !can_take(self@, size as int)
        &&& self.spec_growth_pinned(valloc, size)
    }

    /// What serving a request of `size` bytes makes of the allocators
    /// below the heap, `valloc`, `pmm` and `aspace`, which become
    /// `valloc_after`, `pmm_after` and `aspace_after`: nothing changes
    /// where the request is refused, where the free lists serve it, and
    /// where the heap grows by the area that was held back; where the
    /// heap cannot grow, nothing changes but, where `valloc` aligns
    /// allocations beyond a page, the order of the free pages; else
    /// `valloc` allocates the pages of the new area.
    pub open spec fn spec_alloc_below(
        &self,
        valloc: &VirtualAlloc,
        pmm: &PmmNode,
        aspace: &VmAspace,
        size: usize,
        valloc_after: &VirtualAlloc,
        pmm_after: &PmmNode,
        aspace_after: &VmAspace,
    ) -> bool {
        let kept = *valloc_after == *valloc && *pmm_after == *pmm && *aspace_after == *aspace;
        &&& size == 0 || size > HEAP_MAX_ALLOC_SIZE || can_take(self@, size as int) ==> kept
        &&& self.spec_grows(valloc, size) ==> (match self.spec_growth(valloc, pmm, size) {
            None => *valloc_after == *valloc && *aspace_after == *aspace && Self::spec_pmm_kept(
                valloc,
                pmm,
                pmm_after,
            ),
            Some((area, total)) => if self@.cached is Some {
                kept
            } else {
                valloc.alloc_pages_ok(
                    pmm,
                    (total / (PAGE_SIZE as int)) as usize,
                    valloc_after,
                    pmm_after,
                    area as usize,
                )
            },
        })
    }

    /// What freeing the allocation at `ptr` makes of the allocators below
    /// the heap: nothing changes unless a whole area obtained from the OS
    /// leaves the heap while another is held back already, in which case
    /// `valloc` frees its pages.
    pub open spec fn spec_free_below(
        &self,
        valloc: &VirtualAlloc,
        pmm: &PmmNode,
        aspace: &VmAspace,
        ptr: vaddr_t,
        valloc_after: &VirtualAlloc,
        pmm_after: &PmmNode,
        aspace_after: &VmAspace,
    ) -> bool {
        if ptr == 0 || released_to_os(self@, ptr as int) is None {
            *valloc_after == *valloc && *pmm_after == *pmm && *aspace_after == *aspace
        } else {
            valloc.free_pages_ok(
                pmm,
                aspace,
                released_to_os(self@, ptr as int)->Some_0.0 as usize,
                (released_to_os(self@, ptr as int)->Some_0.1 / (PAGE_SIZE as int)) as usize,
                valloc_after,
                pmm_after,
            )
        }
    }

    /// The areas in use of this heap but the one at `ptr` are areas in
    /// use of `other`, which has no others.
    pub open spec fn spec_live_kept_but(&self, other: &Heap, ptr: vaddr_t) -> bool {
        live_kept_but(self@.blocks, other@.blocks, ptr - SIZE_OF_HEADER_T) && live_kept(
            other@.blocks,
            self@.blocks,
        )
    }

    /// The free lists cannot serve a request of `size` bytes, which is in
    /// range, and the area that is held back is too small for the first
    /// try to grow.
    pub open spec fn spec_grows_anew(&self, valloc: &VirtualAlloc, size: usize) -> bool {
        let least = spec_rounded_size(size as int) + SIZE_OF_HEADER_T;
        &&& 1 <= size <= HEAP_MAX_ALLOC_SIZE
        &&& !can_take(self@, size as int)
        &&& self@.cached is Some
        &&& self@.cached->Some_0.1 < Self::grow_total(Self::spec_growby(self@.size, least))
    }

    /// What such a request returns, `r`, and makes of the heap, `after`,
    /// and of the allocators below: the area that is held back is
    /// returned to `valloc`, which makes `valloc_mid` and `pmm_mid` of it
    /// and of `pmm`. From there the heap grows by the first of the sizes
    /// tried by which it can grow, by pages that `valloc_mid` allocates,
    /// and the free lists of the grown heap serve the request; where it
    /// can grow by none of them, the request gets nothing.
    pub open spec fn spec_regrown(
        &self,
        valloc: &VirtualAlloc,
        pmm: &PmmNode,
        aspace: &VmAspace,
        size: usize,
        r: Option<vaddr_t>,
        after: HeapView,
        valloc_after: &VirtualAlloc,
        pmm_after: &PmmNode,
        valloc_mid: &VirtualAlloc,
        pmm_mid: &PmmNode,
    ) -> bool {
        let least = spec_rounded_size(size as int) + SIZE_OF_HEADER_T;
        let first = Self::spec_growby(self@.size, least);
        &&& valloc.free_pages_ok(
            pmm,
            aspace,
            self@.cached->Some_0.0 as usize,
            (self@.cached->Some_0.1 / (PAGE_SIZE as int)) as usize,
            valloc_mid,
            pmm_mid,
        )
        &&& match Self::grow_size(dropped(self@), valloc_mid, pmm_mid, first, least) {
            None => r is None && after == dropped(self@) && *valloc_after == *valloc_mid
                && Self::spec_pmm_kept(valloc_mid, pmm_mid, pmm_after),
            Some(g) => {
                let area = Self::grow_area(valloc_mid, g);
                let total = Self::grow_total(g);
                &&& r == Some(taken_addr(self.spec_grown(area, total), size as int) as usize)
                &&& after == taken(self.spec_grown(area, total), size as int)
                &&& valloc_mid.alloc_pages_ok(
                    pmm_mid,
                    (total / (PAGE_SIZE as int)) as usize,
                    valloc_after,
                    pmm_after,
                    area as usize,
                )
            },
        }
    }

    /// Allocating, freeing at once and allocating the same size again
    /// gives the same bytes also where the free area that served the
    /// first request was all there is in its area obtained from the OS,
    /// which freeing then holds back: `after` is the heap after `before`
    /// served the request and the allocation was freed. Where its free
    /// lists cannot serve the request and the area that is held back is
    /// large enough for the first try to grow, the heap takes that area
    /// in again, and the request is served as the first time.
    pub proof fn lemma_reuse_held_back(
        before: &Heap,
        after: &Heap,
        valloc: &VirtualAlloc,
        pmm: &PmmNode,
        request: usize,
    )
        requires
            before.wf(),
            can_take(before@, request as int),
            before@.cached is None,
            spans_region(
                before@.blocks,
                find_block(before@.blocks, taken_addr(before@, request as int) - SIZE_OF_HEADER_T),
            ),
            after@ == released(taken(before@, request as int), taken_addr(before@, request as int)),
            !can_take(after@, request as int),
            after@.cached is Some ==> after@.cached->Some_0.1 >= Self::grow_total(
                Self::spec_growby(
                    after@.size,
                    spec_rounded_size(request as int) + SIZE_OF_HEADER_T,
                ),
            ),
        ensures
            after.spec_grows(valloc, request),
            after.spec_served_grown(
                valloc,
                pmm,
                request,
                Some(taken_addr(before@, request as int) as usize),
                taken(before@, request as int),
            ),
    {
        crate::klib::heap_model::lemma_free_holds_back(before@, request as int);
    }

    /// On the heap that has only its first area, at `area`, allocating,
    /// freeing at once and allocating the same size again gives the same
    /// bytes: `after` is the heap after `before` served the request and
    /// the allocation was freed.
    #[verifier::spinoff_prover]
    pub proof fn lemma_first_reuse(
        before: &Heap,
        after: &Heap,
        valloc: &VirtualAlloc,
        pmm: &PmmNode,
        area: int,
        request: usize,
    )
        requires
            before.wf(),
            before@ == first_view(area),
            0 <= area,
            area + HEAP_GROW_SIZE <= usize::MAX,
            can_take(before@, request as int),
            after@ == released(taken(before@, request as int), taken_addr(before@, request as int)),
        ensures
            taken_addr(before@, request as int) == area + 2 * SIZE_OF_HEADER_T,
            after.spec_grows(valloc, request),
            after.spec_served_grown(
                valloc,
                pmm,
                request,
                Some((area + 2 * SIZE_OF_HEADER_T) as usize),
                taken(before@, request as int),
            ),
    {
        crate::klib::heap_model::lemma_first_released(area, request as int);
        let least = spec_rounded_size(request as int) + SIZE_OF_HEADER_T;
        assert(least <= HEAP_USABLE_GROW_SIZE);
        assert(after@.size == HEAP_GROW_SIZE);
        assert(Self::spec_growby(HEAP_GROW_SIZE as int, least) == HEAP_USABLE_GROW_SIZE);
        assert(Self::grow_total(HEAP_USABLE_GROW_SIZE as int) == HEAP_GROW_SIZE) by {
            lemma_roundup_alt(
                (HEAP_USABLE_GROW_SIZE + HEAP_GROW_OVER_HEAD) as int,
                PAGE_SIZE as int,
            );
        }
        assert(!can_take(after@, request as int));
        Self::lemma_reuse_held_back(before, after, valloc, pmm, request);
    }

    /// The padded size of a request of `size` bytes at a multiple of
    /// `align` is in range.
    pub open spec fn spec_padded_fits(align: usize, size: usize) -> bool {
        size > 0 && align >= 8 && align % 8 == 0 && size + align + SIZE_OF_FREE_T
            <= HEAP_MAX_ALLOC_SIZE
    }

    /// The padded size of a request of `size` bytes at a multiple of
    /// `align`.
    pub open spec fn spec_padded(align: usize, size: usize) -> usize {
        (size + align + SIZE_OF_FREE_T) as usize
    }

    /// What a request of `size` bytes at a multiple of `align` returns,
    /// `r`, and makes of the heap, `after`, and of the allocators below,
    /// where the free lists cannot serve its padded size and the area
    /// that is held back is too small for the first try to grow: as for a
    /// plain request of the padded size, with the front of what the grown
    /// heap gives cut off at the alignment and freed.
    pub open spec fn spec_aligned_regrown(
        &self,
        valloc: &VirtualAlloc,
        pmm: &PmmNode,
        aspace: &VmAspace,
        align: usize,
        size: usize,
        r: Option<vaddr_t>,
        after: HeapView,
        valloc_after: &VirtualAlloc,
        pmm_after: &PmmNode,
        valloc_mid: &VirtualAlloc,
        pmm_mid: &PmmNode,
    ) -> bool {
        let padded = size + align + SIZE_OF_FREE_T;
        let least = spec_rounded_size(padded) + SIZE_OF_HEADER_T;
        let first = Self::spec_growby(self@.size, least);
        &&& valloc.free_pages_ok(
            pmm,
            aspace,
            self@.cached->Some_0.0 as usize,
            (self@.cached->Some_0.1 / (PAGE_SIZE as int)) as usize,
            valloc_mid,
            pmm_mid,
        )
        &&& match Self::grow_size(dropped(self@), valloc_mid, pmm_mid, first, least) {
            None => r is None && after == dropped(self@) && *valloc_after == *valloc_mid
                && Self::spec_pmm_kept(valloc_mid, pmm_mid, pmm_after),
            Some(g) => {
                let area = Self::grow_area(valloc_mid, g);
                let total = Self::grow_total(g);
                let unaligned = taken_addr(self.spec_grown(area, total), padded) as usize;
                &&& r == Some(Self::aligned_payload(unaligned as int, align as int) as usize)
                &&& after == Self::aligned_view(
                    taken(self.spec_grown(area, total), padded),
                    unaligned as int,
                    align as int,
                )
                &&& valloc_mid.alloc_pages_ok(
                    pmm_mid,
                    (total / (PAGE_SIZE as int)) as usize,
                    valloc_after,
                    pmm_after,
                    area as usize,
                )
            },
        }
    }

    /// The heap after it grew by the area of `total` bytes at `area`.
    pub open spec fn spec_grown(&self, area: int, total: int) -> HeapView {
        grown(dropped(self@), area, total, dropped(self@).size + total)
    }

    /// What growing by `growby` bytes gives when the area held back by
    /// the heap `v` is too small for it: the area is returned to `valloc`,
    /// which makes `valloc_mid` and `pmm_mid` of it and of `pmm`; from
    /// there the heap grows exactly if it can, by pages that `valloc_mid`
    /// allocates; and where it cannot, `valloc_mid` is what is left, and
    /// `pmm_mid` too but for the order of its free pages.
    pub open spec fn spec_grow_after_drop(
        v: HeapView,
        valloc: &VirtualAlloc,
        pmm: &PmmNode,
        aspace: &VmAspace,
        growby: int,
        r: Result<(vaddr_t, usize), ErrNO>,
        valloc_after: &VirtualAlloc,
        pmm_after: &PmmNode,
        valloc_mid: &VirtualAlloc,
        pmm_mid: &PmmNode,
    ) -> bool {
        &&& valloc.free_pages_ok(
            pmm,
            aspace,
            v.cached->Some_0.0 as usize,
            (v.cached->Some_0.1 / (PAGE_SIZE as int)) as usize,
            valloc_mid,
            pmm_mid,
        )
        &&& valloc_mid.spec_align_log2() == valloc.spec_align_log2()
        &&& r is Ok <==> Self::can_grow(dropped(v), valloc_mid, pmm_mid, growby)
        &&& r is Ok ==> r->Ok_0.1 == Self::grow_total(growby) && valloc_mid.alloc_pages_ok(
            pmm_mid,
            (r->Ok_0.1 / PAGE_SIZE) as usize,
            valloc_after,
            pmm_after,
            r->Ok_0.0,
        )
        &&& r is Err ==> *valloc_after == *valloc_mid && Self::spec_pmm_kept(
            valloc_mid,
            pmm_mid,
            pmm_after,
        )
    }

    /// What growing gives, with `first` bytes tried first and then half
    /// as much each time down to `least`, when the area held back by the
    /// heap `v` is too small for the first try: the area is returned to
    /// `valloc`, which
    /// makes `valloc_mid` and `pmm_mid` of it and of `pmm`; from there the
    /// heap grows by the first of the sizes tried by which it can grow,
    /// and not at all if there is none.
    pub open spec fn spec_grown_after_drop(
        v: HeapView,
        valloc: &VirtualAlloc,
        pmm: &PmmNode,
        aspace: &VmAspace,
        first: int,
        least: int,
        r: Result<(vaddr_t, usize), ErrNO>,
        valloc_after: &VirtualAlloc,
        pmm_after: &PmmNode,
        valloc_mid: &VirtualAlloc,
        pmm_mid: &PmmNode,
    ) -> bool {
        &&& valloc.free_pages_ok(
            pmm,
            aspace,
            v.cached->Some_0.0 as usize,
            (v.cached->Some_0.1 / (PAGE_SIZE as int)) as usize,
            valloc_mid,
            pmm_mid,
        )
        &&& match Self::grow_size(dropped(v), valloc_mid, pmm_mid, first, least) {
            None => r is Err && *valloc_after == *valloc_mid && Self::spec_pmm_kept(
                valloc_mid,
                pmm_mid,
                pmm_after,
            ),
            Some(g) => r is Ok && r->Ok_0.0 == Self::grow_area(valloc_mid, g) && r->Ok_0.1
                == Self::grow_total(g) && valloc_mid.alloc_pages_ok(
                pmm_mid,
                (r->Ok_0.1 / PAGE_SIZE) as usize,
                valloc_after,
                pmm_after,
                r->Ok_0.0,
            ),
        }
    }

    /// Makes a new free area of at least `least` bytes, header included:
    /// tries `growby` bytes first and then half as much each time, but no
    /// less than `least` bytes, until the heap has grown. Returns where
    /// the area obtained from the OS starts and how many bytes it has.
    fn grow_until(
        &mut self,
        first: usize,
        least: usize,
        valloc: &mut VirtualAlloc,
        pmm: &mut PmmNode,
        aspace: &mut VmAspace,
    ) -> (r: Result<(vaddr_t, usize), ErrNO>)
        requires
            old(self).wf(),
            least <= first <= HEAP_LARGE_ALLOC_BYTES,
            hosted(old(self)@, old(valloc)),
            old(valloc).wf(),
            old(pmm).wf(),
            old(aspace).wf(),
            old(valloc).backed(old(pmm), old(aspace)),
        ensures
            final(self).wf(),
            hosted(final(self)@, final(valloc)),
            final(valloc).wf(),
            final(pmm).wf(),
            final(aspace).wf(),
            final(valloc).backed(final(pmm), final(aspace)),
            r is Err ==> final(self)@ == dropped(old(self)@) && r == Err::<(vaddr_t, usize), ErrNO>(
                ErrNO::NoMem,
            ),
            r is Ok ==> ({
                let (area, total) = r->Ok_0;
                &&& final(self)@ == grown(
                    dropped(old(self)@),
                    area as int,
                    total as int,
                    dropped(old(self)@).size + total,
                )
                &&& total >= least + HEAP_GROW_OVER_HEAD
                &&& splits_at(
                    old(self)@.blocks,
                    area as int,
                    region_position(old(self)@.blocks, area as int),
                )
                &&& forall|a: int|
                    area <= a < area + total ==> !#[trigger] in_heap(old(self)@.blocks, a)
                &&& forall|request: int|
                    1 <= request <= HEAP_MAX_ALLOC_SIZE && spec_rounded_size(request) + 3
                        * SIZE_OF_HEADER_T <= total ==> #[trigger] has_nonempty(
                        final(self)@.lists,
                        spec_size_to_index_allocating(request),
                    )
            }),
            old(self)@.cached is Some && old(self)@.cached->Some_0.1 >= Self::grow_total(
                first as int,
            ) ==> r == Ok::<(vaddr_t, usize), ErrNO>(
                (old(self)@.cached->Some_0.0 as usize, old(self)@.cached->Some_0.1 as usize),
            ) && *final(valloc) == *old(valloc) && *final(pmm) == *old(pmm) && *final(aspace)
                == *old(aspace),
            old(self)@.cached is None ==> (match Self::grow_size(
                old(self)@,
                old(valloc),
                old(pmm),
                first as int,
                least as int,
            ) {
                None => r is Err && *final(valloc) == *old(valloc) && Self::spec_pmm_kept(
                    old(valloc),
                    old(pmm),
                    final(pmm),
                ) && *final(aspace) == *old(aspace),
                Some(g) => r is Ok && r->Ok_0.0 == Self::grow_area(old(valloc), g) && r->Ok_0.1
                    == Self::grow_total(g) && old(valloc).alloc_pages_ok(
                    old(pmm),
                    (r->Ok_0.1 / PAGE_SIZE) as usize,
                    final(valloc),
                    final(pmm),
                    r->Ok_0.0,
                ),
            }),
            old(self)@.cached is Some && old(self)@.cached->Some_0.1 < Self::grow_total(
                first as int,
            ) ==> exists|valloc_mid: VirtualAlloc, pmm_mid: PmmNode| #[trigger]
                Self::spec_grown_after_drop(
                    old(self)@,
                    old(valloc),
                    old(pmm),
                    old(aspace),
                    first as int,
                    least as int,
                    r,
                    final(valloc),
                    final(pmm),
                    &valloc_mid,
                    &pmm_mid,
                ),
    {
        let ghost v0 = self@;
        let ghost small = v0.cached is Some && v0.cached->Some_0.1 < Self::grow_total(first as int);
        let ghost mut dropped_now = false;
        let ghost mut mid_v = *valloc;
        let ghost mut mid_p = *pmm;
        let mut growby = first;
        proof {
            lemma_dropped_wf(v0);
            crate::allocator::lemma_updated_same(old(pmm), crate::vm_page_state::ALLOC);
        }
        // Try to add a new OS allocation to the heap, reducing the size
        // until we succeed or get too small.
        loop
            invariant
                self.wf(),
                hosted(self@, &*valloc),
                valloc.wf(),
                pmm.wf(),
                aspace.wf(),
                valloc.backed(&*pmm, &*aspace),
                view_wf(v0),
                v0 == old(self)@,
                self@ == v0 || (self@ == dropped(v0) && self@.cached is None),
                least <= growby <= HEAP_LARGE_ALLOC_BYTES,
                small == (v0.cached is Some && v0.cached->Some_0.1 < Self::grow_total(first as int)),
                v0.cached is Some && v0.cached->Some_0.1 >= Self::grow_total(first as int)
                    ==> growby == first && self@ == v0 && *valloc == *old(valloc) && *pmm == *old(pmm) && *aspace == *old(aspace),
                old(pmm).wf(),
                old(valloc).wf(),
                v0.cached is None ==> self@ == v0 && *valloc == *old(valloc) && Self::spec_pmm_kept(
                    old(valloc),
                    old(pmm),
                    &*pmm,
                ) && *aspace == *old(aspace) && Self::grow_size(
                    v0,
                    old(valloc),
                    old(pmm),
                    first as int,
                    least as int,
                ) == Self::grow_size(v0, old(valloc), old(pmm), growby as int, least as int),
                small && !dropped_now ==> growby == first && self@ == v0 && *valloc == *old(valloc)
                    && *pmm == *old(pmm) && *aspace == *old(aspace),
                small && dropped_now ==> self@ == dropped(v0) && *valloc == mid_v
                    && Self::spec_pmm_kept(&mid_v, &mid_p, &*pmm) && old(valloc).free_pages_ok(
                    old(pmm),
                    old(aspace),
                    v0.cached->Some_0.0 as usize,
                    (v0.cached->Some_0.1 / (PAGE_SIZE as int)) as usize,
                    &mid_v,
                    &mid_p,
                ) && Self::grow_size(dropped(v0), &mid_v, &mid_p, first as int, least as int)
                    == Self::grow_size(dropped(v0), &mid_v, &mid_p, growby as int, least as int),
            decreases growby,
        {
            let ghost before = self@;
            let ghost before_v = *valloc;
            let ghost before_p = *pmm;
            let ghost before_a = *aspace;
            proof {
                lemma_roundup((growby + HEAP_GROW_OVER_HEAD) as int, PAGE_SIZE as int);
            }
            let ghost was_dropped = dropped_now;
            proof {
                if v0.cached is None {
                    old(valloc).lemma_can_alloc_same(
                        old(pmm),
                        &before_p,
                        (Self::grow_total(growby as int) / (PAGE_SIZE as int)) as usize,
                    );
                }
                if small && dropped_now {
                    mid_v.lemma_can_alloc_same(
                        &mid_p,
                        &before_p,
                        (Self::grow_total(growby as int) / (PAGE_SIZE as int)) as usize,
                    );
                }
            }
            let grown = self.heap_grow(growby, valloc, pmm, aspace);
            proof {
                assert(Set::<usize>::empty().union(Set::<usize>::empty()) =~= Set::<usize>::empty());
                if v0.cached is None && grown is Err {
                    old(pmm).lemma_updated_trans(
                        &before_p,
                        &*pmm,
                        Set::empty(),
                        Set::empty(),
                        crate::vm_page_state::ALLOC,
                    );
                }
                if small && was_dropped && grown is Err {
                    mid_p.lemma_updated_trans(
                        &before_p,
                        &*pmm,
                        Set::empty(),
                        Set::empty(),
                        crate::vm_page_state::ALLOC,
                    );
                }
                if small && !dropped_now {
                    let (mv, mp) = choose|mv: VirtualAlloc, mp: PmmNode| #[trigger]
                        Self::spec_grow_after_drop(
                            v0,
                            &before_v,
                            &before_p,
                            &before_a,
                            growby as int,
                            grown,
                            &*valloc,
                            &*pmm,
                            &mv,
                            &mp,
                        );
                    mid_v = mv;
                    mid_p = mp;
                    dropped_now = true;
                    if grown is Ok {
                        assert(Self::spec_grown_after_drop(
                            v0,
                            old(valloc),
                            old(pmm),
                            old(aspace),
                            first as int,
                            least as int,
                            grown,
                            &*valloc,
                            &*pmm,
                            &mid_v,
                            &mid_p,
                        ));
                    }
                } else if small && grown is Ok {
                    assert(Self::can_grow(dropped(v0), &mid_v, &mid_p, growby as int));
                    assert(Self::spec_grown_after_drop(
                        v0,
                        old(valloc),
                        old(pmm),
                        old(aspace),
                        first as int,
                        least as int,
                        grown,
                        &*valloc,
                        &*pmm,
                        &mid_v,
                        &mid_p,
                    ));
                }
            }
            match grown {
                Ok((area, total)) => {
                    proof {
                        assert(dropped(before) == dropped(v0));
                    }
                    return Ok((area, total));
                },
                Err(_) => {
                    if growby <= least {
                        proof {
                            if small {
                                assert(Self::spec_grown_after_drop(
                                    v0,
                                    old(valloc),
                                    old(pmm),
                                    old(aspace),
                                    first as int,
                                    least as int,
                                    Err::<(vaddr_t, usize), ErrNO>(ErrNO::NoMem),
                                    &*valloc,
                                    &*pmm,
                                    &mid_v,
                                    &mid_p,
                                ));
                            }
                        }
                        return Err(ErrNO::NoMem);
                    }
                    let half = growby / 2;
                    growby = if half > least {
                        half
                    } else {
                        least
                    };
                },
            }
        }
    }

    /// Allocates `size` bytes and returns where they start, or nothing.
    /// A request of no bytes, or of more than the largest size, gets
    /// nothing. A request that the free lists can serve is served from
    /// them. Otherwise the heap is grown by at least an eighth of its
    /// size and the least amount it grows by, or by as much as the request
    /// needs; while `valloc` cannot give that much, half as much is asked
    /// for, down to what the request needs; and when `valloc` cannot give
    /// even that, the request gets nothing.
    pub fn allocate(
        &mut self,
        size: usize,
        valloc: &mut VirtualAlloc,
        pmm: &mut PmmNode,
        aspace: &mut VmAspace,
    ) -> (r: Option<vaddr_t>)
        requires
            old(self).wf(),
            hosted(old(self)@, old(valloc)),
            old(valloc).wf(),
            old(pmm).wf(),
            old(aspace).wf(),
            old(valloc).backed(old(pmm), old(aspace)),
        ensures
            final(self).wf(),
            hosted(final(self)@, final(valloc)),
            final(valloc).wf(),
            final(pmm).wf(),
            final(aspace).wf(),
            final(valloc).backed(final(pmm), final(aspace)),
            size == 0 || size > HEAP_MAX_ALLOC_SIZE ==> r is None && final(self)@ == old(self)@
                && *final(valloc) == *old(valloc) && *final(pmm) == *old(pmm) && *final(aspace)
                == *old(aspace),
            can_take(old(self)@, size as int) ==> r == Some(
                taken_addr(old(self)@, size as int) as usize,
            ) && final(self)@ == taken(old(self)@, size as int) && *final(valloc) == *old(valloc)
                && *final(pmm) == *old(pmm) && *final(aspace) == *old(aspace),
            1 <= size <= HEAP_MAX_ALLOC_SIZE && !can_take(old(self)@, size as int) ==> (match r {
                None => final(self)@ == dropped(old(self)@),
                Some(ptr) => exists|area: int, total: int|
                    #![trigger grown(dropped(old(self)@), area, total, dropped(old(self)@).size + total)]
                    {
                        let g = grown(
                            dropped(old(self)@),
                            area,
                            total,
                            dropped(old(self)@).size + total,
                        );
                        &&& view_wf(g)
                        &&& can_take(g, size as int)
                        &&& final(self)@ == taken(g, size as int)
                        &&& ptr == taken_addr(g, size as int)
                        &&& forall|a: int|
                            area <= a < area + total ==> !#[trigger] in_heap(old(self)@.blocks, a)
                    },
            }),
            1 <= size <= HEAP_MAX_ALLOC_SIZE && !can_take(old(self)@, size as int) && old(self).spec_growth_pinned(old(valloc), size) ==> (match old(self).spec_growth(
                old(valloc),
                old(pmm),
                size,
            ) {
                None => r is None && final(self)@ == old(self)@ && *final(valloc) == *old(valloc)
                    && Self::spec_pmm_kept(old(valloc), old(pmm), final(pmm)) && *final(aspace)
                    == *old(aspace),
                Some((area, total)) => r == Some(
                    taken_addr(old(self).spec_grown(area, total), size as int) as usize,
                ) && final(self)@ == taken(old(self).spec_grown(area, total), size as int) && (old(self)@.cached is Some ==> *final(valloc) == *old(valloc) && *final(pmm) == *old(pmm)
                    && *final(aspace) == *old(aspace)) && (old(self)@.cached is None ==> old(valloc).alloc_pages_ok(
                    old(pmm),
                    (total / (PAGE_SIZE as int)) as usize,
                    final(valloc),
                    final(pmm),
                    area as usize,
                )),
            }),
            old(self).spec_alloc_below(
                old(valloc),
                old(pmm),
                old(aspace),
                size,
                final(valloc),
                final(pmm),
                final(aspace),
            ),
            old(self).spec_grows_anew(old(valloc), size) ==> exists|
                valloc_mid: VirtualAlloc,
                pmm_mid: PmmNode,
            | #[trigger]
                old(self).spec_regrown(
                    old(valloc),
                    old(pmm),
                    old(aspace),
                    size,
                    r,
                    final(self)@,
                    final(valloc),
                    final(pmm),
                    &valloc_mid,
                    &pmm_mid,
                ),
            live_kept(old(self)@.blocks, final(self)@.blocks),
            r is Some ==> final(self).spec_is_allocated(r->Some_0) && final(self).spec_capacity(
                r->Some_0,
            ) >= size && !old(self).spec_is_allocated(r->Some_0),
    {
        let ghost v0 = self@;
        let ghost mut mid_v = *valloc;
        let ghost mut mid_p = *pmm;
        proof {
            crate::klib::heap_model::lemma_live_kept_same(v0.blocks);
        }
        if size == 0 {
            return None;
        }
        // Large allocations are no longer allowed.
        if size > HEAP_MAX_ALLOC_SIZE {
            return None;
        }
        let (start_bucket, rounded) = size_to_index_allocating(size);
        let rounded_up = rounded + SIZE_OF_HEADER_T;
        if self.find_nonempty_bucket(start_bucket).is_err() {
            // Grow heap by at least 12% if we can.
            let eighth = self.size / 8;
            let wanted = if eighth > HEAP_USABLE_GROW_SIZE {
                eighth
            } else {
                HEAP_USABLE_GROW_SIZE
            };
            let wanted = if wanted > rounded_up {
                wanted
            } else {
                rounded_up
            };
            let growby = if wanted < HEAP_LARGE_ALLOC_BYTES {
                wanted
            } else {
                HEAP_LARGE_ALLOC_BYTES
            };
            let grown = self.grow_until(growby, rounded_up, valloc, pmm, aspace);
            proof {
                assert(growby == Self::spec_growby(v0.size, rounded_up as int));
                if old(self).spec_grows_anew(old(valloc), size) {
                    let (mv, mp) = choose|mv: VirtualAlloc, mp: PmmNode| #[trigger]
                        Self::spec_grown_after_drop(
                            v0,
                            old(valloc),
                            old(pmm),
                            old(aspace),
                            growby as int,
                            rounded_up as int,
                            grown,
                            &*valloc,
                            &*pmm,
                            &mv,
                            &mp,
                        );
                    mid_v = mv;
                    mid_p = mp;
                    if grown is Err {
                        assert(old(self).spec_regrown(
                            old(valloc),
                            old(pmm),
                            old(aspace),
                            size,
                            None::<vaddr_t>,
                            self@,
                            &*valloc,
                            &*pmm,
                            &mid_v,
                            &mid_p,
                        ));
                    }
                }
            }
            match grown {
                Err(_) => {
                    proof {
                        crate::klib::heap_model::lemma_live_kept_same(v0.blocks);
                        assert(growby == Self::spec_growby(v0.size, rounded_up as int));
                        if old(self).spec_growth_pinned(old(valloc), size) {
                            assert(v0.cached is None);
                            assert(old(self).spec_growth(old(valloc), old(pmm), size) is None);
                            assert(dropped(v0) == v0);
                        }
                    }
                    return None;
                },
                Ok((area, total)) => {
                    proof {
                        lemma_dropped_wf(v0);
                        assert(growby == Self::spec_growby(v0.size, rounded_up as int));
                        if old(self).spec_growth_pinned(old(valloc), size) {
                            assert(old(self).spec_growth(old(valloc), old(pmm), size) == Some(
                                (area as int, total as int),
                            ));
                        }
                        crate::klib::heap_model::lemma_grown_live_any(
                            dropped(v0),
                            area as int,
                            total as int,
                            dropped(v0).size + total,
                        );
                    }
                },
            }
        }
        let ghost g = self@;
        proof {
            lemma_taken_wf(g, size as int);
            lemma_taken_live(g, size as int);
            lemma_live_kept_trans(v0.blocks, g.blocks, taken(g, size as int).blocks);
            crate::klib::heap_model::lemma_taken_fresh(v0, g, size as int);
        }
        let ptr = self.take(size);
        proof {
            assert forall|a: int| #[trigger] in_heap(self@.blocks, a) implies covers(&*valloc, a) by {
                assert(in_heap(g.blocks, a));
            }
            if old(self).spec_grows_anew(old(valloc), size) {
                assert(old(self).spec_regrown(
                    old(valloc),
                    old(pmm),
                    old(aspace),
                    size,
                    Some(ptr),
                    self@,
                    &*valloc,
                    &*pmm,
                    &mid_v,
                    &mid_p,
                ));
            }
        }
        Some(ptr)
    }

    /// Frees the allocation whose bytes start at `ptr`, which must be in
    /// use; freeing an allocation twice is a fatal mistake of the caller.
    /// Nothing happens for the address 0. The area is merged with its
    /// free neighbours; if the merged area is all there is between the
    /// sentinels of an area obtained from the OS, that whole area leaves
    /// the heap, to be held back for reuse if nothing is held back yet,
    /// else to be returned to `valloc`; otherwise the merged area joins
    /// the bucket of its size.
    pub fn free(&mut self, ptr: vaddr_t, valloc: &mut VirtualAlloc, pmm: &mut PmmNode, aspace: &mut VmAspace)
        requires
            old(self).wf(),
            ptr == 0 || old(self).spec_is_allocated(ptr),
            hosted(old(self)@, old(valloc)),
            old(valloc).wf(),
            old(pmm).wf(),
            old(aspace).wf(),
            old(valloc).backed(old(pmm), old(aspace)),
        ensures
            final(self).wf(),
            hosted(final(self)@, final(valloc)),
            final(valloc).wf(),
            final(pmm).wf(),
            final(aspace).wf(),
            final(valloc).backed(final(pmm), final(aspace)),
            ptr == 0 ==> final(self)@ == old(self)@ && *final(valloc) == *old(valloc) && *final(pmm)
                == *old(pmm) && *final(aspace) == *old(aspace),
            ptr != 0 ==> final(self)@ == released(old(self)@, ptr as int) && !final(self).spec_is_allocated(ptr) && live_kept_but(
                old(self)@.blocks,
                final(self)@.blocks,
                ptr - SIZE_OF_HEADER_T,
            ) && live_kept(final(self)@.blocks, old(self)@.blocks),
            old(self).spec_free_below(
                old(valloc),
                old(pmm),
                old(aspace),
                ptr,
                final(valloc),
                final(pmm),
                final(aspace),
            ),
            ptr != 0 && released_to_os(old(self)@, ptr as int) is None ==> *final(valloc) == *old(valloc) && *final(pmm) == *old(pmm) && *final(aspace) == *old(aspace),
            ptr != 0 && released_to_os(old(self)@, ptr as int) is Some ==> old(valloc).free_pages_ok(
                old(pmm),
                old(aspace),
                released_to_os(old(self)@, ptr as int)->Some_0.0 as usize,
                (released_to_os(old(self)@, ptr as int)->Some_0.1 / (PAGE_SIZE as int)) as usize,
                final(valloc),
                final(pmm),
            ),
    {
        if ptr == 0 {
            return ;
        }
        let i = self.block_index(ptr - SIZE_OF_HEADER_T).unwrap();
        proof {
            lemma_released_live(self@, ptr as int);
            lemma_released_wf(self@, ptr as int);
            crate::klib::heap_model::lemma_released_gone(self@, ptr as int);
        }
        self.release(i, valloc, pmm, aspace);
    }

    /// Allocates `size` bytes that start at a multiple of `align`, and
    /// returns where they start, or nothing. An alignment below 8 asks for
    /// nothing special; a larger one must be a multiple of 8. Room for the
    /// request, the alignment and a free area is allocated, the bytes in
    /// front of the aligned address are cut off and freed, and so take
    /// part in merging with their neighbours.
    pub fn memalign(
        &mut self,
        align: usize,
        size: usize,
        valloc: &mut VirtualAlloc,
        pmm: &mut PmmNode,
        aspace: &mut VmAspace,
    ) -> (r: Option<vaddr_t>)
        requires
            old(self).wf(),
            hosted(old(self)@, old(valloc)),
            old(valloc).wf(),
            old(pmm).wf(),
            old(aspace).wf(),
            old(valloc).backed(old(pmm), old(aspace)),
        ensures
            final(self).wf(),
            hosted(final(self)@, final(valloc)),
            final(valloc).wf(),
            final(pmm).wf(),
            final(aspace).wf(),
            final(valloc).backed(final(pmm), final(aspace)),
            size == 0 || (align >= 8 && (align % 8 != 0 || size + align + SIZE_OF_FREE_T
                > HEAP_MAX_ALLOC_SIZE)) ==> r is None && final(self)@ == old(self)@,
            size > 0 && align < 8 && can_take(old(self)@, size as int) ==> r == Some(
                taken_addr(old(self)@, size as int) as usize,
            ) && final(self)@ == taken(old(self)@, size as int),
            size > 0 && align >= 8 && align % 8 == 0 && can_take(
                old(self)@,
                size + align + SIZE_OF_FREE_T,
            ) ==> ({
                let padded = size + align + SIZE_OF_FREE_T;
                let unaligned = taken_addr(old(self)@, padded) as usize;
                &&& r == Some(Self::aligned_payload(unaligned as int, align as int) as usize)
                &&& final(self)@ == Self::aligned_view(
                    taken(old(self)@, padded),
                    unaligned as int,
                    align as int,
                )
            }),
            align < 8 ==> old(self).spec_alloc_below(
                old(valloc),
                old(pmm),
                old(aspace),
                size,
                final(valloc),
                final(pmm),
                final(aspace),
            ),
            size == 0 || (align >= 8 && !Self::spec_padded_fits(align, size)) ==> *final(valloc)
                == *old(valloc) && *final(pmm) == *old(pmm) && *final(aspace) == *old(aspace),
            Self::spec_padded_fits(align, size) ==> old(self).spec_alloc_below(
                old(valloc),
                old(pmm),
                old(aspace),
                Self::spec_padded(align, size),
                final(valloc),
                final(pmm),
                final(aspace),
            ),
            align < 8 && old(self).spec_grows_anew(old(valloc), size) ==> exists|
                valloc_mid: VirtualAlloc,
                pmm_mid: PmmNode,
            | #[trigger]
                old(self).spec_regrown(
                    old(valloc),
                    old(pmm),
                    old(aspace),
                    size,
                    r,
                    final(self)@,
                    final(valloc),
                    final(pmm),
                    &valloc_mid,
                    &pmm_mid,
                ),
            Self::spec_padded_fits(align, size) && old(self).spec_grows_anew(
                old(valloc),
                Self::spec_padded(align, size),
            ) ==> exists|valloc_mid: VirtualAlloc, pmm_mid: PmmNode| #[trigger]
                old(self).spec_aligned_regrown(
                    old(valloc),
                    old(pmm),
                    old(aspace),
                    align,
                    size,
                    r,
                    final(self)@,
                    final(valloc),
                    final(pmm),
                    &valloc_mid,
                    &pmm_mid,
                ),
            align < 8 && size > HEAP_MAX_ALLOC_SIZE ==> r is None && final(self)@ == old(self)@,
            align < 8 && old(self).spec_grows(old(valloc), size) ==> old(self).spec_served_grown(
                old(valloc),
                old(pmm),
                size,
                r,
                final(self)@,
            ),
            old(self).spec_aligned_grows(old(valloc), align, size) ==> old(self).spec_aligned_grown(
                old(valloc),
                old(pmm),
                align,
                size,
                r,
                final(self)@,
            ),
            live_kept(old(self)@.blocks, final(self)@.blocks),
            r is Some ==> final(self).spec_is_allocated(r->Some_0) && final(self).spec_capacity(
                r->Some_0,
            ) >= size && !old(self).spec_is_allocated(r->Some_0) && (align >= 8 ==> r->Some_0
                % align == 0),
    {
        let ghost v0 = self@;
        proof {
            crate::klib::heap_model::lemma_live_kept_same(v0.blocks);
        }
        if size == 0 {
            return None;
        }
        if align < 8 {
            return self.allocate(size, valloc, pmm, aspace);
        }
        if align % 8 != 0 || align > HEAP_MAX_ALLOC_SIZE - SIZE_OF_FREE_T || size
            > HEAP_MAX_ALLOC_SIZE - SIZE_OF_FREE_T - align {
            return None;
        }
        let padded_size = size + align + SIZE_OF_FREE_T;
        let served = self.allocate(padded_size, valloc, pmm, aspace);
        let ghost mut mid_v = *valloc;
        let ghost mut mid_p = *pmm;
        proof {
            if old(self).spec_grows_anew(old(valloc), padded_size) {
                let (mv, mp) = choose|mv: VirtualAlloc, mp: PmmNode| #[trigger]
                    old(self).spec_regrown(
                        old(valloc),
                        old(pmm),
                        old(aspace),
                        padded_size,
                        served,
                        self@,
                        &*valloc,
                        &*pmm,
                        &mv,
                        &mp,
                    );
                mid_v = mv;
                mid_p = mp;
                if served is None {
                    assert(old(self).spec_aligned_regrown(
                        old(valloc),
                        old(pmm),
                        old(aspace),
                        align,
                        size,
                        None::<vaddr_t>,
                        self@,
                        &*valloc,
                        &*pmm,
                        &mid_v,
                        &mid_p,
                    ));
                }
            }
        }
        let unaligned = match served {
            None => {
                return None;
            },
            Some(unaligned) => unaligned,
        };
        let ghost v1 = self@;
        let payload = self.carve_aligned(unaligned, align, size, valloc, pmm, aspace);
        proof {
            if old(self).spec_grows_anew(old(valloc), padded_size) {
                assert(old(self).spec_aligned_regrown(
                    old(valloc),
                    old(pmm),
                    old(aspace),
                    align,
                    size,
                    Some(payload),
                    self@,
                    &*valloc,
                    &*pmm,
                    &mid_v,
                    &mid_p,
                ));
            }
            crate::klib::heap_model::lemma_live_kept_but_trans(
                v0.blocks,
                v1.blocks,
                self@.blocks,
                unaligned - SIZE_OF_HEADER_T,
            );
            if has_block(v0.blocks, payload - SIZE_OF_HEADER_T) && is_live(
                v0.blocks,
                find_block(v0.blocks, payload - SIZE_OF_HEADER_T),
            ) {
                let k = find_block(v0.blocks, payload - SIZE_OF_HEADER_T);
                assert(live_at(v1.blocks, v0.blocks[k].addr, v0.blocks[k].size));
            }
        }
        Some(payload)
    }

    /// Where the bytes of an allocation start that is cut to the alignment
    /// `align` from the allocation at `unaligned`: at the first multiple
    /// of `align` that leaves room for a free area before it.
    pub open spec fn aligned_payload(unaligned: int, align: int) -> int {
        spec_roundup(unaligned + SIZE_OF_FREE_T, align)
    }

    /// The heap `v` after the allocation at `unaligned` was cut to the
    /// alignment `align` and the front that was cut off was freed.
    #[verifier::opaque]
    pub open spec fn aligned_view(v: HeapView, unaligned: int, align: int) -> HeapView {
        let i = find_block(v.blocks, unaligned - SIZE_OF_HEADER_T);
        let front = Self::aligned_payload(unaligned, align) - unaligned;
        released(HeapView { blocks: split_blocks(v.blocks, i, front), ..v }, unaligned)
    }

    /// Cuts the front off the allocation at `unaligned`, which has room
    /// for `size` bytes, the alignment and a free area, so that what is
    /// left starts at a multiple of `align`; the front is freed. Returns
    /// where the bytes of what is left start.
    #[verifier::rlimit(100)]
    #[verifier::spinoff_prover]
    fn carve_aligned(
        &mut self,
        unaligned: vaddr_t,
        align: usize,
        size: usize,
        valloc: &mut VirtualAlloc,
        pmm: &mut PmmNode,
        aspace: &mut VmAspace,
    ) -> (payload: vaddr_t)
        requires
            old(self).wf(),
            hosted(old(self)@, old(valloc)),
            old(valloc).wf(),
            old(pmm).wf(),
            old(aspace).wf(),
            old(valloc).backed(old(pmm), old(aspace)),
            old(self).spec_is_allocated(unaligned),
            old(self).spec_capacity(unaligned) >= size + align + SIZE_OF_FREE_T,
            align >= 8,
            align % 8 == 0,
            size > 0,
        ensures
            final(self).wf(),
            hosted(final(self)@, final(valloc)),
            final(valloc).wf(),
            final(pmm).wf(),
            final(aspace).wf(),
            final(valloc).backed(final(pmm), final(aspace)),
            live_kept_but(
                old(self)@.blocks,
                final(self)@.blocks,
                unaligned - SIZE_OF_HEADER_T,
            ),
            final(self).spec_is_allocated(payload),
            final(self).spec_capacity(payload) >= size,
            payload % align == 0,
            !has_block(old(self)@.blocks, payload - SIZE_OF_HEADER_T),
            payload == Self::aligned_payload(unaligned as int, align as int),
            final(self)@ == Self::aligned_view(old(self)@, unaligned as int, align as int),
            *final(valloc) == *old(valloc),
            *final(pmm) == *old(pmm),
            *final(aspace) == *old(aspace),
    {
        let ghost v1 = self@;
        let i = self.block_index(unaligned - SIZE_OF_HEADER_T).unwrap();
        proof {
            lemma_block_basic(v1.blocks, i as int);
            lemma_roundup((unaligned + SIZE_OF_FREE_T) as int, align as int);
            crate::klib::heap_model::lemma_multiple_of_8(
                spec_roundup((unaligned + SIZE_OF_FREE_T) as int, align as int),
                align as int,
            );
        }
        let payload = roundup(unaligned + SIZE_OF_FREE_T, align);
        let left_over = payload - unaligned;
        proof {
            lemma_split_wf(v1, i as int, left_over as int);
            crate::klib::heap_model::lemma_split_live(v1, i as int, left_over as int);
            if has_block(v1.blocks, payload - SIZE_OF_HEADER_T) {
                let m = find_block(v1.blocks, payload - SIZE_OF_HEADER_T);
                crate::klib::heap_model::lemma_blocks_order_total(
                    v1.blocks,
                    m,
                    i as int,
                    payload - SIZE_OF_HEADER_T,
                );
            }
        }
        self.split(i, left_over);
        let ghost v2 = self@;
        proof {
            assert forall|a: int| #[trigger] in_heap(v2.blocks, a) implies covers(&*valloc, a) by {
                assert(in_heap(v1.blocks, a));
            }
            lemma_find_block(v2.blocks, i as int);
            lemma_released_live(v2, unaligned as int);
            lemma_released_wf(v2, unaligned as int);
            crate::klib::heap_model::lemma_carved_live(
                v1,
                v2,
                released(v2, unaligned as int),
                unaligned - SIZE_OF_HEADER_T,
                left_over as int,
            );
            crate::klib::heap_model::lemma_front_stays(v2, i as int);
        }
        self.release(i, valloc, pmm, aspace);
        proof {
            assert(self@ == Self::aligned_view(v1, unaligned as int, align as int)) by {
                reveal(Heap::aligned_view);
                assert(self@ == released(v2, unaligned as int));
                assert(i == find_block(v1.blocks, unaligned - SIZE_OF_HEADER_T));
                assert(left_over == Self::aligned_payload(unaligned as int, align as int)
                    - unaligned);
            }
        }
        payload
    }

    /// A request of `size` bytes can be served from the free lists.
    pub open spec fn spec_can_take(&self, size: usize) -> bool {
        can_take(self@, size as int)
    }

    /// The heap after a request of `size` bytes was served from the free
    /// lists.
    pub open spec fn spec_taken(&self, size: usize) -> HeapView {
        taken(self@, size as int)
    }

    /// Where the bytes start that serve a request of `size` bytes from the
    /// free lists.
    pub open spec fn spec_taken_addr(&self, size: usize) -> usize {
        taken_addr(self@, size as int) as usize
    }

    /// A request of `size` bytes at a multiple of `align`, which is a
    /// multiple of eight, can be served from the free lists.
    pub open spec fn spec_can_take_aligned(&self, align: usize, size: usize) -> bool {
        size > 0 && align >= 8 && align % 8 == 0 && can_take(
            self@,
            size + align + SIZE_OF_FREE_T,
        )
    }

    /// Where the bytes start that serve a request of `size` bytes at a
    /// multiple of `align` from the free lists.
    pub open spec fn spec_aligned_addr(&self, align: usize, size: usize) -> usize {
        Self::aligned_payload(
            self.spec_taken_addr((size + align + SIZE_OF_FREE_T) as usize) as int,
            align as int,
        ) as usize
    }

    /// The heap after a request of `size` bytes at a multiple of `align`
    /// was served from the free lists.
    pub open spec fn spec_aligned_taken(&self, align: usize, size: usize) -> HeapView {
        Self::aligned_view(
            taken(self@, size + align + SIZE_OF_FREE_T),
            self.spec_taken_addr((size + align + SIZE_OF_FREE_T) as usize) as int,
            align as int,
        )
    }

    /// The heap is what it is after it got its first area from `valloc`,
    /// as `valloc` was before: three areas, the one between the sentinels
    /// free, which serves every request that it has room for, from its
    /// start.
    pub open spec fn spec_is_first(&self, valloc: &VirtualAlloc) -> bool {
        &&& self@ == first_view(valloc.spec_first_area() as int)
        &&& forall|request: int|
            1 <= request <= HEAP_MAX_ALLOC_SIZE && spec_rounded_size(request) + 3
                * SIZE_OF_HEADER_T <= HEAP_GROW_SIZE ==> #[trigger] can_take(self@, request)
        &&& forall|request: int| #[trigger]
            can_take(self@, request) ==> taken_addr(self@, request) == valloc.spec_first_area()
                + 2 * SIZE_OF_HEADER_T
    }

    /// The heap after the allocation at `ptr` was freed.
    pub open spec fn spec_released(&self, ptr: vaddr_t) -> HeapView {
        released(self@, ptr as int)
    }

    /// The areas in use of this heap are areas in use of `other`.
    pub open spec fn spec_live_kept(&self, other: &Heap) -> bool {
        live_kept(self@.blocks, other@.blocks)
    }
}

/// Makes the kernel heap ready for use; the allocator of its region must
/// be initialized.
pub fn cmpct_init(ctx: &mut BootContext) -> (r: Result<(), ErrNO>)
    requires
        old(ctx).memory_wf(),
        old(ctx).heap@.blocks.len() == 0,
        old(ctx).heap@.cached is None,
        old(ctx).heap@.size == 0,
        old(ctx).heap@.remaining == 0,
    ensures
        final(ctx).heap_ready(),
        r is Ok <==> old(ctx).virtual_alloc.can_alloc(&old(ctx).pmm_node, 64),
        r is Ok ==> final(ctx).heap@.size == HEAP_GROW_SIZE && final(ctx).heap@.remaining
            == HEAP_USABLE_GROW_SIZE,
        r is Ok ==> final(ctx).heap.spec_is_first(&old(ctx).virtual_alloc),
        r is Ok ==> old(ctx).virtual_alloc.alloc_pages_ok(
            &old(ctx).pmm_node,
            64,
            &final(ctx).virtual_alloc,
            &final(ctx).pmm_node,
            old(ctx).virtual_alloc.spec_first_area(),
        ),
        r is Err ==> final(ctx).heap@.blocks.len() == 0,
        r is Err ==> r == Err::<(), ErrNO>(
            if old(ctx).virtual_alloc.spec_alloc_base() == 0 {
                ErrNO::BadState
            } else {
                ErrNO::NoMem
            },
        ),
{
    ctx.heap.init(&mut ctx.virtual_alloc, &mut ctx.pmm_node, &mut ctx.aspace)
}

/// Allocates `size` bytes from the kernel heap, and returns where they
/// start, or nothing: see `Heap::allocate`.
pub fn cmpct_alloc(ctx: &mut BootContext, size: usize) -> (r: Option<vaddr_t>)
    requires
        old(ctx).heap_ready(),
    ensures
        final(ctx).heap_ready(),
        size == 0 || size > HEAP_MAX_ALLOC_SIZE ==> r is None && final(ctx).heap@ == old(ctx).heap@,
        old(ctx).heap.spec_can_take(size) ==> r is Some && r->Some_0 == old(ctx).heap.spec_taken_addr(size) && final(ctx).heap@ == old(ctx).heap.spec_taken(size),
        1 <= size && size <= HEAP_MAX_ALLOC_SIZE && !old(ctx).heap.spec_can_take(size)
            && old(ctx).heap.spec_growth_pinned(&old(ctx).virtual_alloc, size)
            ==> old(ctx).heap.spec_served_grown(
            &old(ctx).virtual_alloc,
            &old(ctx).pmm_node,
            size,
            r,
            final(ctx).heap@,
        ),
        old(ctx).heap.spec_grows_anew(&old(ctx).virtual_alloc, size) ==> exists|
            valloc_mid: VirtualAlloc,
            pmm_mid: PmmNode,
        | #[trigger]
            old(ctx).heap.spec_regrown(
                &old(ctx).virtual_alloc,
                &old(ctx).pmm_node,
                &old(ctx).aspace,
                size,
                r,
                final(ctx).heap@,
                &final(ctx).virtual_alloc,
                &final(ctx).pmm_node,
                &valloc_mid,
                &pmm_mid,
            ),
        old(ctx).heap.spec_alloc_below(
            &old(ctx).virtual_alloc,
            &old(ctx).pmm_node,
            &old(ctx).aspace,
            size,
            &final(ctx).virtual_alloc,
            &final(ctx).pmm_node,
            &final(ctx).aspace,
        ),
        old(ctx).heap.spec_live_kept(&final(ctx).heap),
        r is Some ==> final(ctx).heap.spec_is_allocated(r->Some_0) && final(ctx).heap.spec_capacity(r->Some_0) >= size && !old(ctx).heap.spec_is_allocated(r->Some_0),
{
    ctx.heap.allocate(size, &mut ctx.virtual_alloc, &mut ctx.pmm_node, &mut ctx.aspace)
}

/// Allocates `size` bytes that start at a multiple of `align` from the
/// kernel heap: see `Heap::memalign`.
pub fn cmpct_memalign(ctx: &mut BootContext, align: usize, size: usize) -> (r: Option<vaddr_t>)
    requires
        old(ctx).heap_ready(),
    ensures
        final(ctx).heap_ready(),
        size == 0 || (align >= 8 && (align % 8 != 0 || size + align + SIZE_OF_FREE_T
            > HEAP_MAX_ALLOC_SIZE)) ==> r is None && final(ctx).heap@ == old(ctx).heap@,
        size > 0 && align < 8 && old(ctx).heap.spec_can_take(size) ==> r is Some
            && r->Some_0 == old(ctx).heap.spec_taken_addr(size)
            && final(ctx).heap@ == old(ctx).heap.spec_taken(size),
        old(ctx).heap.spec_can_take_aligned(align, size) ==> r is Some
            && r->Some_0 == old(ctx).heap.spec_aligned_addr(align, size)
            && final(ctx).heap@ == old(ctx).heap.spec_aligned_taken(align, size),
        align < 8 && size > HEAP_MAX_ALLOC_SIZE ==> r is None && final(ctx).heap@ == old(ctx).heap@,
        align < 8 && old(ctx).heap.spec_grows(&old(ctx).virtual_alloc, size)
            ==> old(ctx).heap.spec_served_grown(
            &old(ctx).virtual_alloc,
            &old(ctx).pmm_node,
            size,
            r,
            final(ctx).heap@,
        ),
        old(ctx).heap.spec_aligned_grows(&old(ctx).virtual_alloc, align, size)
            ==> old(ctx).heap.spec_aligned_grown(
            &old(ctx).virtual_alloc,
            &old(ctx).pmm_node,
            align,
            size,
            r,
            final(ctx).heap@,
        ),
        align < 8 ==> old(ctx).heap.spec_alloc_below(
            &old(ctx).virtual_alloc,
            &old(ctx).pmm_node,
            &old(ctx).aspace,
            size,
            &final(ctx).virtual_alloc,
            &final(ctx).pmm_node,
            &final(ctx).aspace,
        ),
        size == 0 || (align >= 8 && !Heap::spec_padded_fits(align, size))
            ==> final(ctx).virtual_alloc == old(ctx).virtual_alloc && final(ctx).pmm_node == old(
            ctx).pmm_node && final(ctx).aspace == old(ctx).aspace,
        Heap::spec_padded_fits(align, size) ==> old(ctx).heap.spec_alloc_below(
            &old(ctx).virtual_alloc,
            &old(ctx).pmm_node,
            &old(ctx).aspace,
            Heap::spec_padded(align, size),
            &final(ctx).virtual_alloc,
            &final(ctx).pmm_node,
            &final(ctx).aspace,
        ),
        align < 8 && old(ctx).heap.spec_grows_anew(&old(ctx).virtual_alloc, size) ==> exists|
            valloc_mid: VirtualAlloc,
            pmm_mid: PmmNode,
        | #[trigger]
            old(ctx).heap.spec_regrown(
                &old(ctx).virtual_alloc,
                &old(ctx).pmm_node,
                &old(ctx).aspace,
                size,
                r,
                final(ctx).heap@,
                &final(ctx).virtual_alloc,
                &final(ctx).pmm_node,
                &valloc_mid,
                &pmm_mid,
            ),
        Heap::spec_padded_fits(align, size) && old(ctx).heap.spec_grows_anew(
            &old(ctx).virtual_alloc,
            Heap::spec_padded(align, size),
        ) ==> exists|valloc_mid: VirtualAlloc, pmm_mid: PmmNode| #[trigger]
            old(ctx).heap.spec_aligned_regrown(
                &old(ctx).virtual_alloc,
                &old(ctx).pmm_node,
                &old(ctx).aspace,
                align,
                size,
                r,
                final(ctx).heap@,
                &final(ctx).virtual_alloc,
                &final(ctx).pmm_node,
                &valloc_mid,
                &pmm_mid,
            ),
        old(ctx).heap.spec_live_kept(&final(ctx).heap),
        r is Some ==> final(ctx).heap.spec_is_allocated(r->Some_0) && final(ctx).heap.spec_capacity(r->Some_0) >= size && !old(ctx).heap.spec_is_allocated(r->Some_0) && (
        align >= 8 ==> r->Some_0 % align == 0),
{
    ctx.heap.memalign(align, size, &mut ctx.virtual_alloc, &mut ctx.pmm_node, &mut ctx.aspace)
}

/// Frees the allocation of the kernel heap whose bytes start at `payload`,
/// which must be in use; nothing happens for the address 0: see
/// `Heap::free`.
pub fn cmpct_free(ctx: &mut BootContext, payload: vaddr_t)
    requires
        old(ctx).heap_ready(),
        payload == 0 || old(ctx).heap.spec_is_allocated(payload),
    ensures
        final(ctx).heap_ready(),
        payload == 0 ==> final(ctx).heap@ == old(ctx).heap@,
        payload != 0 ==> final(ctx).heap@ == old(ctx).heap.spec_released(payload) && !final(ctx).heap.spec_is_allocated(payload),
        payload != 0 ==> old(ctx).heap.spec_live_kept_but(&final(ctx).heap, payload),
        old(ctx).heap.spec_free_below(
            &old(ctx).virtual_alloc,
            &old(ctx).pmm_node,
            &old(ctx).aspace,
            payload,
            &final(ctx).virtual_alloc,
            &final(ctx).pmm_node,
            &final(ctx).aspace,
        ),
{
    ctx.heap.free(payload, &mut ctx.virtual_alloc, &mut ctx.pmm_node, &mut ctx.aspace)
}

} // verus!
