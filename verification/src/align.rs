//! Rounding of addresses and sizes to multiples of a granule.
use vstd::prelude::*;
use vstd::arithmetic::div_mod::*;
use crate::defines::{PAGE_SHIFT, PAGE_SIZE};

verus! {

/// The largest multiple of `b` that is at most `a`.
pub open spec fn spec_rounddown(a: int, b: int) -> int {
    a - a % b
}

/// The smallest multiple of `b` that is at least `a`.
pub open spec fn spec_roundup(a: int, b: int) -> int {
    spec_rounddown(a + b - 1, b)
}

/// Whether `a` is a multiple of `b`.
pub open spec fn spec_is_aligned(a: int, b: int) -> bool {
    a % b == 0
}

/// Rounding down yields a multiple of the granule, at most the value and
/// less than one granule below it; an aligned value is its own rounding.
pub proof fn lemma_rounddown(a: int, b: int)
    requires
        0 <= a,
        0 < b,
    ensures
        spec_rounddown(a, b) % b == 0,
        a - b < spec_rounddown(a, b) <= a,
        0 <= spec_rounddown(a, b),
        spec_rounddown(a, b) == (a / b) * b,
        a % b == 0 ==> spec_rounddown(a, b) == a,
{
    lemma_fundamental_div_mod(a, b);
    lemma_mod_multiples_basic(a / b, b);
    assert((a / b) * b == b * (a / b)) by (nonlinear_arith);
    lemma_mod_bound(a, b);
}

/// Rounding up yields a multiple of the granule, at least the value and
/// less than one granule above it; an aligned value is its own rounding.
pub proof fn lemma_roundup(a: int, b: int)
    requires
        0 <= a,
        0 < b,
    ensures
        spec_roundup(a, b) % b == 0,
        a <= spec_roundup(a, b) < a + b,
        a % b == 0 ==> spec_roundup(a, b) == a,
{
    lemma_rounddown(a + b - 1, b);
    if a % b == 0 {
        lemma_fundamental_div_mod(a, b);
        let q = a / b;
        assert(a == b * q);
        lemma_fundamental_div_mod_converse(a + b - 1, b, q, b - 1);
    }
}

/// Rounding up leaves an aligned value alone and takes any other to the
/// next multiple of the granule.
pub proof fn lemma_roundup_alt(a: int, b: int)
    requires
        0 <= a,
        0 < b,
    ensures
        spec_roundup(a, b) == (if a % b == 0 {
            a
        } else {
            a - a % b + b
        }),
{
    lemma_roundup(a, b);
    if a % b != 0 {
        lemma_fundamental_div_mod(a, b);
        let q = a / b;
        let r = a % b;
        lemma_mod_bound(a, b);
        assert(a + b - 1 == (q + 1) * b + (r - 1)) by (nonlinear_arith)
            requires
                a == b * q + r,
        ;
        lemma_fundamental_div_mod_converse(a + b - 1, b, q + 1, r - 1);
    }
}

/// Rounds `a` down to a multiple of `b`.
pub fn rounddown(a: usize, b: usize) -> (r: usize)
    requires
        b > 0,
    ensures
        r == spec_rounddown(a as int, b as int),
        r <= a,
        r % b == 0,
{
    proof {
        lemma_rounddown(a as int, b as int);
    }
    a - a % b
}

/// Rounds `a` up to a multiple of `b`.
pub fn roundup(a: usize, b: usize) -> (r: usize)
    requires
        b > 0,
        a + b - 1 <= usize::MAX,
    ensures
        r == spec_roundup(a as int, b as int),
        r >= a,
        r % b == 0,
{
    proof {
        lemma_roundup(a as int, b as int);
    }
    rounddown(a + (b - 1), b)
}

/// Tells whether `a` is a multiple of `b`.
pub fn is_aligned(a: usize, b: usize) -> (r: bool)
    requires
        b > 0,
    ensures
        r == spec_is_aligned(a as int, b as int),
{
    a % b == 0
}

/// Rounds `a` up to a whole number of pages.
pub fn roundup_page_size(a: usize) -> (r: usize)
    requires
        a + PAGE_SIZE - 1 <= usize::MAX,
    ensures
        r == spec_roundup(a as int, PAGE_SIZE as int),
        r >= a,
        r % PAGE_SIZE == 0,
{
    roundup(a, PAGE_SIZE)
}

/// Tells whether `a` is a multiple of the page size.
pub fn is_page_aligned(a: usize) -> (r: bool)
    ensures
        r == spec_is_aligned(a as int, PAGE_SIZE as int),
{
    a % PAGE_SIZE == 0
}

/// The alignment whose binary logarithm is `align_log2`, and at least the
/// page size.
pub open spec fn spec_align(align_log2: int) -> int
    decreases align_log2,
{
    if align_log2 <= PAGE_SHIFT {
        PAGE_SIZE as int
    } else {
        2 * spec_align(align_log2 - 1)
    }
}

/// The alignment whose binary logarithm is `align_log2` is a number of
/// this machine.
pub open spec fn align_fits(align_log2: int) -> bool {
    spec_align(align_log2) <= usize::MAX
}

/// An alignment is a positive multiple of the page size.
pub proof fn lemma_align_pages(align_log2: int)
    ensures
        spec_align(align_log2) % (PAGE_SIZE as int) == 0,
        PAGE_SIZE <= spec_align(align_log2),
    decreases align_log2,
{
    if align_log2 > PAGE_SHIFT {
        lemma_align_pages(align_log2 - 1);
        let half = spec_align(align_log2 - 1);
        assert((2 * half) % (PAGE_SIZE as int) == 0) by (nonlinear_arith)
            requires
                half % (PAGE_SIZE as int) == 0,
        ;
    }
}

/// The alignment grows with its logarithm.
pub proof fn lemma_align_mono(j: int, k: int)
    requires
        j <= k,
    ensures
        spec_align(j) <= spec_align(k),
    decreases k - j,
{
    if j < k {
        lemma_align_mono(j, k - 1);
        lemma_align_pages(k - 1);
    }
}

/// A multiple of a multiple of the page size is a multiple of the page
/// size.
pub proof fn lemma_mod_multiple(a: int, b: int, c: int)
    requires
        0 <= a,
        0 < c,
        0 < b,
        b % c == 0,
        a % b == 0,
    ensures
        a % c == 0,
{
    vstd::arithmetic::div_mod::lemma_fundamental_div_mod(a, b);
    vstd::arithmetic::div_mod::lemma_fundamental_div_mod(b, c);
    let q1 = a / b;
    let q2 = b / c;
    assert(a == c * (q2 * q1)) by (nonlinear_arith)
        requires
            a == b * q1,
            b == c * q2,
    ;
    vstd::arithmetic::div_mod::lemma_mod_multiples_basic(q2 * q1, c);
    assert(c * (q2 * q1) == (q2 * q1) * c) by (nonlinear_arith);
}

/// Computes the alignment whose binary logarithm is `align_log2`, and
/// at least the page size, if it is a number of this machine.
pub fn align_of(align_log2: usize) -> (r: Option<usize>)
    ensures
        r is Some <==> align_fits(align_log2 as int),
        r is Some ==> r->Some_0 == spec_align(align_log2 as int) && r->Some_0 >= PAGE_SIZE,
{
    let mut align: usize = PAGE_SIZE;
    let mut k: usize = PAGE_SHIFT;
    while k < align_log2
        invariant
            PAGE_SHIFT <= k,
            k <= align_log2 || (align_log2 < PAGE_SHIFT && k == PAGE_SHIFT),
            align == spec_align(k as int),
            align >= PAGE_SIZE,
        decreases align_log2 - k,
    {
        if align > usize::MAX / 2 {
            proof {
                lemma_align_mono(k + 1, align_log2 as int);
            }
            return None;
        }
        align = align * 2;
        k += 1;
    }
    proof {
        if align_log2 < PAGE_SHIFT {
            assert(k == PAGE_SHIFT);
            assert(spec_align(PAGE_SHIFT as int) == PAGE_SIZE);
            assert(spec_align(align_log2 as int) == PAGE_SIZE);
        }
    }
    Some(align)
}

} // verus!
