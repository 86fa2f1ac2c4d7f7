//! A fixed-size bit-vector with range set/clear, forward and backward scans
//! and a search for runs of equal bits.
use vstd::prelude::*;
use vstd::std_specs::bits::*;
use crate::defines::BYTES_PER_USIZE;
use crate::errors::ErrNO;
use crate::types::vaddr_t;

verus! {

/// Bits held by one unit of storage.
pub const BITMAP_UNIT_BITS: usize = 64;

/// Bit `j` of the word `w`, counting the least significant bit as 0.
pub open spec fn bit_of(w: u64, j: int) -> bool {
    0 <= j < 64 && (w >> (j as u64)) & 1 == 1
}

proof fn lemma_bit_shl_ones(s: u64, j: u64)
    requires
        s < 64,
        j < 64,
    ensures
        ((0xffff_ffff_ffff_ffffu64 << s) >> j) & 1 == 1 <==> j >= s,
{
    assert(s < 64 && j < 64 ==> ((((0xffff_ffff_ffff_ffffu64 << s) >> j) & 1 == 1) <==> j >= s))
        by (bit_vector);
}

proof fn lemma_bit_shr_ones(s: u64, j: u64)
    requires
        s < 64,
        j < 64,
    ensures
        ((0xffff_ffff_ffff_ffffu64 >> s) >> j) & 1 == 1 <==> j + s < 64,
{
    assert(s < 64 && j < 64 ==> ((((0xffff_ffff_ffff_ffffu64 >> s) >> j) & 1 == 1) <==> j < 64
        - s)) by (bit_vector);
}

proof fn lemma_bit_and(a: u64, b: u64, j: u64)
    requires
        j < 64,
    ensures
        ((a & b) >> j) & 1 == 1 <==> ((a >> j) & 1 == 1 && (b >> j) & 1 == 1),
{
    assert(((a & b) >> j) & 1 == 1 <==> ((a >> j) & 1 == 1 && (b >> j) & 1 == 1))
        by (bit_vector);
}

proof fn lemma_bit_or(a: u64, b: u64, j: u64)
    requires
        j < 64,
    ensures
        ((a | b) >> j) & 1 == 1 <==> ((a >> j) & 1 == 1 || (b >> j) & 1 == 1),
{
    assert(((a | b) >> j) & 1 == 1 <==> ((a >> j) & 1 == 1 || (b >> j) & 1 == 1))
        by (bit_vector);
}

proof fn lemma_bit_not(a: u64, j: u64)
    requires
        j < 64,
    ensures
        ((!a) >> j) & 1 == 1 <==> !((a >> j) & 1 == 1),
{
    assert(j < 64 ==> (((!a) >> j) & 1 == 1 <==> !((a >> j) & 1 == 1))) by (bit_vector);
}

proof fn lemma_bit_zero(j: u64)
    requires
        j < 64,
    ensures
        (0u64 >> j) & 1 == 0,
{
    assert((0u64 >> j) & 1 == 0) by (bit_vector);
}

proof fn lemma_bit_low(x: u64)
    ensures
        x & 1 == 0 || x & 1 == 1,
{
    assert(x & 1 == 0 || x & 1 == 1) by (bit_vector);
}

proof fn lemma_bit_ones(j: u64)
    requires
        j < 64,
    ensures
        (0xffff_ffff_ffff_ffffu64 >> j) & 1 == 1,
{
    assert(j < 64 ==> (0xffff_ffff_ffff_ffffu64 >> j) & 1 == 1) by (bit_vector);
}

/// Translates a bit offset into a starting index in the storage array.
pub fn first_idx(bitoff: usize) -> (r: usize)
    ensures
        r == bitoff / 64,
{
    bitoff / BITMAP_UNIT_BITS
}

/// Translates a max bit into a final index in the storage array.
pub fn last_idx(bitmax: usize) -> (r: usize)
    requires
        bitmax > 0,
    ensures
        r == (bitmax - 1) / 64,
{
    (bitmax - 1) / BITMAP_UNIT_BITS
}

/// Bit `j` of the mask that `get_mask` builds.
pub open spec fn spec_mask_bit(first: bool, last: bool, off: int, max: int, j: int) -> bool {
    0 <= j < 64 && (first ==> j >= off % 64) && (last ==> (max % 64 == 0 || j < max % 64))
}

/// Returns a 64-bit mask. If the unit of the bitmap we are looking at is
/// neither the first nor the last, all bits are set. Otherwise the bits
/// outside of `[off, max)` are cleared. Bits are counted with the least
/// significant as 0 and the most significant as 63.
pub fn get_mask(first: bool, last: bool, off: usize, max: usize) -> (mask: u64)
    ensures
        forall|j: int|
            0 <= j < 64 ==> (#[trigger] bit_of(mask, j) == spec_mask_bit(
                first,
                last,
                off as int,
                max as int,
                j,
            )),
{
    let mut mask: u64 = u64::MAX;
    let lo: u64 = (off % BITMAP_UNIT_BITS) as u64;
    let hi: u64 = ((BITMAP_UNIT_BITS - (max % BITMAP_UNIT_BITS)) % BITMAP_UNIT_BITS) as u64;
    let m1: u64 = u64::MAX << lo;
    let m2: u64 = u64::MAX >> hi;
    if first {
        mask = mask & m1;
    }
    if last {
        mask = mask & m2;
    }
    proof {
        assert forall|j: int| 0 <= j < 64 implies (#[trigger] bit_of(mask, j) == spec_mask_bit(
            first,
            last,
            off as int,
            max as int,
            j,
        )) by {
            let ju = j as u64;
            lemma_bit_shl_ones(lo, ju);
            lemma_bit_shr_ones(hi, ju);
            lemma_bit_ones(ju);
            lemma_bit_and(u64::MAX, m1, ju);
            lemma_bit_and(u64::MAX, m2, ju);
            lemma_bit_and(u64::MAX & m1, m2, ju);
        }
    }
    mask
}

/// Applies the mask of unit `idx` for the range `[bitoff, bitmax)` to `data`.
/// The result has those bits set which fall within the range but do not match
/// `is_set`.
pub fn mask_bits(data: u64, idx: usize, bitoff: usize, bitmax: usize, is_set: bool) -> (masked: u64)
    requires
        bitmax > 0,
    ensures
        forall|j: int|
            0 <= j < 64 ==> (#[trigger] bit_of(masked, j) == (spec_mask_bit(
                idx == bitoff / 64,
                idx == (bitmax - 1) / 64,
                bitoff as int,
                bitmax as int,
                j,
            ) && bit_of(data, j) != is_set)),
{
    let mask = get_mask(idx == first_idx(bitoff), idx == last_idx(bitmax), bitoff, bitmax);
    let masked = if is_set {
        // Invert the mask, OR it with the value, and invert it again to
        // hopefully get all zeros.
        !(!mask | data)
    } else {
        // Just AND the mask with the value to hopefully get all zeros.
        mask & data
    };
    proof {
        assert forall|j: int| 0 <= j < 64 implies (#[trigger] bit_of(masked, j) == (bit_of(mask, j)
            && bit_of(data, j) != is_set)) by {
            let ju = j as u64;
            lemma_bit_and(mask, data, ju);
            lemma_bit_not(mask, ju);
            lemma_bit_or(!mask, data, ju);
            lemma_bit_not(!mask | data, ju);
        }
    }
    masked
}

/// A bit-vector over `[0, size)` kept in 64-bit units.
pub struct Bitmap {
    size: usize,
    /// Units of storage.
    storage_num: usize,
    /// Address the storage was placed at.
    storage_base: vaddr_t,
    storage_data: Vec<u64>,
}

impl View for Bitmap {
    type V = Seq<bool>;

    /// The bits of the domain: bit `i` is set exactly when unit `i` of the
    /// domain is occupied.
    open spec fn view(&self) -> Seq<bool> {
        Seq::new(self.spec_size() as nat, |i: int| self.storage_bits()[i])
    }
}

impl Bitmap {
    /// The number of bits in the domain.
    pub closed spec fn spec_size(&self) -> usize {
        self.size
    }

    /// The number of 64-bit units of storage.
    pub closed spec fn spec_storage_num(&self) -> usize {
        self.storage_num
    }

    /// The address at which the storage is recorded to be placed.
    pub closed spec fn spec_storage_base(&self) -> vaddr_t {
        self.storage_base
    }

    /// Every bit the storage can hold, whether inside the domain or not.
    pub closed spec fn storage_bits(&self) -> Seq<bool> {
        Seq::new(
            (self.storage_data@.len() * 64) as nat,
            |i: int| bit_of(self.storage_data@[i / 64], i % 64),
        )
    }

    /// The storage has the recorded number of units and holds the domain.
    pub closed spec fn wf(&self) -> bool {
        &&& self.storage_data@.len() == self.storage_num
        &&& self.size <= self.storage_num * 64
    }

    /// The storage holds 64 bits per unit, at least as many as the domain.
    pub proof fn lemma_storage_len(&self)
        requires
            self.wf(),
        ensures
            self.storage_bits().len() == self.spec_storage_num() * 64,
            self.spec_size() <= self.storage_bits().len(),
            self@.len() == self.spec_size(),
    {
    }

    /// Creates a bitmap with no storage and an empty domain.
    pub fn new() -> (r: Self)
        ensures
            r.wf(),
            r.spec_size() == 0,
            r.spec_storage_num() == 0,
            r.spec_storage_base() == 0,
            r@ == Seq::<bool>::empty(),
    {
        let r = Self { size: 0, storage_num: 0, storage_base: 0, storage_data: Vec::new() };
        assert(r@ =~= Seq::<bool>::empty());
        r
    }

    /// Gives the bitmap `size` bytes of zeroed storage, recorded as placed at
    /// `base`. The domain is left as it was.
    pub fn storage_init(&mut self, base: vaddr_t, size: usize)
        requires
            old(self).spec_size() <= (size / BYTES_PER_USIZE) * 64,
        ensures
            final(self).wf(),
            final(self).spec_size() == old(self).spec_size(),
            final(self).spec_storage_num() == size / BYTES_PER_USIZE,
            final(self).spec_storage_base() == base,
            final(self).storage_bits() == Seq::new(
                ((size / BYTES_PER_USIZE) * 64) as nat,
                |i: int| false,
            ),
    {
        let num = size / BYTES_PER_USIZE;
        let mut data: Vec<u64> = Vec::new();
        let mut i: usize = 0;
        while i < num
            invariant
                i <= num,
                data@.len() == i,
                forall|k: int| 0 <= k < i ==> data@[k] == 0u64,
            decreases num - i,
        {
            data.push(0u64);
            i += 1;
        }
        self.storage_num = num;
        self.storage_base = base;
        self.storage_data = data;
        proof {
            assert forall|k: int| 0 <= k < num * 64 implies !bit_of(
                #[trigger] self.storage_data@[k / 64],
                k % 64,
            ) by {
                lemma_bit_zero((k % 64) as u64);
            }
            assert(self.storage_bits() =~= Seq::new((num * 64) as nat, |i: int| false));
        }
    }

    /// The number of units of storage.
    pub fn storage_num(&self) -> (r: usize)
        ensures
            r == self.spec_storage_num(),
    {
        self.storage_num
    }

    /// Sets the domain to `[0, size)`. The storage is left as it was.
    pub fn init(&mut self, size: usize)
        requires
            old(self).wf(),
            size <= old(self).spec_storage_num() * 64,
        ensures
            final(self).wf(),
            final(self).spec_size() == size,
            final(self).spec_storage_num() == old(self).spec_storage_num(),
            final(self).storage_bits() == old(self).storage_bits(),
    {
        self.size = size;
    }

    /// The number of bits in the domain.
    pub fn size(&self) -> (r: usize)
        ensures
            r == self.spec_size(),
    {
        self.size
    }

    /// Sets or clears every bit of `[bitoff, bitmax)`.
    fn fill(&mut self, bitoff: usize, bitmax: usize, value: bool)
        requires
            old(self).wf(),
            bitoff < bitmax <= old(self).spec_size(),
        ensures
            final(self).wf(),
            final(self).spec_size() == old(self).spec_size(),
            final(self).spec_storage_num() == old(self).spec_storage_num(),
            final(self).storage_bits() == Seq::new(
                old(self).storage_bits().len(),
                |i: int|
                    if bitoff <= i < bitmax {
                        value
                    } else {
                        old(self).storage_bits()[i]
                    },
            ),
    {
        let first = first_idx(bitoff);
        let last = last_idx(bitmax);
        let mut i = first;
        while i <= last
            invariant
                first <= i <= last + 1,
                first == bitoff / 64,
                last == (bitmax - 1) / 64,
                bitoff < bitmax <= self.size,
                self.size == old(self).size,
                self.storage_num == old(self).storage_num,
                self.storage_data@.len() == old(self).storage_data@.len(),
                self.wf(),
                forall|w: int|
                    0 <= w < self.storage_data@.len() && !(first <= w < i)
                        ==> self.storage_data@[w] == old(self).storage_data@[w],
                forall|w: int, j: int|
                    first <= w < i && 0 <= j < 64 ==> (#[trigger] bit_of(self.storage_data@[w], j)
                        == (if bitoff <= w * 64 + j < bitmax {
                        value
                    } else {
                        bit_of(old(self).storage_data@[w], j)
                    })),
            decreases last + 1 - i,
        {
            let mask = get_mask(i == first, i == last, bitoff, bitmax);
            let data = self.storage_data[i];
            let updated = if value {
                data | mask
            } else {
                data & !mask
            };
            proof {
                assert forall|j: int| 0 <= j < 64 implies (#[trigger] bit_of(updated, j) == (if bitoff
                    <= i * 64 + j < bitmax {
                    value
                } else {
                    bit_of(data, j)
                })) by {
                    let ju = j as u64;
                    lemma_bit_or(data, mask, ju);
                    lemma_bit_not(mask, ju);
                    lemma_bit_and(data, !mask, ju);
                    assert(bit_of(mask, j) == spec_mask_bit(
                        i == first,
                        i == last,
                        bitoff as int,
                        bitmax as int,
                        j,
                    ));
                    lemma_mask_covers(bitoff as int, bitmax as int, i as int, j);
                }
            }
            self.storage_data[i] = updated;
            i += 1;
        }
        proof {
            let expect = Seq::new(
                old(self).storage_bits().len(),
                |k: int|
                    if bitoff <= k < bitmax {
                        value
                    } else {
                        old(self).storage_bits()[k]
                    },
            );
            assert forall|k: int| 0 <= k < expect.len() implies self.storage_bits()[k]
                == expect[k] by {
                let w = k / 64;
                let j = k % 64;
                if first <= w <= last {
                    assert(bit_of(self.storage_data@[w], j) == (if bitoff <= w * 64 + j < bitmax {
                        value
                    } else {
                        bit_of(old(self).storage_data@[w], j)
                    }));
                } else {
                    assert(self.storage_data@[w] == old(self).storage_data@[w]);
                }
            }
            assert(self.storage_bits() =~= expect);
        }
    }

    /// Sets the bits of `[bitoff, bitmax)`. An empty range changes nothing;
    /// a range that is reversed or ends beyond the domain is refused.
    pub fn set(&mut self, bitoff: usize, bitmax: usize) -> (r: Result<(), ErrNO>)
        requires
            old(self).wf(),
        ensures
            final(self).wf(),
            final(self).spec_size() == old(self).spec_size(),
            final(self).spec_storage_num() == old(self).spec_storage_num(),
            r is Err <==> (bitoff > bitmax || bitmax > old(self).spec_size()),
            r is Err ==> r == Err::<(), ErrNO>(ErrNO::InvalidArgs) && final(self).storage_bits()
                == old(self).storage_bits(),
            r is Ok ==> final(self).storage_bits() == Seq::new(
                old(self).storage_bits().len(),
                |i: int|
                    if bitoff <= i < bitmax {
                        true
                    } else {
                        old(self).storage_bits()[i]
                    },
            ),
    {
        if bitoff > bitmax || bitmax > self.size {
            return Err(ErrNO::InvalidArgs);
        }
        if bitoff == bitmax {
            assert(self.storage_bits() =~= Seq::new(
                self.storage_bits().len(),
                |i: int|
                    if bitoff <= i < bitmax {
                        true
                    } else {
                        self.storage_bits()[i]
                    },
            ));
            return Ok(());
        }
        self.fill(bitoff, bitmax, true);
        Ok(())
    }

    /// Clears the bits of `[bitoff, bitmax)`. An empty range changes nothing;
    /// a range that is reversed or ends beyond the domain is refused.
    pub fn clear(&mut self, bitoff: usize, bitmax: usize) -> (r: Result<(), ErrNO>)
        requires
            old(self).wf(),
        ensures
            final(self).wf(),
            final(self).spec_size() == old(self).spec_size(),
            final(self).spec_storage_num() == old(self).spec_storage_num(),
            r is Err <==> (bitoff > bitmax || bitmax > old(self).spec_size()),
            r is Err ==> r == Err::<(), ErrNO>(ErrNO::InvalidArgs) && final(self).storage_bits()
                == old(self).storage_bits(),
            r is Ok ==> final(self).storage_bits() == Seq::new(
                old(self).storage_bits().len(),
                |i: int|
                    if bitoff <= i < bitmax {
                        false
                    } else {
                        old(self).storage_bits()[i]
                    },
            ),
    {
        if bitoff > bitmax || bitmax > self.size {
            return Err(ErrNO::InvalidArgs);
        }
        if bitoff == bitmax {
            assert(self.storage_bits() =~= Seq::new(
                self.storage_bits().len(),
                |i: int|
                    if bitoff <= i < bitmax {
                        false
                    } else {
                        self.storage_bits()[i]
                    },
            ));
            return Ok(());
        }
        self.fill(bitoff, bitmax, false);
        Ok(())
    }

    /// The end of a scan that was asked to stop at `bitmax`: scans never
    /// leave the domain.
    pub open spec fn spec_clamp(&self, bitmax: usize) -> int {
        if bitmax <= self.spec_size() {
            bitmax as int
        } else {
            self.spec_size() as int
        }
    }

    /// Every bit of `[lo, hi)` equals `value`.
    pub open spec fn all_bits(&self, lo: int, hi: int, value: bool) -> bool {
        forall|k: int| lo <= k < hi ==> self@[k] == value
    }

    /// A run of `run_len` bits equal to `is_set` starts at `s`, and the run
    /// lies inside `[bitoff, max)`.
    pub open spec fn is_run_start(&self, s: int, bitoff: int, max: int, run_len: int, is_set: bool)
        -> bool {
        &&& bitoff <= s < max
        &&& s + run_len <= max
        &&& self@[s] == is_set
        &&& self.all_bits(s, s + run_len, is_set)
    }

    /// Some run of `run_len` bits equal to `is_set` lies inside
    /// `[bitoff, max)`.
    #[verifier::opaque]
    pub open spec fn has_run(&self, bitoff: int, max: int, run_len: int, is_set: bool) -> bool {
        exists|t: int| self.is_run_start(t, bitoff, max, run_len, is_set)
    }

    /// Where the first run of `run_len` bits equal to `is_set` inside
    /// `[bitoff, max)` starts.
    #[verifier::opaque]
    pub open spec fn first_run(&self, bitoff: int, max: int, run_len: int, is_set: bool) -> int {
        choose|t: int|
            self.is_run_start(t, bitoff, max, run_len, is_set) && forall|u: int|
                u < t ==> !self.is_run_start(u, bitoff, max, run_len, is_set)
    }

    /// A run start with no run start before it is the first.
    pub proof fn lemma_first_run(&self, t: int, bitoff: int, max: int, run_len: int, is_set: bool)
        requires
            self.is_run_start(t, bitoff, max, run_len, is_set),
            forall|u: int| u < t ==> !self.is_run_start(u, bitoff, max, run_len, is_set),
        ensures
            self.has_run(bitoff, max, run_len, is_set),
            self.first_run(bitoff, max, run_len, is_set) == t,
    {
        reveal(Bitmap::has_run);
        reveal(Bitmap::first_run);
        let c = self.first_run(bitoff, max, run_len, is_set);
        assert(self.is_run_start(c, bitoff, max, run_len, is_set) && forall|u: int|
            u < c ==> !self.is_run_start(u, bitoff, max, run_len, is_set));
        if c < t {
            assert(!self.is_run_start(c, bitoff, max, run_len, is_set));
        }
        if t < c {
            assert(!self.is_run_start(t, bitoff, max, run_len, is_set));
        }
    }

    /// Where a run starts, there is a run.
    pub proof fn lemma_has_run(&self, t: int, bitoff: int, max: int, run_len: int, is_set: bool)
        requires
            self.is_run_start(t, bitoff, max, run_len, is_set),
        ensures
            self.has_run(bitoff, max, run_len, is_set),
    {
        reveal(Bitmap::has_run);
    }

    /// What the first run is: a run start with no run start before it.
    pub proof fn lemma_first_run_is_least(
        &self,
        bitoff: int,
        max: int,
        run_len: int,
        is_set: bool,
    )
        requires
            self.has_run(bitoff, max, run_len, is_set),
        ensures
            self.is_run_start(
                self.first_run(bitoff, max, run_len, is_set),
                bitoff,
                max,
                run_len,
                is_set,
            ),
            forall|u: int|
                u < self.first_run(bitoff, max, run_len, is_set) ==> !self.is_run_start(
                    u,
                    bitoff,
                    max,
                    run_len,
                    is_set,
                ),
    {
        reveal(Bitmap::has_run);
        let w = choose|t: int| self.is_run_start(t, bitoff, max, run_len, is_set);
        self.lemma_least_run(bitoff, max, run_len, is_set, w);
    }

    proof fn lemma_least_run(&self, bitoff: int, max: int, run_len: int, is_set: bool, w: int)
        requires
            self.is_run_start(w, bitoff, max, run_len, is_set),
        ensures
            self.is_run_start(
                self.first_run(bitoff, max, run_len, is_set),
                bitoff,
                max,
                run_len,
                is_set,
            ),
            forall|u: int|
                u < self.first_run(bitoff, max, run_len, is_set) ==> !self.is_run_start(
                    u,
                    bitoff,
                    max,
                    run_len,
                    is_set,
                ),
        decreases w - bitoff,
    {
        if exists|u: int| u < w && self.is_run_start(u, bitoff, max, run_len, is_set) {
            let u = choose|u: int| u < w && self.is_run_start(u, bitoff, max, run_len, is_set);
            self.lemma_least_run(bitoff, max, run_len, is_set, u);
        } else {
            self.lemma_first_run(w, bitoff, max, run_len, is_set);
        }
    }

    /// Looks for the first bit of `[bitoff, bitmax)`, cut off at the end of
    /// the domain, that differs from `is_set`. Returns true when there is
    /// none; otherwise returns false and stores the position in `out`.
    pub fn scan(&self, bitoff: usize, bitmax: usize, is_set: bool, out: &mut usize) -> (all: bool)
        requires
            self.wf(),
        ensures
            all == self.all_bits(bitoff as int, self.spec_clamp(bitmax), is_set),
            all ==> *final(out) == *old(out),
            !all ==> bitoff <= *final(out) < self.spec_clamp(bitmax) && self@[*final(out) as int]
                != is_set && self.all_bits(bitoff as int, *final(out) as int, is_set),
    {
        let end = if bitmax <= self.size {
            bitmax
        } else {
            self.size
        };
        if bitoff >= end {
            return true;
        }
        let first = first_idx(bitoff);
        let last = last_idx(end);
        let mut i = first;
        while i <= last
            invariant
                self.wf(),
                first <= i <= last + 1,
                first == bitoff / 64,
                last == (end - 1) / 64,
                bitoff < end <= self.size,
                end == self.spec_clamp(bitmax),
                *out == *old(out),
                forall|k: int| bitoff <= k < end && k < i * 64 ==> self@[k] == is_set,
            decreases last + 1 - i,
        {
            let data = self.storage_data[i];
            let masked = mask_bits(data, i, bitoff, end, is_set);
            if masked != 0 {
                let tz = masked.trailing_zeros();
                proof {
                    axiom_u64_trailing_zeros(masked);
                    let t = tz as int;
                    assert(bit_of(masked, t));
                    lemma_mask_covers(bitoff as int, end as int, i as int, t);
                    assert(self@[i * 64 + t] == bit_of(data, t));
                    assert forall|k: int| bitoff <= k < i * 64 + t implies self@[k] == is_set by {
                        if k >= i * 64 {
                            let j = k - i * 64;
                            assert((masked >> (j as u64)) & 1u64 == 0u64);
                            assert(!bit_of(masked, j));
                            lemma_mask_covers(bitoff as int, end as int, i as int, j);
                            assert(self@[k] == bit_of(data, j));
                        }
                    }
                }
                *out = i * BITMAP_UNIT_BITS + tz as usize;
                return false;
            }
            proof {
                assert forall|k: int| bitoff <= k < end && k < (i + 1) * 64 implies self@[k]
                    == is_set by {
                    if k >= i * 64 {
                        let j = k - i * 64;
                        lemma_bit_zero(j as u64);
                        assert(!bit_of(masked, j));
                        lemma_mask_covers(bitoff as int, end as int, i as int, j);
                        assert(self@[k] == bit_of(data, j));
                    }
                }
            }
            i += 1;
        }
        true
    }

    /// Looks for the last bit of `[bitoff, bitmax)`, cut off at the end of
    /// the domain, that differs from `is_set`. Returns true when there is
    /// none; otherwise returns false and stores the position in `out`.
    pub fn reverse_scan(&self, bitoff: usize, bitmax: usize, is_set: bool, out: &mut usize) -> (all:
        bool)
        requires
            self.wf(),
        ensures
            all == self.all_bits(bitoff as int, self.spec_clamp(bitmax), is_set),
            all ==> *final(out) == *old(out),
            !all ==> bitoff <= *final(out) < self.spec_clamp(bitmax) && self@[*final(out) as int]
                != is_set && self.all_bits(
                *final(out) as int + 1,
                self.spec_clamp(bitmax),
                is_set,
            ),
    {
        let end = if bitmax <= self.size {
            bitmax
        } else {
            self.size
        };
        if bitoff >= end {
            return true;
        }
        let first = first_idx(bitoff);
        let mut i = last_idx(end);
        loop
            invariant
                self.wf(),
                first <= i <= (end - 1) / 64,
                first == bitoff / 64,
                bitoff < end <= self.size,
                end == self.spec_clamp(bitmax),
                *out == *old(out),
                forall|k: int| bitoff <= k < end && k >= (i + 1) * 64 ==> self@[k] == is_set,
            ensures
                *out == *old(out),
                forall|k: int| bitoff <= k < end ==> self@[k] == is_set,
            decreases i,
        {
            let data = self.storage_data[i];
            let masked = mask_bits(data, i, bitoff, end, is_set);
            if masked != 0 {
                let lz = masked.leading_zeros();
                proof {
                    axiom_u64_leading_zeros(masked);
                    let t = 63 - lz as int;
                    lemma_bit_low(masked >> ((63 - lz) as u64));
                    assert(bit_of(masked, t));
                    lemma_mask_covers(bitoff as int, end as int, i as int, t);
                    assert(self@[i * 64 + t] == bit_of(data, t));
                    assert forall|k: int| i * 64 + t < k < end implies self@[k] == is_set by {
                        if k < (i + 1) * 64 {
                            let j = k - i * 64;
                            assert((masked >> (j as u64)) & 1u64 == 0u64);
                            assert(!bit_of(masked, j));
                            lemma_mask_covers(bitoff as int, end as int, i as int, j);
                            assert(self@[k] == bit_of(data, j));
                        }
                    }
                }
                *out = i * BITMAP_UNIT_BITS + (63 - lz as usize);
                return false;
            }
            proof {
                assert forall|k: int| bitoff <= k < end && k >= i * 64 implies self@[k]
                    == is_set by {
                    if k < (i + 1) * 64 {
                        let j = k - i * 64;
                        lemma_bit_zero(j as u64);
                        assert(!bit_of(masked, j));
                        lemma_mask_covers(bitoff as int, end as int, i as int, j);
                        assert(self@[k] == bit_of(data, j));
                    }
                }
            }
            if i == first {
                break;
            }
            i -= 1;
        }
        true
    }

    /// Finds the first run of `run_len` bits equal to `is_set` inside
    /// `[bitoff, bitmax)`, cut off at the end of the domain, and returns
    /// where it starts. A run of length zero is found at the first bit equal
    /// to `is_set`.
    pub fn find(&self, is_set: bool, bitoff: usize, bitmax: usize, run_len: usize) -> (r: Result<
        usize,
        ErrNO,
    >)
        requires
            self.wf(),
        ensures
            bitmax <= bitoff <==> r == Err::<usize, ErrNO>(ErrNO::InvalidArgs),
            r is Ok <==> bitoff < bitmax && self.has_run(
                bitoff as int,
                self.spec_clamp(bitmax),
                run_len as int,
                is_set,
            ),
            r is Ok ==> r->Ok_0 == self.first_run(
                bitoff as int,
                self.spec_clamp(bitmax),
                run_len as int,
                is_set,
            ) && r->Ok_0 + run_len <= self.spec_clamp(bitmax),
            r is Err ==> r == Err::<usize, ErrNO>(ErrNO::InvalidArgs) || r == Err::<usize, ErrNO>(
                ErrNO::NoResources,
            ),
            r == Err::<usize, ErrNO>(ErrNO::NoResources) ==> forall|t: int|
                !self.is_run_start(
                    t,
                    bitoff as int,
                    self.spec_clamp(bitmax),
                    run_len as int,
                    is_set,
                ),
            r is Ok ==> self.is_run_start(
                r->Ok_0 as int,
                bitoff as int,
                self.spec_clamp(bitmax),
                run_len as int,
                is_set,
            ) && forall|t: int|
                t < r->Ok_0 ==> !self.is_run_start(
                    t,
                    bitoff as int,
                    self.spec_clamp(bitmax),
                    run_len as int,
                    is_set,
                ),
    {
        if bitmax <= bitoff {
            return Err(ErrNO::InvalidArgs);
        }
        let end = if bitmax <= self.size {
            bitmax
        } else {
            self.size
        };
        let mut from = bitoff;
        let mut start = bitoff;
        loop
            invariant
                self.wf(),
                bitoff < bitmax,
                bitoff <= from,
                end <= self.size,
                end == self.spec_clamp(bitmax),
                forall|t: int|
                    t < from ==> !self.is_run_start(
                        t,
                        bitoff as int,
                        end as int,
                        run_len as int,
                        is_set,
                    ),
            decreases self.size - from,
        {
            if self.scan(from, end, !is_set, &mut start) {
                proof {
                    reveal(Bitmap::has_run);
                }
                return Err(ErrNO::NoResources);
            }
            if end - start < run_len {
                proof {
                    reveal(Bitmap::has_run);
                }
                return Err(ErrNO::NoResources);
            }
            let prev = from;
            if self.scan(start, start + run_len, is_set, &mut from) {
                proof {
                    self.lemma_first_run(
                        start as int,
                        bitoff as int,
                        end as int,
                        run_len as int,
                        is_set,
                    );
                }
                return Ok(start);
            }
            assert(from > prev);
            assert forall|t: int| t < from implies !self.is_run_start(
                t,
                bitoff as int,
                end as int,
                run_len as int,
                is_set,
            ) by {
                if t >= start {
                    assert(self@[from as int] != is_set);
                }
            }
        }
    }
}

/// Within unit `w`, the mask for `[bitoff, bitmax)` covers exactly the bits
/// whose position in the bitmap lies in that range.
proof fn lemma_mask_covers(bitoff: int, bitmax: int, w: int, j: int)
    requires
        0 <= bitoff < bitmax,
        bitoff / 64 <= w <= (bitmax - 1) / 64,
        0 <= j < 64,
    ensures
        spec_mask_bit(w == bitoff / 64, w == (bitmax - 1) / 64, bitoff, bitmax, j) == (bitoff <= w
            * 64 + j < bitmax),
{
}

} // verus!
