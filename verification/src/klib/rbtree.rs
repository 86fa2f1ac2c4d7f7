//! An ordered map from numbers to values.
use vstd::prelude::*;

verus! {

/// A position in an ordered map, or none.
#[derive(Clone, Copy, Debug)]
pub struct IterMut {
    pos: usize,
    null: bool,
}

impl IterMut {
    /// Whether this is no position.
    pub closed spec fn spec_is_null(&self) -> bool {
        self.null
    }

    /// The position, counted from the entry with the least key.
    pub closed spec fn spec_pos(&self) -> usize {
        self.pos
    }

    /// The cursor that stands at no entry.
    pub fn null() -> (r: Self)
        ensures
            r.spec_is_null(),
    {
        Self { pos: 0, null: true }
    }

    /// The cursor that stands at the entry at `pos`.
    pub fn new(pos: usize) -> (r: Self)
        ensures
            !r.spec_is_null(),
            r.spec_pos() == pos,
    {
        Self { pos, null: false }
    }

    /// Tells whether the cursor stands at no entry.
    pub fn is_null(&self) -> (r: bool)
        ensures
            r == self.spec_is_null(),
    {
        self.null
    }

    /// The position of the entry the cursor stands at.
    pub fn pos(&self) -> (r: usize)
        ensures
            r == self.spec_pos(),
    {
        self.pos
    }
}

/// A cursor that can read but not change.
pub type Iter = IterMut;

/// An ordered map from keys to values. The entries are kept sorted by
/// key; entries with equal keys stand in the order in which they were put
/// in.
///
/// The map is a sorted vector, not a balanced tree: a key is found by
/// bisection, and putting an entry in moves the entries behind it, so
/// that insertion takes time linear in the number of entries. Keys are
/// machine words. The name is that of the interface it offers.
pub struct RBTree<V> {
    entries: Vec<(usize, V)>,
}

impl<V> View for RBTree<V> {
    type V = Seq<(usize, V)>;

    /// The entries in ascending order of their keys.
    closed spec fn view(&self) -> Seq<(usize, V)> {
        self.entries@
    }
}

/// The keys of the entries ascend.
pub open spec fn keys_sorted<V>(entries: Seq<(usize, V)>) -> bool {
    forall|i: int, j: int| 0 <= i < j < entries.len() ==> (#[trigger] entries[i]).0 <= (
    #[trigger] entries[j]).0
}

/// The number of entries whose key is below `k`, or at most `k` if
/// `strict` says so: the position of the first entry behind them.
pub open spec fn bound_pos<V>(entries: Seq<(usize, V)>, k: usize, strict: bool) -> int
    decreases entries.len(),
{
    if entries.len() == 0 {
        0
    } else if entries.last().0 > k || (!strict && entries.last().0 == k) {
        bound_pos(entries.drop_last(), k, strict)
    } else {
        entries.len() as int
    }
}

/// In sorted entries the bound is where the keys stop being below `k`, or
/// at most `k`.
pub proof fn lemma_bound_pos<V>(entries: Seq<(usize, V)>, k: usize, strict: bool, p: int)
    requires
        keys_sorted(entries),
        0 <= p <= entries.len(),
        forall|i: int|
            0 <= i < p ==> (#[trigger] entries[i]).0 < k || (strict && entries[i].0 == k),
        forall|i: int|
            p <= i < entries.len() ==> (#[trigger] entries[i]).0 > k || (!strict && entries[i].0
                == k),
    ensures
        bound_pos(entries, k, strict) == p,
    decreases entries.len(),
{
    if entries.len() > 0 {
        let last = entries.last();
        if last.0 > k || (!strict && last.0 == k) {
            assert(p < entries.len()) by {
                if p == entries.len() {
                    assert(entries[p - 1].0 < k || (strict && entries[p - 1].0 == k));
                }
            }
            assert forall|i: int, j: int| 0 <= i < j < entries.drop_last().len() implies (
            #[trigger] entries.drop_last()[i]).0 <= (#[trigger] entries.drop_last()[j]).0 by {
                assert(entries[i].0 <= entries[j].0);
            }
            lemma_bound_pos(entries.drop_last(), k, strict, p);
        } else {
            if p < entries.len() {
                assert(entries[p].0 <= entries[entries.len() - 1].0);
            }
        }
    }
}

/// What the bound says of sorted entries: the keys before it are below
/// `k`, or at most `k`, and the keys from it on are not.
pub proof fn lemma_bound_props<V>(entries: Seq<(usize, V)>, k: usize, strict: bool)
    requires
        keys_sorted(entries),
    ensures
        0 <= bound_pos(entries, k, strict) <= entries.len(),
        forall|i: int|
            0 <= i < bound_pos(entries, k, strict) ==> (#[trigger] entries[i]).0 < k || (strict
                && entries[i].0 == k),
        forall|i: int|
            bound_pos(entries, k, strict) <= i < entries.len() ==> (#[trigger] entries[i]).0 > k
                || (!strict && entries[i].0 == k),
    decreases entries.len(),
{
    if entries.len() > 0 {
        let dl = entries.drop_last();
        assert forall|i: int, j: int| 0 <= i < j < dl.len() implies (#[trigger] dl[i]).0 <= (
        #[trigger] dl[j]).0 by {
            assert(entries[i].0 <= entries[j].0);
        }
        lemma_bound_props(dl, k, strict);
        let last = entries.last();
        if last.0 > k || (!strict && last.0 == k) {
            assert forall|i: int| 0 <= i < bound_pos(entries, k, strict) implies (
            #[trigger] entries[i]).0 < k || (strict && entries[i].0 == k) by {
                assert(dl[i] == entries[i]);
            }
            assert forall|i: int| bound_pos(entries, k, strict) <= i < entries.len() implies (
            #[trigger] entries[i]).0 > k || (!strict && entries[i].0 == k) by {
                if i < dl.len() {
                    assert(dl[i] == entries[i]);
                }
            }
        } else {
            assert forall|i: int| 0 <= i < entries.len() implies (#[trigger] entries[i]).0 < k || (
            strict && entries[i].0 == k) by {
                assert(entries[i].0 <= entries[entries.len() - 1].0);
            }
        }
    }
}

impl<V> RBTree<V> {
    /// The keys of the entries ascend.
    pub open spec fn wf(&self) -> bool {
        keys_sorted(self@)
    }

    /// Some entry has the key `k`.
    pub open spec fn spec_contains_key(&self, k: usize) -> bool {
        exists|i: int| 0 <= i < self@.len() && (#[trigger] self@[i]).0 == k
    }

    /// An empty map.
    pub fn new() -> (r: Self)
        ensures
            r.wf(),
            r@.len() == 0,
    {
        Self { entries: Vec::new() }
    }

    /// The number of entries.
    pub fn len(&self) -> (r: usize)
        ensures
            r == self@.len(),
    {
        self.entries.len()
    }

    /// The position of the first entry whose key is above `k`, or at
    /// least `k` unless `strict` says otherwise.
    fn bound(&self, k: usize, strict: bool) -> (r: usize)
        requires
            self.wf(),
        ensures
            r == bound_pos(self@, k, strict),
            r <= self@.len(),
            forall|i: int|
                0 <= i < r ==> (#[trigger] self@[i]).0 < k || (strict && self@[i].0 == k),
            forall|i: int|
                r <= i < self@.len() ==> (#[trigger] self@[i]).0 > k || (!strict && self@[i].0
                    == k),
    {
        let mut lo: usize = 0;
        let mut hi: usize = self.entries.len();
        while lo < hi
            invariant
                lo <= hi <= self@.len(),
                self.wf(),
                forall|i: int|
                    0 <= i < lo ==> (#[trigger] self@[i]).0 < k || (strict && self@[i].0 == k),
                forall|i: int|
                    hi <= i < self@.len() ==> (#[trigger] self@[i]).0 > k || (!strict
                        && self@[i].0 == k),
            decreases hi - lo,
        {
            let mid = lo + (hi - lo) / 2;
            let key = self.entries[mid].0;
            if key < k || (strict && key == k) {
                proof {
                    assert forall|i: int| 0 <= i < mid + 1 implies (#[trigger] self@[i]).0 < k || (
                    strict && self@[i].0 == k) by {
                        if i < mid {
                            assert(self@[i].0 <= self@[mid as int].0);
                        }
                    }
                }
                lo = mid + 1;
            } else {
                proof {
                    assert forall|i: int| mid <= i < self@.len() implies (#[trigger] self@[i]).0 > k
                        || (!strict && self@[i].0 == k) by {
                        if i > mid {
                            assert(self@[mid as int].0 <= self@[i].0);
                        }
                    }
                }
                hi = mid;
            }
        }
        proof {
            lemma_bound_pos(self@, k, strict, lo as int);
        }
        lo
    }

    /// Finds the first entry whose key is greater than `k`.
    pub fn upper_bound(&self, k: usize) -> (r: IterMut)
        requires
            self.wf(),
        ensures
            r.spec_is_null() <==> bound_pos(self@, k, true) == self@.len(),
            !r.spec_is_null() ==> r.spec_pos() == bound_pos(self@, k, true) && self@[r.spec_pos() as int].0
                > k,
            forall|i: int| 0 <= i < bound_pos(self@, k, true) ==> (#[trigger] self@[i]).0 <= k,
    {
        let p = self.bound(k, true);
        if p == self.entries.len() {
            IterMut::null()
        } else {
            IterMut::new(p)
        }
    }

    /// Finds the first entry whose key is at least `k`.
    pub fn lower_bound(&self, k: usize) -> (r: IterMut)
        requires
            self.wf(),
        ensures
            r.spec_is_null() <==> bound_pos(self@, k, false) == self@.len(),
            !r.spec_is_null() ==> r.spec_pos() == bound_pos(self@, k, false) && self@[r.spec_pos() as int].0
                >= k,
            forall|i: int| 0 <= i < bound_pos(self@, k, false) ==> (#[trigger] self@[i]).0 < k,
    {
        let p = self.bound(k, false);
        if p == self.entries.len() {
            IterMut::null()
        } else {
            IterMut::new(p)
        }
    }

    /// The position of the first entry with the key `k`, if there is one.
    fn find_node(&self, k: usize) -> (r: Option<usize>)
        requires
            self.wf(),
        ensures
            r is Some <==> self.spec_contains_key(k),
            r is Some ==> r->Some_0 == bound_pos(self@, k, false) && r->Some_0 < self@.len()
                && self@[r->Some_0 as int].0 == k,
    {
        let p = self.bound(k, false);
        if p < self.entries.len() && self.entries[p].0 == k {
            Some(p)
        } else {
            proof {
                if self.spec_contains_key(k) {
                    let i = choose|i: int| 0 <= i < self@.len() && (#[trigger] self@[i]).0 == k;
                    if i >= p {
                        assert(self@[p as int].0 <= self@[i].0);
                    }
                }
            }
            None
        }
    }

    /// The value of the first entry with the key `k`, if there is one.
    pub fn get(&self, k: usize) -> (r: Option<&V>)
        requires
            self.wf(),
        ensures
            r is Some <==> self.spec_contains_key(k),
            r is Some ==> 0 <= bound_pos(self@, k, false) < self@.len() && self@[bound_pos(
                self@,
                k,
                false,
            )].0 == k && *r->Some_0 == self@[bound_pos(self@, k, false)].1,
    {
        match self.find_node(k) {
            None => None,
            Some(i) => Some(&self.entries[i].1),
        }
    }

    /// The key and the value of the entry at position `pos`.
    pub fn entry(&self, pos: usize) -> (r: (usize, &V))
        requires
            pos < self@.len(),
        ensures
            r.0 == self@[pos as int].0,
            *r.1 == self@[pos as int].1,
    {
        (self.entries[pos].0, &self.entries[pos].1)
    }

    /// Replaces the value of the entry at position `pos`.
    pub fn set(&mut self, pos: usize, value: V)
        requires
            old(self).wf(),
            pos < old(self)@.len(),
        ensures
            final(self).wf(),
            final(self)@ == old(self)@.update(pos as int, (old(self)@[pos as int].0, value)),
    {
        let key = self.entries[pos].0;
        self.entries[pos] = (key, value);
        proof {
            assert forall|i: int, j: int| 0 <= i < j < self@.len() implies (#[trigger] self@[i]).0
                <= (#[trigger] self@[j]).0 by {
                assert(old(self)@[i].0 <= old(self)@[j].0);
            }
        }
    }

    /// Tells whether some entry has the key `k`.
    pub fn contains_key(&self, k: usize) -> (r: bool)
        requires
            self.wf(),
        ensures
            r == self.spec_contains_key(k),
    {
        self.find_node(k).is_some()
    }

    /// Puts in an entry with the key `k` and the value `v`, behind every
    /// entry whose key is at most `k`.
    pub fn insert(&mut self, k: usize, v: V)
        requires
            old(self).wf(),
        ensures
            final(self).wf(),
            final(self)@ == old(self)@.insert(bound_pos(old(self)@, k, true), (k, v)),
            final(self).spec_contains_key(k),
    {
        let p = self.bound(k, true);
        self.entries.insert(p, (k, v));
        proof {
            assert forall|i: int, j: int| 0 <= i < j < self@.len() implies (#[trigger] self@[i]).0
                <= (#[trigger] self@[j]).0 by {
                let oi = if i < p {
                    i
                } else {
                    i - 1
                };
                let oj = if j < p {
                    j
                } else {
                    j - 1
                };
                if i == p {
                    assert(old(self)@[oj].0 > k);
                } else if j == p {
                    assert(old(self)@[oi].0 <= k);
                } else {
                    assert(old(self)@[oi].0 <= old(self)@[oj].0);
                }
            }
            assert(self@[p as int].0 == k);
        }
    }

    /// A cursor at the first entry, or at none if the map is empty.
    pub fn iter(&self) -> (r: Iter)
        ensures
            r.spec_is_null() <==> self@.len() == 0,
            !r.spec_is_null() ==> r.spec_pos() == 0,
    {
        if self.entries.len() == 0 {
            IterMut::null()
        } else {
            IterMut::new(0)
        }
    }

    /// A cursor at the first entry, or at none if the map is empty.
    pub fn iter_mut(&mut self) -> (r: IterMut)
        ensures
            final(self)@ == old(self)@,
            r.spec_is_null() <==> old(self)@.len() == 0,
            !r.spec_is_null() ==> r.spec_pos() == 0,
    {
        if self.entries.len() == 0 {
            IterMut::null()
        } else {
            IterMut::new(0)
        }
    }

    /// The cursor behind `it`, or none behind the last entry.
    pub fn next(&self, it: IterMut) -> (r: IterMut)
        requires
            !it.spec_is_null(),
            it.spec_pos() < self@.len(),
        ensures
            r.spec_is_null() <==> it.spec_pos() + 1 == self@.len(),
            !r.spec_is_null() ==> r.spec_pos() == it.spec_pos() + 1,
    {
        let n = self.entries.len();
        if it.pos() + 1 == n {
            IterMut::null()
        } else {
            IterMut::new(it.pos() + 1)
        }
    }
}

} // verus!
