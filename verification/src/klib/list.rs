//! Ordered lists of element handles. Elements live in a pool owned by
//! someone else; a list holds their handles in order, from head to tail.
use vstd::prelude::*;
use std::collections::VecDeque;
use core::marker::PhantomData;

verus! {

/// The link an element carries to record whether it is on a list.
#[derive(Clone, Copy, Debug)]
pub struct ListNode {
    linked: bool,
}

impl ListNode {
    /// Whether the link says that its element is on a list.
    pub closed spec fn spec_linked(&self) -> bool {
        self.linked
    }

    /// The link that says `linked`.
    pub closed spec fn spec_new(linked: bool) -> ListNode {
        ListNode { linked }
    }

    /// A link says what it was made to say, and nothing else tells two
    /// links apart.
    pub broadcast proof fn lemma_spec_new(linked: bool)
        ensures
            (#[trigger] Self::spec_new(linked)).spec_linked() == linked,
    {
    }

    /// Two links that say the same are equal.
    pub proof fn lemma_link_eq(a: ListNode, b: ListNode)
        requires
            a.spec_linked() == b.spec_linked(),
        ensures
            a == b,
    {
    }

    /// A link of an element that is on no list.
    pub fn new() -> (r: Self)
        ensures
            !r.spec_linked(),
    {
        ListNode { linked: false }
    }

    /// Resets the link to that of an element on no list.
    pub fn init(&mut self)
        ensures
            !final(self).spec_linked(),
    {
        self.linked = false;
    }

    /// Tells whether the element is on a list.
    pub fn is_in_list(&self) -> (r: bool)
        ensures
            r == self.spec_linked(),
    {
        self.linked
    }

    /// Records that the element was put on a list.
    pub fn add_to_list(&mut self)
        ensures
            final(self).spec_linked(),
    {
        self.linked = true;
    }

    /// Records that the element was taken off its list.
    pub fn delete_from_list(&mut self)
        ensures
            !final(self).spec_linked(),
    {
        self.linked = false;
    }
}

/// An element that carries a link and can therefore be put on a list.
pub trait Linked<T> {
    /// The link of this element.
    spec fn spec_node(&self) -> ListNode;

    /// Tells whether the element is on a list.
    fn is_in_list(&self) -> (r: bool)
        ensures
            r == self.spec_node().spec_linked(),
    ;

    /// Records that the element was taken off its list.
    fn delete_from_list(&mut self)
        ensures
            !final(self).spec_node().spec_linked(),
    ;
}

/// A list of handles of elements of type `T`, in order from head to tail.
/// A list must be initialized before anything is put on it.
pub struct List<T> {
    initialized: bool,
    items: VecDeque<usize>,
    marker: PhantomData<T>,
}

impl<T> View for List<T> {
    type V = Seq<usize>;

    /// The handles on the list, head first.
    closed spec fn view(&self) -> Seq<usize> {
        self.items@
    }
}

impl<T> List<T> {
    /// Whether `init` was called on the list.
    pub closed spec fn spec_is_initialized(&self) -> bool {
        self.initialized
    }

    /// Creates an empty list that is not initialized yet.
    #[must_use]
    pub fn new() -> (r: Self)
        ensures
            !r.spec_is_initialized(),
            r@ == Seq::<usize>::empty(),
    {
        Self { initialized: false, items: VecDeque::new(), marker: PhantomData }
    }

    /// Makes the list ready for use, and empty.
    pub fn init(&mut self)
        ensures
            final(self).spec_is_initialized(),
            final(self)@ == Seq::<usize>::empty(),
    {
        self.initialized = true;
        self.items.clear();
    }

    /// Tells whether `init` was called on the list.
    pub fn is_initialized(&self) -> (r: bool)
        ensures
            r == self.spec_is_initialized(),
    {
        self.initialized
    }

    /// Tells whether the list holds no element.
    pub fn empty(&self) -> (r: bool)
        ensures
            r == (self@.len() == 0),
    {
        self.items.len() == 0
    }

    /// A list has no more elements than can be counted.
    pub proof fn lemma_len_fits(&self)
        ensures
            self@.len() <= usize::MAX,
    {
        vstd::std_specs::vecdeque::axiom_spec_len(&self.items);
    }

    /// The number of elements on the list.
    pub fn len(&self) -> (r: usize)
        ensures
            r == self@.len(),
    {
        self.items.len()
    }

    /// The element at position `index`, counted from the head.
    pub fn get(&self, index: usize) -> (r: usize)
        requires
            index < self@.len(),
        ensures
            r == self@[index as int],
    {
        self.items[index]
    }

    /// Every element of the list, head first.
    pub fn iter(&self) -> (r: Vec<usize>)
        ensures
            r@ == self@,
    {
        let mut out: Vec<usize> = Vec::new();
        let mut i: usize = 0;
        while i < self.items.len()
            invariant
                i <= self.items@.len(),
                out@ == self.items@.subrange(0, i as int),
            decreases self.items@.len() - i,
        {
            out.push(self.items[i]);
            assert(self.items@.subrange(0, i as int).push(self.items@[i as int])
                =~= self.items@.subrange(0, i + 1));
            i += 1;
        }
        assert(self.items@.subrange(0, i as int) =~= self.items@);
        out
    }

    /// Puts `elt` in front of the head.
    pub fn add_head(&mut self, elt: usize)
        requires
            old(self).spec_is_initialized(),
        ensures
            final(self).spec_is_initialized(),
            final(self)@ == seq![elt] + old(self)@,
    {
        self.items.push_front(elt);
    }

    /// The first element, if there is one.
    pub fn head(&self) -> (r: Option<usize>)
        requires
            self.spec_is_initialized(),
        ensures
            self@.len() == 0 ==> r is None,
            self@.len() > 0 ==> r == Some(self@[0]),
    {
        if self.items.len() == 0 {
            None
        } else {
            Some(self.items[0])
        }
    }

    /// The last element, if there is one.
    pub fn tail(&self) -> (r: Option<usize>)
        requires
            self.spec_is_initialized(),
        ensures
            self@.len() == 0 ==> r is None,
            self@.len() > 0 ==> r == Some(self@[self@.len() - 1]),
    {
        let n = self.items.len();
        if n == 0 {
            None
        } else {
            Some(self.items[n - 1])
        }
    }

    /// Takes the first element off the list, if there is one.
    pub fn pop_head(&mut self) -> (r: Option<usize>)
        requires
            old(self).spec_is_initialized(),
        ensures
            final(self).spec_is_initialized(),
            old(self)@.len() == 0 ==> r is None && final(self)@ == old(self)@,
            old(self)@.len() > 0 ==> r == Some(old(self)@[0]) && final(self)@ == old(self)@.subrange(
                1,
                old(self)@.len() as int,
            ),
    {
        self.items.pop_front()
    }

    /// Puts `elt` behind the tail.
    pub fn add_tail(&mut self, elt: usize)
        requires
            old(self).spec_is_initialized(),
        ensures
            final(self).spec_is_initialized(),
            final(self)@ == old(self)@.push(elt),
    {
        self.items.push_back(elt);
    }

    /// Moves every element of `other` behind the tail of this list, in
    /// order, and leaves `other` empty.
    pub fn splice(&mut self, other: &mut Self)
        requires
            old(self).spec_is_initialized(),
        ensures
            final(self).spec_is_initialized(),
            final(self)@ == old(self)@ + old(other)@,
            final(other)@ == Seq::<usize>::empty(),
            final(other).spec_is_initialized() == (old(other).spec_is_initialized() || old(
                other,
            )@.len() > 0),
    {
        if other.items.len() == 0 {
            assert(self@ + other@ =~= self@);
            return ;
        }
        self.items.append(&mut other.items);
        other.init();
    }

    /// The position of the first occurrence of `elt`, if it is on the list.
    pub fn position(&self, elt: usize) -> (r: Option<usize>)
        ensures
            r is None ==> !self@.contains(elt),
            r is Some ==> r->Some_0 < self@.len() && self@[r->Some_0 as int] == elt && forall|k: int|
                0 <= k < r->Some_0 ==> self@[k] != elt,
    {
        let mut i: usize = 0;
        while i < self.items.len()
            invariant
                i <= self.items@.len(),
                forall|k: int| 0 <= k < i ==> self.items@[k] != elt,
            decreases self.items@.len() - i,
        {
            if self.items[i] == elt {
                return Some(i);
            }
            i += 1;
        }
        None
    }

    /// Takes every element that lies in `[lo, hi)` off the list. The
    /// others keep their order.
    pub fn remove_range(&mut self, lo: usize, hi: usize)
        ensures
            final(self).spec_is_initialized() == old(self).spec_is_initialized(),
            final(self)@ == without_range(old(self)@, lo as int, hi as int),
    {
        let mut kept: VecDeque<usize> = VecDeque::new();
        let mut i: usize = 0;
        while i < self.items.len()
            invariant
                i <= self.items@.len(),
                kept@ == without_range(self.items@.take(i as int), lo as int, hi as int),
            decreases self.items@.len() - i,
        {
            let x = self.items[i];
            assert(self.items@.take(i + 1).drop_last() =~= self.items@.take(i as int));
            if !(lo <= x && x < hi) {
                kept.push_back(x);
            }
            i += 1;
        }
        assert(self.items@.take(i as int) =~= self.items@);
        self.items = kept;
    }

    /// Takes the first occurrence of `elt` off the list. Returns whether
    /// there was one.
    pub fn delete(&mut self, elt: usize) -> (r: bool)
        ensures
            final(self).spec_is_initialized() == old(self).spec_is_initialized(),
            r == old(self)@.contains(elt),
            !r ==> final(self)@ == old(self)@,
            r ==> final(self)@ == old(self)@.remove(first_index(old(self)@, elt)),
    {
        match self.position(elt) {
            None => false,
            Some(i) => {
                proof {
                    lemma_first_index(self@, elt, i as int);
                }
                self.items.remove(i);
                true
            },
        }
    }
}

/// The elements of `s` that lie outside `[lo, hi)`, in their order.
pub open spec fn without_range(s: Seq<usize>, lo: int, hi: int) -> Seq<usize>
    decreases s.len(),
{
    if s.len() == 0 {
        s
    } else if lo <= s.last() < hi {
        without_range(s.drop_last(), lo, hi)
    } else {
        without_range(s.drop_last(), lo, hi).push(s.last())
    }
}

/// What is left of a sequence without a range holds exactly the elements
/// outside the range, and holds none twice if the sequence held none
/// twice.
pub proof fn lemma_without_range(s: Seq<usize>, lo: int, hi: int)
    ensures
        without_range(s, lo, hi).len() <= s.len(),
        forall|y: usize|
            #[trigger] without_range(s, lo, hi).contains(y) <==> s.contains(y) && !(lo <= y < hi),
        s.no_duplicates() ==> without_range(s, lo, hi).no_duplicates(),
    decreases s.len(),
{
    let w = without_range(s, lo, hi);
    if s.len() > 0 {
        let dl = s.drop_last();
        let wd = without_range(dl, lo, hi);
        lemma_without_range(dl, lo, hi);
        assert forall|y: usize| #[trigger] w.contains(y) <==> s.contains(y) && !(lo <= y < hi) by {
            if w.contains(y) {
                let j = choose|j: int| 0 <= j < w.len() && w[j] == y;
                if j < wd.len() {
                    assert(wd[j] == y);
                    assert(wd.contains(y));
                    let k = choose|k: int| 0 <= k < dl.len() && dl[k] == y;
                    assert(s[k] == y);
                } else {
                    assert(s[s.len() - 1] == y);
                }
            }
            if s.contains(y) && !(lo <= y < hi) {
                let k = choose|k: int| 0 <= k < s.len() && s[k] == y;
                if k < dl.len() {
                    assert(dl[k] == y);
                    assert(dl.contains(y));
                    assert(wd.contains(y));
                    let j = choose|j: int| 0 <= j < wd.len() && wd[j] == y;
                    assert(w[j] == y);
                } else {
                    assert(w[w.len() - 1] == y);
                }
            }
        }
        if s.no_duplicates() {
            assert(dl.no_duplicates());
            if !(lo <= s.last() < hi) {
                assert(!wd.contains(s.last())) by {
                    if dl.contains(s.last()) {
                        let k = choose|k: int| 0 <= k < dl.len() && dl[k] == s.last();
                        assert(s[k] == s[s.len() - 1]);
                    }
                }
            }
        }
    }
}

/// How many elements of `s` lie in `[lo, hi)`.
pub open spec fn count_in_range(s: Seq<usize>, lo: int, hi: int) -> int
    decreases s.len(),
{
    if s.len() == 0 {
        0
    } else if lo <= s.last() < hi {
        count_in_range(s.drop_last(), lo, hi) + 1
    } else {
        count_in_range(s.drop_last(), lo, hi)
    }
}

/// What is left of a sequence without a range has as many elements fewer
/// as lay in the range; and the elements in a range are those in its
/// lower part and those in its upper part.
pub proof fn lemma_count_in_range(s: Seq<usize>, lo: int, mid: int, hi: int)
    requires
        lo <= mid <= hi,
    ensures
        without_range(s, lo, hi).len() == s.len() - count_in_range(s, lo, hi),
        count_in_range(s, lo, hi) == count_in_range(s, lo, mid) + count_in_range(s, mid, hi),
        0 <= count_in_range(s, lo, hi) <= s.len(),
    decreases s.len(),
{
    if s.len() > 0 {
        lemma_count_in_range(s.drop_last(), lo, mid, hi);
    }
}

/// A sequence without repetition has at most one element in a range in
/// which only one value can lie, and has one if it has that value.
pub proof fn lemma_count_one(s: Seq<usize>, lo: int, hi: int, x: usize)
    requires
        s.no_duplicates(),
        lo <= x < hi,
        forall|i: int| 0 <= i < s.len() && lo <= #[trigger] s[i] < hi ==> s[i] == x,
    ensures
        count_in_range(s, lo, hi) == (if s.contains(x) {
            1int
        } else {
            0int
        }),
    decreases s.len(),
{
    if s.len() > 0 {
        let dl = s.drop_last();
        assert(dl.no_duplicates());
        assert forall|i: int| 0 <= i < dl.len() && lo <= #[trigger] dl[i] < hi implies dl[i]
            == x by {
            assert(dl[i] == s[i]);
        }
        lemma_count_one(dl, lo, hi, x);
        if s.last() == x {
            assert(s[s.len() - 1] == x);
            if dl.contains(x) {
                let k = choose|k: int| 0 <= k < dl.len() && dl[k] == x;
                assert(s[k] == s[s.len() - 1]);
            }
        } else {
            if s.contains(x) {
                let k = choose|k: int| 0 <= k < s.len() && s[k] == x;
                assert(dl[k] == x);
            }
            if dl.contains(x) {
                let k = choose|k: int| 0 <= k < dl.len() && dl[k] == x;
                assert(s[k] == x);
            }
        }
    }
}

/// The position of the first occurrence of `elt` in `s`.
pub open spec fn first_index(s: Seq<usize>, elt: usize) -> int {
    choose|i: int| 0 <= i < s.len() && s[i] == elt && forall|k: int| 0 <= k < i ==> s[k] != elt
}

/// A position that holds `elt` with no occurrence before it is the first.
pub proof fn lemma_first_index(s: Seq<usize>, elt: usize, i: int)
    requires
        0 <= i < s.len(),
        s[i] == elt,
        forall|k: int| 0 <= k < i ==> s[k] != elt,
    ensures
        first_index(s, elt) == i,
        s.contains(elt),
{
    let j = first_index(s, elt);
    assert(0 <= j < s.len() && s[j] == elt && forall|k: int| 0 <= k < j ==> s[k] != elt);
    if j < i {
        assert(s[j] != elt);
    }
    if i < j {
        assert(s[i] != elt);
    }
}

} // verus!
