//! A tree of fixed-size segments that hands out a stable slot for every index.
//!
//! The segments live in one flat arena: segment `s` owns the slots
//! `s * SEGMENT_SIZE .. (s + 1) * SEGMENT_SIZE`. A segment at level 1 is a leaf
//! whose slots hold elements; a segment at a higher level holds its children.
//! The tree grows upwards: when an index needs more levels than the tree has,
//! a new root is put above the old one, which becomes its child at slot 0.

use vstd::arithmetic::div_mod::{
    lemma_basic_div, lemma_div_denominator, lemma_div_pos_is_pos, lemma_fundamental_div_mod,
};
use vstd::prelude::*;

verus! {

/// Number of slots of one segment: each level of the tree consumes ten bits
/// of an index.
pub const SEGMENT_SIZE: usize = 1024;

/// The height at which every 64-bit index has a slot.
pub const MAX_HEIGHT: usize = 7;

/// Number of indices that one segment at level `h` covers.
pub open spec fn span(h: nat) -> nat
    decreases h,
{
    if h == 0 {
        1
    } else {
        1024 * span((h - 1) as nat)
    }
}

/// The prefix that tells which segment at level `h` covers index `i`.
pub open spec fn prefix_of(i: int, h: nat) -> int {
    i / (span(h) as int)
}

/// The slot of the level-`h` segment through which the path of index `i` goes.
pub open spec fn chunk_of(i: int, h: nat) -> int {
    (i / (span((h - 1) as nat) as int)) % 1024
}

/// The leaf segment, among segments with the given levels and prefixes, that
/// covers index `i`.
spec fn leaf_for(levels: Seq<int>, prefixes: Seq<int>, i: int) -> int {
    choose|s: int| 0 <= s < levels.len() && levels[s] == 1 && prefixes[s] == i / 1024
}

pub enum Slot<T> {
    Empty,
    Child(usize),
    Elem(T),
}

/// A slot of a leaf segment: the place where the element of one index lives.
#[derive(Clone, Copy, Debug, PartialEq, Eq, Structural)]
pub struct SlotRef {
    pub segment: usize,
    pub offset: usize,
}

/// Growable array of elements of type `T`, indexed by `u64`.
pub struct GrowableArray<T> {
    slots: Vec<Slot<T>>,
    root: usize,
    height: usize,
    levels: Ghost<Seq<int>>,
    prefixes: Ghost<Seq<int>>,
}

pub proof fn lemma_span_positive(h: nat)
    ensures
        span(h) >= 1,
    decreases h,
{
    if h > 0 {
        lemma_span_positive((h - 1) as nat);
    }
}

/// The segment at level `h - 1` on the path of `i` is the child, at the slot
/// `chunk_of(i, h)`, of the segment at level `h` on that path.
pub proof fn lemma_prefix_step(i: int, h: nat)
    requires
        0 <= i,
        h >= 1,
    ensures
        prefix_of(i, (h - 1) as nat) == prefix_of(i, h) * 1024 + chunk_of(i, h),
        0 <= chunk_of(i, h) < 1024,
{
    let d = span((h - 1) as nat) as int;
    lemma_span_positive((h - 1) as nat);
    let q = i / d;
    lemma_div_denominator(i, d, 1024);
    assert(span(h) as int == d * 1024);
    lemma_fundamental_div_mod(q, 1024);
    lemma_div_pos_is_pos(i, d);
}

impl<T> Default for GrowableArray<T> {
    fn default() -> (r: Self)
        ensures
            r.wf(),
            forall|i: int| !r.has_slot(i),
    {
        Self::new()
    }
}

impl<T> GrowableArray<T> {
    pub closed spec fn seg_count(&self) -> int {
        self.levels@.len() as int
    }

    pub closed spec fn slot(&self, s: int, j: int) -> Slot<T> {
        self.slots@[s * 1024 + j]
    }

    pub closed spec fn wf(&self) -> bool {
        let n = self.seg_count();
        &&& self.prefixes@.len() == n
        &&& self.slots@.len() == n * 1024
        &&& self.height <= MAX_HEIGHT
        &&& (self.height == 0 <==> n == 0)
        &&& (self.height > 0 ==> {
            &&& self.root < n
            &&& self.levels@[self.root as int] == self.height
            &&& self.prefixes@[self.root as int] == 0
        })
        &&& forall|s: int|
            0 <= s < n ==> {
                &&& 1 <= #[trigger] self.levels@[s] <= self.height
                &&& 0 <= self.prefixes@[s]
                &&& (self.levels@[s] == self.height ==> s == self.root)
            }
        &&& forall|s: int, j: int|
            0 <= s < n && 0 <= j < 1024 ==> match #[trigger] self.slot(s, j) {
                Slot::Child(c) => {
                    &&& self.levels@[s] > 1
                    &&& c < n
                    &&& self.levels@[c as int] == self.levels@[s] - 1
                    &&& self.prefixes@[c as int] == self.prefixes@[s] * 1024 + j
                },
                Slot::Elem(_) => self.levels@[s] == 1,
                Slot::Empty => true,
            }
        &&& forall|s1: int, s2: int|
            0 <= s1 < n && 0 <= s2 < n && #[trigger] self.levels@[s1] == #[trigger] self.levels@[s2]
                && self.prefixes@[s1] == self.prefixes@[s2] ==> s1 == s2
        &&& forall|s: int|
            0 <= s < n && #[trigger] self.levels@[s] < self.height ==> exists|p: int|
                0 <= p < n && self.levels@[p] == self.levels@[s] + 1 && self.prefixes@[p]
                    == self.prefixes@[s] / 1024 && #[trigger] self.slot(p, self.prefixes@[s] % 1024)
                    == Slot::<T>::Child(s as usize)
    }

    /// Whether the leaf `s` is the one that covers index `i`.
    pub closed spec fn is_leaf_of(&self, s: int, i: int) -> bool {
        0 <= s < self.seg_count() && self.levels@[s] == 1 && self.prefixes@[s] == i / 1024
    }

    /// Whether index `i` has been given a slot.
    pub closed spec fn has_slot(&self, i: int) -> bool {
        exists|s: int| self.is_leaf_of(s, i)
    }

    /// The slot of index `i`, where `has_slot(i)`.
    pub closed spec fn slot_of(&self, i: int) -> SlotRef {
        let s = leaf_for(self.levels@, self.prefixes@, i);
        SlotRef { segment: s as usize, offset: (i % 1024) as usize }
    }

    /// Whether `r` names a slot of a leaf.
    pub closed spec fn valid_ref(&self, r: SlotRef) -> bool {
        &&& r.segment < self.seg_count()
        &&& self.levels@[r.segment as int] == 1
        &&& r.offset < 1024
    }

    /// What the slot `r` holds.
    pub closed spec fn content(&self, r: SlotRef) -> Option<T> {
        match self.slot(r.segment as int, r.offset as int) {
            Slot::Elem(v) => Some(v),
            _ => None,
        }
    }

    /// The element stored for index `i`, if any.
    pub open spec fn value(&self, i: int) -> Option<T> {
        if self.has_slot(i) {
            self.content(self.slot_of(i))
        } else {
            None
        }
    }

    /// Different indices have different slots, and each slot of an index is valid.
    pub proof fn lemma_slot_of(&self, i: int, k: int)
        requires
            self.wf(),
            0 <= i,
            0 <= k,
            self.has_slot(i),
            self.has_slot(k),
        ensures
            self.valid_ref(self.slot_of(i)),
            self.slot_of(i) == self.slot_of(k) ==> i == k,
    {
        let s = choose|s: int| self.is_leaf_of(s, i);
        let t = choose|s: int| self.is_leaf_of(s, k);
        if self.slot_of(i) == self.slot_of(k) {
            assert(s == t);
            lemma_fundamental_div_mod(i, 1024);
            lemma_fundamental_div_mod(k, 1024);
        }
    }

    /// Creates an empty array.
    pub fn new() -> (r: Self)
        ensures
            r.wf(),
            forall|i: int| !r.has_slot(i),
    {
        GrowableArray {
            slots: Vec::new(),
            root: 0,
            height: 0,
            levels: Ghost(Seq::empty()),
            prefixes: Ghost(Seq::empty()),
        }
    }

    /// Every slot that an index had keeps its place, and no element changes,
    /// when `new` only adds segments and fills empty slots of inner segments.
    proof fn lemma_frame(old: &Self, new: &Self)
        requires
            old.wf(),
            new.wf(),
            old.seg_count() <= new.seg_count(),
            forall|s: int| 0 <= s < old.seg_count() ==> new.levels@[s] == old.levels@[s]
                && new.prefixes@[s] == old.prefixes@[s],
            forall|s: int, j: int|
                0 <= s < old.seg_count() && 0 <= j < 1024 && old.levels@[s] == 1 ==> new.slot(s, j)
                    == old.slot(s, j),
            forall|s: int, j: int|
                old.seg_count() <= s < new.seg_count() && 0 <= j < 1024 && new.levels@[s] == 1
                    ==> new.slot(s, j) == Slot::<T>::Empty,
        ensures
            forall|i: int| #[trigger]
                old.has_slot(i) ==> new.has_slot(i) && new.slot_of(i) == old.slot_of(i),
            forall|i: int| 0 <= i ==> #[trigger] new.value(i) == old.value(i),
    {
        assert forall|i: int| #[trigger]
            old.has_slot(i) implies new.has_slot(i) && new.slot_of(i) == old.slot_of(i) by {
            let s = choose|s: int| old.is_leaf_of(s, i);
            assert(new.is_leaf_of(s, i));
            let t = choose|s: int| new.is_leaf_of(s, i);
            assert(new.levels@[t] == new.levels@[s]);
        }
        assert forall|i: int| 0 <= i implies #[trigger] new.value(i) == old.value(i) by {
            if new.has_slot(i) {
                let t = choose|s: int| new.is_leaf_of(s, i);
                if old.has_slot(i) {
                    let s = choose|s: int| old.is_leaf_of(s, i);
                    assert(new.is_leaf_of(s, i));
                    assert(new.levels@[t] == new.levels@[s]);
                    assert(new.slot(t, i % 1024) == old.slot(t, i % 1024));
                } else {
                    if t < old.seg_count() {
                        assert(old.is_leaf_of(t, i));
                    }
                    assert(new.slot(t, i % 1024) == Slot::<T>::Empty);
                }
            }
        }
    }

    /// Appends a segment whose slots are all empty.
    fn push_segment(&mut self, level: Ghost<int>, prefix: Ghost<int>)
        requires
            old(self).slots@.len() == old(self).seg_count() * 1024,
            old(self).prefixes@.len() == old(self).seg_count(),
        ensures
            final(self).slots@.len() == old(self).slots@.len() + 1024,
            forall|k: int| 0 <= k < old(self).slots@.len() ==> final(self).slots@[k] == old(self).slots@[k],
            forall|k: int|
                old(self).slots@.len() <= k < final(self).slots@.len() ==> final(self).slots@[k] == Slot::<T>::Empty,
            final(self).levels@ == old(self).levels@.push(level@),
            final(self).prefixes@ == old(self).prefixes@.push(prefix@),
            final(self).root == old(self).root,
            final(self).height == old(self).height,
    {
        let mut k: usize = 0;
        while k < SEGMENT_SIZE
            invariant
                k <= 1024,
                self.slots@.len() == old(self).slots@.len() + k,
                forall|m: int| 0 <= m < old(self).slots@.len() ==> self.slots@[m] == old(self).slots@[m],
                forall|m: int|
                    old(self).slots@.len() <= m < self.slots@.len() ==> self.slots@[m] == Slot::<T>::Empty,
                self.levels == old(self).levels,
                self.prefixes == old(self).prefixes,
                self.root == old(self).root,
                self.height == old(self).height,
            decreases 1024 - k,
        {
            self.slots.push(Slot::Empty);
            k = k + 1;
        }
        self.levels = Ghost(self.levels@.push(level@));
        self.prefixes = Ghost(self.prefixes@.push(prefix@));
    }

    /// `span(k)` for the levels below the highest.
    fn span_exec(k: usize) -> (r: u64)
        requires
            k <= 6,
        ensures
            r == span(k as nat),
    {
        proof {
            reveal_with_fuel(span, 7);
        }
        let mut r: u64 = 1;
        let mut i: usize = 0;
        while i < k
            invariant
                i <= k <= 6,
                r == span(i as nat),
                span(6) == 0x1000_0000_0000_0000,
                span(5) == 0x4_0000_0000_0000,
                span(4) == 0x100_0000_0000,
                span(3) == 0x4000_0000,
                span(2) == 0x10_0000,
                span(1) == 0x400,
                span(0) == 1,
            decreases k - i,
        {
            r = r * 1024;
            i = i + 1;
        }
        r
    }

    /// Returns the slot of `index`, allocating the segments on its path and
    /// growing the tree as needed. The slots of other indices stay where they
    /// were, and no element changes.
    #[verifier::rlimit(60)]
    pub fn get(&mut self, index: usize) -> (r: SlotRef)
        requires
            old(self).wf(),
        ensures
            final(self).wf(),
            final(self).has_slot(index as int),
            r == final(self).slot_of(index as int),
            final(self).valid_ref(r),
            forall|i: int| #[trigger]
                old(self).has_slot(i) ==> final(self).has_slot(i) && final(self).slot_of(i)
                    == old(self).slot_of(i),
            forall|i: int| 0 <= i ==> #[trigger] final(self).value(i) == old(self).value(i),
    {
        let ghost start = *self;
        let x = index as u64;
        proof {
            reveal_with_fuel(span, 8);
        }
        if self.height == 0 {
            self.push_segment(Ghost(1), Ghost(0));
            self.root = 0;
            self.height = 1;
            proof {
                assert forall|s: int, j: int|
                    0 <= s < self.seg_count() && 0 <= j < 1024 implies #[trigger] self.slot(s, j) == Slot::<T>::Empty by {
                    assert(s == 0);
                }
                Self::lemma_frame(&start, self);
            }
        }
        let mut need: usize = 1;
        let mut bound: u64 = 1024;
        while need < MAX_HEIGHT && x >= bound
            invariant
                1 <= need <= 7,
                need < 7 ==> bound == span(need as nat),
                span(6) == 0x1000_0000_0000_0000,
                span(5) == 0x4_0000_0000_0000,
                span(4) == 0x100_0000_0000,
                span(3) == 0x4000_0000,
                span(2) == 0x10_0000,
                span(1) == 0x400,
                span(7) > u64::MAX,
            decreases 7 - need,
        {
            need = need + 1;
            if need < MAX_HEIGHT {
                bound = bound * 1024;
            }
        }
        assert(x < span(need as nat));
        while self.height < need
            invariant
                self.wf(),
                1 <= self.height,
                need <= 7,
                x < span(need as nat),
                forall|i: int| #[trigger]
                    start.has_slot(i) ==> self.has_slot(i) && self.slot_of(i) == start.slot_of(i),
                forall|i: int| 0 <= i ==> #[trigger] self.value(i) == start.value(i),
            decreases 7 - self.height,
        {
            let ghost before = *self;
            let id = self.slots.len() / SEGMENT_SIZE;
            self.push_segment(Ghost((self.height + 1) as int), Ghost(0));
            self.slots.set(id * SEGMENT_SIZE, Slot::Child(self.root));
            self.root = id;
            self.height = self.height + 1;
            proof {
                let n = before.seg_count();
                assert(id == n);
                assert forall|s: int, j: int|
                    0 <= s < n && 0 <= j < 1024 implies #[trigger] self.slot(s, j) == before.slot(s, j) by {
                    assert(s * 1024 + j < n * 1024);
                }
                assert forall|j: int| 0 <= j < 1024 implies #[trigger] self.slot(n, j) == (if j == 0 {
                    Slot::Child(before.root)
                } else {
                    Slot::<T>::Empty
                }) by {
                    assert(n * 1024 + j >= n * 1024);
                }
                assert forall|s: int| 0 <= s < self.seg_count() && #[trigger] self.levels@[s] < self.height
                    implies exists|p: int|
                    0 <= p < self.seg_count() && self.levels@[p] == self.levels@[s] + 1 && self.prefixes@[p]
                        == self.prefixes@[s] / 1024 && #[trigger] self.slot(p, self.prefixes@[s] % 1024)
                        == Slot::<T>::Child(s as usize) by {
                    if s == before.root {
                        assert(self.slot(n, 0) == Slot::<T>::Child(s as usize));
                    } else {
                        let p = choose|p: int|
                            0 <= p < n && before.levels@[p] == before.levels@[s] + 1 && before.prefixes@[p]
                                == before.prefixes@[s] / 1024 && #[trigger] before.slot(p, before.prefixes@[s] % 1024)
                                == Slot::<T>::Child(s as usize);
                        assert(self.slot(p, self.prefixes@[s] % 1024) == Slot::<T>::Child(s as usize));
                    }
                }
                Self::lemma_frame(&before, self);
            }
        }
        let mut cur = self.root;
        let mut h = self.height;
        let mut sp = Self::span_exec(h - 1);
        proof {
            lemma_basic_div(x as int, span(self.height as nat) as int);
        }
        while h > 1
            invariant
                self.wf(),
                1 <= h <= self.height,
                cur < self.seg_count(),
                self.levels@[cur as int] == h,
                self.prefixes@[cur as int] == prefix_of(x as int, h as nat),
                sp == span((h - 1) as nat),
                forall|i: int| #[trigger]
                    start.has_slot(i) ==> self.has_slot(i) && self.slot_of(i) == start.slot_of(i),
                forall|i: int| 0 <= i ==> #[trigger] self.value(i) == start.value(i),
            decreases h,
        {
            proof {
                lemma_prefix_step(x as int, h as nat);
                lemma_span_positive((h - 1) as nat);
            }
            let j = ((x / sp) % 1024) as usize;
            assert(j == chunk_of(x as int, h as nat));
            let len = self.slots.len();
            let ghost before = *self;
            assert(cur * 1024 + j < len);
            match self.slots[cur * SEGMENT_SIZE + j] {
                Slot::Child(c) => {
                    assert(self.slot(cur as int, j as int) == Slot::<T>::Child(c));
                    cur = c;
                },
                _ => {
                    assert(self.slot(cur as int, j as int) == Slot::<T>::Empty);
                    let id = len / SEGMENT_SIZE;
                    let ghost pre = self.prefixes@[cur as int] * 1024 + j;
                    self.push_segment(Ghost((h - 1) as int), Ghost(pre));
                    self.slots.set(cur * SEGMENT_SIZE + j, Slot::Child(id));
                    proof {
                        let n = before.seg_count();
                        assert(id == n);
                        assert forall|s: int, k: int|
                            0 <= s < n && 0 <= k < 1024 && (s != cur || k != j) implies #[trigger] self.slot(s, k)
                            == before.slot(s, k) by {
                            assert(s * 1024 + k < n * 1024);
                            assert(s * 1024 + k != cur * 1024 + j);
                        }
                        assert(self.slot(cur as int, j as int) == Slot::<T>::Child(id));
                        assert forall|k: int| 0 <= k < 1024 implies #[trigger] self.slot(n, k) == Slot::<T>::Empty by {
                            assert(n * 1024 + k >= n * 1024);
                        }
                        assert forall|s: int| 0 <= s < n && self.levels@[s] == h - 1 && #[trigger] self.prefixes@[s] == pre
                            implies false by {
                            let p = choose|p: int|
                                0 <= p < n && before.levels@[p] == before.levels@[s] + 1 && before.prefixes@[p]
                                    == before.prefixes@[s] / 1024 && #[trigger] before.slot(p, before.prefixes@[s] % 1024)
                                    == Slot::<T>::Child(s as usize);
                            assert(before.levels@[p] == before.levels@[cur as int]);
                        }
                        assert forall|s: int| 0 <= s < self.seg_count() && #[trigger] self.levels@[s] < self.height
                            implies exists|p: int|
                            0 <= p < self.seg_count() && self.levels@[p] == self.levels@[s] + 1 && self.prefixes@[p]
                                == self.prefixes@[s] / 1024 && #[trigger] self.slot(p, self.prefixes@[s] % 1024)
                                == Slot::<T>::Child(s as usize) by {
                            if s == n {
                                assert(self.slot(cur as int, j as int) == Slot::<T>::Child(s as usize));
                            } else {
                                let p = choose|p: int|
                                    0 <= p < n && before.levels@[p] == before.levels@[s] + 1 && before.prefixes@[p]
                                        == before.prefixes@[s] / 1024 && #[trigger] before.slot(p, before.prefixes@[s] % 1024)
                                        == Slot::<T>::Child(s as usize);
                                assert(self.slot(p, self.prefixes@[s] % 1024) == Slot::<T>::Child(s as usize));
                            }
                        }
                        Self::lemma_frame(&before, self);
                    }
                    cur = id;
                },
            }
            h = h - 1;
            sp = sp / 1024;
        }
        proof {
            assert(self.is_leaf_of(cur as int, x as int));
            let t = choose|s: int| self.is_leaf_of(s, x as int);
            assert(self.levels@[t] == self.levels@[cur as int]);
        }
        SlotRef { segment: cur, offset: (x % 1024) as usize }
    }
}

impl<T: Copy> GrowableArray<T> {
    /// Reads the element held by slot `r`.
    pub fn load(&self, r: SlotRef) -> (v: Option<T>)
        requires
            self.wf(),
            self.valid_ref(r),
        ensures
            v == self.content(r),
    {
        let len = self.slots.len();
        assert(r.segment * 1024 + r.offset < len);
        match &self.slots[r.segment * SEGMENT_SIZE + r.offset] {
            Slot::Elem(e) => Some(*e),
            _ => None,
        }
    }

    /// Puts `v` in slot `r`. Every index keeps its slot; the index whose slot
    /// is `r` now holds `v`, and every other index keeps its element.
    pub fn store(&mut self, r: SlotRef, v: T)
        requires
            old(self).wf(),
            old(self).valid_ref(r),
        ensures
            final(self).wf(),
            final(self).content(r) == Some(v),
            forall|q: SlotRef|
                old(self).valid_ref(q) && q != r ==> #[trigger] final(self).content(q) == old(self).content(q),
            forall|i: int| #[trigger] final(self).has_slot(i) == old(self).has_slot(i),
            forall|i: int| #[trigger] final(self).slot_of(i) == old(self).slot_of(i),
            forall|q: SlotRef| #[trigger] final(self).valid_ref(q) == old(self).valid_ref(q),
            forall|i: int|
                0 <= i ==> #[trigger] final(self).value(i) == if old(self).has_slot(i) && old(self).slot_of(i)
                    == r {
                    Some(v)
                } else {
                    old(self).value(i)
                },
    {
        let ghost before = *self;
        let len = self.slots.len();
        assert(r.segment * 1024 + r.offset < len);
        self.slots.set(r.segment * SEGMENT_SIZE + r.offset, Slot::Elem(v));
        proof {
            let n = before.seg_count();
            assert forall|s: int, k: int|
                0 <= s < n && 0 <= k < 1024 && (s != r.segment || k != r.offset) implies #[trigger] self.slot(s, k)
                == before.slot(s, k) by {
                assert(s * 1024 + k < n * 1024);
                assert(s * 1024 + k != r.segment * 1024 + r.offset);
            }
            assert(self.slot(r.segment as int, r.offset as int) == Slot::Elem(v));
            assert forall|q: SlotRef| before.valid_ref(q) && q != r implies #[trigger] self.content(q)
                == before.content(q) by {
                assert(self.slot(q.segment as int, q.offset as int) == before.slot(q.segment as int, q.offset as int));
            }
            assert forall|s: int|
                0 <= s < n && #[trigger] self.levels@[s] < self.height implies exists|p: int|
                0 <= p < n && self.levels@[p] == self.levels@[s] + 1 && self.prefixes@[p]
                    == self.prefixes@[s] / 1024 && #[trigger] self.slot(p, self.prefixes@[s] % 1024)
                    == Slot::<T>::Child(s as usize) by {
                let p = choose|p: int|
                    0 <= p < n && before.levels@[p] == before.levels@[s] + 1 && before.prefixes@[p]
                        == before.prefixes@[s] / 1024 && #[trigger] before.slot(p, before.prefixes@[s] % 1024)
                        == Slot::<T>::Child(s as usize);
                assert(self.slot(p, self.prefixes@[s] % 1024) == Slot::<T>::Child(s as usize));
            }
            assert forall|i: int| #[trigger] self.has_slot(i) == before.has_slot(i) by {
                if before.has_slot(i) {
                    let t = choose|t: int| before.is_leaf_of(t, i);
                    assert(self.is_leaf_of(t, i));
                }
                if self.has_slot(i) {
                    let t = choose|t: int| self.is_leaf_of(t, i);
                    assert(before.is_leaf_of(t, i));
                }
            }
        }
    }
}

} // verus!
