//! Hash map from keys below `2^63` to values, kept as one list sorted in split
//! order, whose buckets start at sentinel entries found through a segment tree.

use crate::growable_array::GrowableArray;
use crate::split_key::{
    lemma_reverse_bounds, lemma_reverse_injective, lemma_reverse_low_bits_le, lemma_reverse_zero,
    regular_key, regular_order_key, sentinel_key, sentinel_order_key, TOP_BIT,
};
use vstd::arithmetic::div_mod::{lemma_fundamental_div_mod, lemma_mod_multiples_vanish, lemma_mod_twice};
use vstd::arithmetic::power2::{
    lemma2_to64, lemma2_to64_rest, lemma_pow2_adds, lemma_pow2_pos, lemma_pow2_strictly_increases,
    lemma_pow2_unfold, pow2,
};
use vstd::prelude::*;

verus! {

/// `size` is doubled when `count > size * LOAD_FACTOR`.
pub const LOAD_FACTOR: usize = 2;

/// One entry of the list: a sentinel (no value) or a regular entry.
struct Entry<V> {
    so_key: u64,
    key: usize,
    value: Option<V>,
    next: Option<usize>,
}

spec fn in_order(ord: Seq<usize>, id: usize) -> bool {
    exists|p: int| 0 <= p < ord.len() && #[trigger] ord[p] == id
}

/// The entries named in `free` are distinct, exist, and are out of the list,
/// so that they can be given to new entries.
spec fn free_ok(n: nat, ord: Seq<usize>, free: Seq<usize>) -> bool {
    &&& forall|i: int| 0 <= i < free.len() ==> #[trigger] free[i] < n && !in_order(ord, free[i])
    &&& forall|i: int, j: int| 0 <= i < j < free.len() ==> #[trigger] free[i] != #[trigger] free[j]
}

spec fn key_of<V>(nodes: Seq<Entry<V>>, ord: Seq<usize>, p: int) -> int {
    nodes[ord[p] as int].so_key as int
}

/// The entries at `ord` form one list, linked in that order, sorted by
/// split-order key, each entry well formed, starting with the sentinel of
/// bucket 0.
spec fn list_ok<V>(nodes: Seq<Entry<V>>, ord: Seq<usize>) -> bool {
    let n = ord.len();
    &&& n >= 1
    &&& ord[0] == 0
    &&& nodes.len() >= 1
    &&& nodes[0].value is None
    &&& nodes[0].key == 0
    &&& forall|p: int| 0 <= p < n ==> #[trigger] ord[p] < nodes.len()
    &&& forall|p: int| 0 <= p < n ==> entry_ok(#[trigger] nodes[ord[p] as int])
    &&& forall|p: int| 0 <= p < n - 1 ==> #[trigger] nodes[ord[p] as int].next == Some(ord[p + 1])
    &&& nodes[ord[n - 1] as int].next is None
    &&& forall|p: int, q: int|
        0 <= p < q < n ==> #[trigger] key_of(nodes, ord, p) < #[trigger] key_of(nodes, ord, q)
}

/// What is left of `p` after halving it while it exceeds `index`.
pub open spec fn halve_until(p: int, index: int) -> int
    decreases p,
{
    if p > index && p > 0 {
        halve_until(p / 2, index)
    } else {
        p
    }
}

/// The bucket whose split produced bucket `index` when there are `size` buckets.
pub open spec fn parent_of(index: int, size: int) -> int {
    index - halve_until(size, index)
}

/// Map from `usize` keys in range [0, 2^63-1] to `V`.
///
/// All entries live in one list sorted by split-order key: the sentinel of
/// each bucket comes right before the entries of that bucket. The segment tree
/// `buckets` holds, for each bucket that has been used, its sentinel. When the
/// number of buckets doubles, no entry moves: the new buckets get sentinels
/// inside the runs of the buckets they split.
pub struct SplitOrderedList<V> {
    nodes: Vec<Entry<V>>,
    free: Vec<usize>,
    buckets: GrowableArray<usize>,
    size: usize,
    count: usize,
    order: Ghost<Seq<usize>>,
    map: Ghost<Map<usize, V>>,
    log_size: Ghost<nat>,
}

impl<V> Default for SplitOrderedList<V> {
    fn default() -> (r: Self)
        ensures
            r.wf(),
            r@ == Map::<usize, V>::empty(),
            r.spec_size() == 2,
    {
        Self::new()
    }
}

impl<V> View for SplitOrderedList<V> {
    type V = Map<usize, V>;

    closed spec fn view(&self) -> Map<usize, V> {
        self.map@
    }
}

spec fn entry_ok<V>(e: Entry<V>) -> bool {
    &&& e.key < TOP_BIT
    &&& match e.value {
        Some(_) => e.so_key == regular_key(e.key as int),
        None => e.so_key == sentinel_key(e.key as int),
    }
}

/// Halving a power of two above `index >= 1` stops at the highest power of
/// two not above `index`.
pub proof fn lemma_halve_until(index: int, s: nat) -> (j: nat)
    requires
        1 <= index < pow2(s),
    ensures
        halve_until(pow2(s) as int, index) == pow2(j),
        pow2(j) <= index < pow2(j + 1),
        j < s,
    decreases s,
{
    lemma_pow2_pos(s);
    if s == 0 {
        assert(pow2(0) == 1) by {
            lemma2_to64();
            lemma2_to64_rest();
        }
        0
    } else {
        let q = (s - 1) as nat;
        lemma_pow2_unfold(s);
        assert(pow2(s) as int / 2 == pow2(q));
        assert(halve_until(pow2(s) as int, index) == halve_until(pow2(q) as int, index));
        if pow2(q) <= index {
            assert(halve_until(pow2(q) as int, index) == pow2(q));
            q
        } else {
            lemma_halve_until(index, q)
        }
    }
}

/// Sentinels come before the entries of their bucket: the parent's sentinel
/// before the child's, and the bucket's sentinel before each key it holds.
proof fn lemma_split_order(index: int, s: nat)
    requires
        1 <= index < pow2(s),
        s <= 63,
    ensures
        0 <= parent_of(index, pow2(s) as int) < index,
        sentinel_key(parent_of(index, pow2(s) as int)) < sentinel_key(index),
{
    let j = lemma_halve_until(index, s);
    let p = parent_of(index, pow2(s) as int);
    lemma_pow2_unfold(j + 1);
    lemma_pow2_pos(j);
    assert(p == index - pow2(j));
    lemma_mod_multiples_vanish(1, p, pow2(j) as int);
    lemma_mod_twice(index, pow2(j) as int);
    lemma2_to64();
    lemma2_to64_rest();
    lemma_pow2_at_most_top(s);
    lemma_reverse_low_bits_le(p, index, j, 64);
    if sentinel_key(p) == sentinel_key(index) {
        lemma_reverse_injective(p, index, 64);
    }
}

/// The bucket whose split produced bucket `index`: `index` with its highest
/// set bit cleared. It is the same for every power-of-two bucket count above
/// `index`.
pub open spec fn bucket_parent(index: int) -> int {
    parent_of(index, TOP_BIT as int)
}

proof fn lemma_bucket_parent(index: int, s: nat)
    requires
        1 <= index < pow2(s),
        s <= 63,
    ensures
        parent_of(index, pow2(s) as int) == bucket_parent(index),
        0 <= bucket_parent(index) < index,
{
    lemma2_to64();
    lemma2_to64_rest();
    lemma_pow2_at_most_top(s);
    let j1 = lemma_halve_until(index, s);
    let j2 = lemma_halve_until(index, 63);
    lemma_pow2_pos(j1);
    if j1 < j2 {
        if j1 + 1 < j2 {
            lemma_pow2_strictly_increases(j1 + 1, j2);
        }
    } else if j2 < j1 {
        if j2 + 1 < j1 {
            lemma_pow2_strictly_increases(j2 + 1, j1);
        }
    }
    assert(j1 == j2);
}

/// Every bucket other than 0 whose slot holds a sentinel has a parent whose
/// slot holds one too.
spec fn parents_set(buckets: GrowableArray<usize>) -> bool {
    forall|b: int|
        1 <= b && (#[trigger] buckets.value(b)) is Some ==> buckets.value(bucket_parent(b)) is Some
}

proof fn lemma_pow2_at_most_top(s: nat)
    requires
        s <= 63,
    ensures
        pow2(s) <= pow2(63),
{
    lemma_pow2_adds(s, (63 - s) as nat);
    lemma_pow2_pos((63 - s) as nat);
    assert(pow2(s) * pow2((63 - s) as nat) >= pow2(s)) by (nonlinear_arith)
        requires
            pow2((63 - s) as nat) >= 1,
    ;
}

/// The sentinel of the bucket of `key` comes before the entry of `key`.
proof fn lemma_bucket_before_key(key: int, s: nat)
    requires
        0 <= key < TOP_BIT,
        1 <= s <= 63,
    ensures
        sentinel_key(key % (pow2(s) as int)) < regular_key(key),
        0 <= key % (pow2(s) as int) < pow2(s),
{
    let m = pow2(s) as int;
    lemma_pow2_pos(s);
    let b = key % m;
    lemma2_to64();
    lemma2_to64_rest();
    lemma_pow2_adds(s, (63 - s) as nat);
    assert(s + (63 - s) as nat == 63);
    assert(pow2(63) == TOP_BIT);
    assert(TOP_BIT == m * pow2((63 - s) as nat));
    lemma_mod_multiples_vanish(pow2((63 - s) as nat) as int, key, m);
    lemma_mod_twice(key, m);
    lemma_reverse_low_bits_le(b, key + TOP_BIT, s, 64);
    if sentinel_key(b) == regular_key(key) {
        lemma_reverse_injective(b, key + TOP_BIT, 64);
    }
}

/// A sentinel and a regular entry never share a place in split order, nor do
/// two sentinels or two regular entries with different keys.
proof fn lemma_keys_distinct(a: int, b: int)
    requires
        0 <= a < TOP_BIT,
        0 <= b < TOP_BIT,
    ensures
        sentinel_key(a) != regular_key(b),
        sentinel_key(a) == sentinel_key(b) ==> a == b,
        regular_key(a) == regular_key(b) ==> a == b,
        0 <= sentinel_key(a) < pow2(64),
        0 <= regular_key(a) < pow2(64),
{
    lemma2_to64();
    lemma2_to64_rest();
    lemma_reverse_bounds(a, 64);
    lemma_reverse_bounds(a + TOP_BIT, 64);
    if sentinel_key(a) == regular_key(b) {
        lemma_reverse_injective(a, b + TOP_BIT, 64);
    }
    if sentinel_key(a) == sentinel_key(b) {
        lemma_reverse_injective(a, b, 64);
    }
    if regular_key(a) == regular_key(b) {
        lemma_reverse_injective(a + TOP_BIT, b + TOP_BIT, 64);
    }
}

impl<V> SplitOrderedList<V> {
    spec fn key_at(&self, p: int) -> int {
        key_of(self.nodes@, self.order@, p)
    }

    spec fn list_wf(&self) -> bool {
        list_ok(self.nodes@, self.order@) && free_ok(self.nodes@.len(), self.order@, self.free@)
    }

    spec fn in_list(&self, id: usize) -> bool {
        in_order(self.order@, id)
    }

    spec fn map_wf(&self) -> bool {
        let ord = self.order@;
        &&& self.map@.dom().finite()
        &&& forall|p: int|
            0 <= p < ord.len() && (#[trigger] self.nodes@[ord[p] as int]).value is Some ==> {
                let e = self.nodes@[ord[p] as int];
                self.map@.contains_key(e.key) && self.map@[e.key] == e.value->Some_0
            }
        &&& forall|k: usize| #[trigger]
            self.map@.contains_key(k) ==> exists|p: int|
                0 <= p < ord.len() && (#[trigger] self.nodes@[ord[p] as int]).value is Some
                    && self.nodes@[ord[p] as int].key == k
        &&& self.count == self.map@.len()
        &&& self.count + self.free@.len() < self.nodes@.len()
    }

    spec fn buckets_wf(&self) -> bool {
        &&& self.buckets.wf()
        &&& forall|b: int|
            0 <= b ==> match #[trigger] self.buckets.value(b) {
                Some(id) => {
                    &&& id < self.nodes@.len()
                    &&& self.in_list(id)
                    &&& self.nodes@[id as int].value is None
                    &&& self.nodes@[id as int].key == b
                },
                None => true,
            }
        &&& parents_set(self.buckets)
    }

    /// Whether the slots of bucket `index` and of every bucket it was split
    /// from hold their sentinels.
    pub closed spec fn resolved(&self, index: int) -> bool
        decreases index,
    {
        &&& 0 <= index
        &&& self.buckets.value(index) is Some
        &&& (index == 0 || (0 <= bucket_parent(index) < index && self.resolved(bucket_parent(index))))
    }

    /// Whether the list holds the sentinel of bucket `b`.
    pub closed spec fn has_sentinel(&self, b: int) -> bool {
        exists|id: usize|
            #[trigger] self.in_list(id) && self.nodes@[id as int].value is None && self.nodes@[id as int].key
                == b
    }

    /// Every entry of this list is still in the list of `new`, with the same
    /// key and value.
    spec fn keeps_entries(&self, new: Self) -> bool {
        forall|x: usize| #[trigger]
            self.in_list(x) ==> new.in_list(x) && new.nodes@[x as int].key == self.nodes@[x as int].key
                && new.nodes@[x as int].value == self.nodes@[x as int].value
    }

    /// Every bucket slot that held a sentinel still holds it in `new`.
    spec fn keeps_buckets(&self, new: Self) -> bool {
        forall|b: int|
            0 <= b && (#[trigger] self.buckets.value(b)) is Some ==> new.buckets.value(b) == self.buckets.value(b)
    }

    /// In a well-formed map every bucket whose slot is set is resolved, back to bucket 0.
    proof fn lemma_resolved(&self, index: int)
        requires
            self.wf(),
            0 <= index,
            self.buckets.value(index) is Some,
        ensures
            self.resolved(index),
        decreases index,
    {
        if index > 0 {
            let id = self.buckets.value(index)->Some_0;
            assert(self.in_list(id));
            let p = choose|p: int| 0 <= p < self.order@.len() && #[trigger] self.order@[p] == id;
            assert(entry_ok(self.nodes@[self.order@[p] as int]));
            lemma2_to64_rest();
            lemma_bucket_parent(index, 63);
            self.lemma_resolved(bucket_parent(index));
        }
    }

    /// Two entries of the list with the same split-order key are one entry.
    proof fn lemma_unique_key(&self, x: usize, y: usize)
        requires
            self.list_wf(),
            self.in_list(x),
            self.in_list(y),
            self.nodes@[x as int].so_key == self.nodes@[y as int].so_key,
        ensures
            x == y,
    {
        let p = choose|p: int| 0 <= p < self.order@.len() && #[trigger] self.order@[p] == x;
        let q = choose|q: int| 0 <= q < self.order@.len() && #[trigger] self.order@[q] == y;
        if p < q {
            assert(self.key_at(p) < self.key_at(q));
        } else if q < p {
            assert(self.key_at(q) < self.key_at(p));
        }
    }

    proof fn lemma_sentinels_kept(a: Self, b: Self)
        requires
            a.keeps_entries(b),
        ensures
            forall|k: int| a.has_sentinel(k) ==> #[trigger] b.has_sentinel(k),
    {
        assert forall|k: int| a.has_sentinel(k) implies #[trigger] b.has_sentinel(k) by {
            let id = choose|id: usize|
                #[trigger] a.in_list(id) && a.nodes@[id as int].value is None && a.nodes@[id as int].key == k;
            assert(b.in_list(id));
        }
    }

    proof fn lemma_same_list(a: Self, b: Self)
        requires
            a.order == b.order,
            a.nodes == b.nodes,
        ensures
            a.keeps_entries(b),
    {
    }

    /// Splicing an entry that was out of the list in keeps every entry.
    proof fn lemma_link_keeps(a: Self, b: Self, id: usize)
        requires
            a.list_wf(),
            !a.in_list(id),
            forall|x: usize| a.in_list(x) ==> #[trigger] b.in_list(x),
            forall|i: int|
                0 <= i < a.nodes@.len() && i != id ==> {
                    &&& (#[trigger] b.nodes@[i]).so_key == a.nodes@[i].so_key
                    &&& b.nodes@[i].key == a.nodes@[i].key
                    &&& b.nodes@[i].value == a.nodes@[i].value
                },
        ensures
            a.keeps_entries(b),
    {
        assert forall|x: usize| #[trigger] a.in_list(x) implies b.in_list(x) && b.nodes@[x as int].key
            == a.nodes@[x as int].key && b.nodes@[x as int].value == a.nodes@[x as int].value by {
            assert(x != id);
            assert(b.nodes@[x as int].key == a.nodes@[x as int].key);
        }
    }

    proof fn lemma_keeps_refl(a: Self)
        ensures
            a.keeps_entries(a),
            a.keeps_buckets(a),
    {
    }

    proof fn lemma_keeps_trans(a: Self, b: Self, c: Self)
        requires
            a.keeps_entries(b),
            b.keeps_entries(c),
            a.keeps_buckets(b),
            b.keeps_buckets(c),
        ensures
            a.keeps_entries(c),
            a.keeps_buckets(c),
    {
        assert forall|x: usize| #[trigger] a.in_list(x) implies c.in_list(x) && c.nodes@[x as int].key
            == a.nodes@[x as int].key && c.nodes@[x as int].value == a.nodes@[x as int].value by {
            assert(b.in_list(x));
        }
        assert forall|k: int| 0 <= k && (#[trigger] a.buckets.value(k)) is Some implies c.buckets.value(k)
            == a.buckets.value(k) by {
            assert(b.buckets.value(k) == a.buckets.value(k));
        }
    }

    /// The number of buckets.
    pub closed spec fn spec_size(&self) -> int {
        self.size as int
    }

    /// The number of entries.
    pub closed spec fn spec_count(&self) -> int {
        self.count as int
    }

    /// The number of buckets is `2^spec_log_size()`.
    pub closed spec fn spec_log_size(&self) -> nat {
        self.log_size@
    }

    pub closed spec fn wf(&self) -> bool {
        &&& self.list_wf()
        &&& self.map_wf()
        &&& self.buckets_wf()
        &&& self.size == pow2(self.log_size@)
        &&& 1 <= self.log_size@ <= 63
        &&& self.count <= self.size * LOAD_FACTOR
    }

    /// Creates a new split ordered list.
    pub fn new() -> (r: Self)
        ensures
            r.wf(),
            r@ == Map::<usize, V>::empty(),
            r.spec_size() == 2,
            r.spec_count() == 0,
    {
        let mut nodes: Vec<Entry<V>> = Vec::new();
        nodes.push(Entry { so_key: 0, key: 0, value: None, next: None });
        let ghost first = seq![0usize];
        let r = SplitOrderedList {
            nodes,
            free: Vec::new(),
            buckets: GrowableArray::new(),
            size: 2,
            count: 0,
            order: Ghost(first),
            map: Ghost(Map::empty()),
            log_size: Ghost(1),
        };
        proof {
            lemma2_to64();
            lemma_reverse_zero(64);
            assert(r.key_at(0) == 0);
        }
        r
    }

    /// Returns the number of buckets.
    pub fn size(&self) -> (r: usize)
        requires
            self.wf(),
        ensures
            r == self.spec_size(),
    {
        self.size
    }

    /// Returns the number of entries.
    pub fn count(&self) -> (r: usize)
        requires
            self.wf(),
        ensures
            r == self.spec_count(),
            r == self@.len(),
    {
        self.count
    }

    /// The bucket whose split produced bucket `index` when there are `size`
    /// buckets: `index` with its highest bit cleared, where `index < size` and
    /// `size` is a power of two.
    fn get_parent(index: usize, size: usize) -> (r: usize)
        ensures
            r == parent_of(index as int, size as int),
    {
        let mut parent = size;
        while parent > index
            invariant
                halve_until(parent as int, index as int) == halve_until(size as int, index as int),
            decreases parent,
        {
            parent = parent / 2;
        }
        index - parent
    }

    /// Moves from the entry at position `ps` of the list to the last entry
    /// whose key is below `t`.
    fn seek(&self, start: usize, t: u64, ps: Ghost<int>) -> (r: (usize, Ghost<int>))
        requires
            self.list_wf(),
            0 <= ps@ < self.order@.len(),
            self.order@[ps@] == start,
            self.key_at(ps@) < t,
        ensures
            0 <= r.1@ < self.order@.len(),
            self.order@[r.1@] == r.0,
            ps@ <= r.1@,
            self.key_at(r.1@) < t,
            r.1@ + 1 == self.order@.len() || self.key_at(r.1@ + 1) >= t,
    {
        let mut prev = start;
        let ghost mut p = ps@;
        loop
            invariant
                self.list_wf(),
                0 <= ps@ <= p < self.order@.len(),
                self.order@[p] == prev,
                self.key_at(p) < t,
            ensures
                0 <= p < self.order@.len(),
                self.order@[p] == prev,
                ps@ <= p,
                self.key_at(p) < t,
                p + 1 == self.order@.len() || self.key_at(p + 1) >= t,
            decreases self.order@.len() - p,
        {
            assert(prev < self.nodes@.len());
            match self.nodes[prev].next {
                None => {
                    proof {
                        if p + 1 < self.order@.len() {
                            assert(self.nodes@[self.order@[p] as int].next == Some(self.order@[p + 1]));
                        }
                    }
                    break;
                },
                Some(n) => {
                    assert(p + 1 < self.order@.len());
                    assert(self.order@[p + 1] == n);
                    if self.nodes[n].so_key < t {
                        prev = n;
                        proof {
                            p = p + 1;
                        }
                    } else {
                        break;
                    }
                },
            }
        }
        (prev, Ghost(p))
    }

    /// Stores `e` in a free place of the arena, or in a new one. The list is
    /// left as it was.
    fn alloc_entry(&mut self, e: Entry<V>) -> (id: usize)
        requires
            old(self).list_wf(),
        ensures
            !old(self).in_list(id),
            id < final(self).nodes@.len(),
            final(self).nodes@[id as int] == e,
            final(self).nodes@.len() >= old(self).nodes@.len(),
            forall|i: int|
                0 <= i < old(self).nodes@.len() && i != id ==> #[trigger] final(self).nodes@[i]
                    == old(self).nodes@[i],
            final(self).nodes@.len() - final(self).free@.len() == old(self).nodes@.len() - old(self).free@.len()
                + 1,
            forall|i: int|
                0 <= i < final(self).free@.len() ==> #[trigger] final(self).free@[i] < final(self).nodes@.len()
                    && final(self).free@[i] != id && !in_order(old(self).order@, final(self).free@[i]),
            forall|i: int, j: int|
                0 <= i < j < final(self).free@.len() ==> #[trigger] final(self).free@[i]
                    != #[trigger] final(self).free@[j],
            list_ok(final(self).nodes@, old(self).order@),
            final(self).order == old(self).order,
            final(self).buckets == old(self).buckets,
            final(self).size == old(self).size,
            final(self).count == old(self).count,
            final(self).map == old(self).map,
            final(self).log_size == old(self).log_size,
    {
        let ghost before = *self;
        match self.free.pop() {
            Some(id) => {
                proof {
                    let k = before.free@.len() - 1;
                    assert(before.free@[k] == id);
                    assert forall|i: int| 0 <= i < self.free@.len() implies #[trigger] self.free@[i] != id by {
                        assert(self.free@[i] == before.free@[i]);
                        assert(before.free@[i] != before.free@[k]);
                    }
                    assert forall|i: int| 0 <= i < self.free@.len() implies !in_order(before.order@, #[trigger] self.free@[i]) by {
                        assert(self.free@[i] == before.free@[i]);
                    }
                    assert forall|i: int, j: int| 0 <= i < j < self.free@.len() implies #[trigger] self.free@[i]
                        != #[trigger] self.free@[j] by {
                        assert(self.free@[i] == before.free@[i]);
                        assert(self.free@[j] == before.free@[j]);
                    }
                    assert(id != 0) by {
                        assert(before.order@[0] == 0);
                    }
                }
                self.nodes.set(id, e);
                proof {
                    let ord = before.order@;
                    assert forall|q: int| 0 <= q < ord.len() implies #[trigger] ord[q] != id by {}
                    assert(key_of(self.nodes@, ord, 0) == key_of(before.nodes@, ord, 0));
                    assert forall|a: int, b: int| 0 <= a < b < ord.len() implies #[trigger] key_of(self.nodes@, ord, a)
                        < #[trigger] key_of(self.nodes@, ord, b) by {
                        assert(key_of(self.nodes@, ord, a) == key_of(before.nodes@, ord, a));
                        assert(key_of(self.nodes@, ord, b) == key_of(before.nodes@, ord, b));
                    }
                }
                id
            },
            None => {
                let id = self.nodes.len();
                self.nodes.push(e);
                proof {
                    let ord = before.order@;
                    assert forall|a: int, b: int| 0 <= a < b < ord.len() implies #[trigger] key_of(self.nodes@, ord, a)
                        < #[trigger] key_of(self.nodes@, ord, b) by {
                        assert(key_of(self.nodes@, ord, a) == key_of(before.nodes@, ord, a));
                        assert(key_of(self.nodes@, ord, b) == key_of(before.nodes@, ord, b));
                    }
                }
                id
            },
        }
    }

    /// Splices a new entry in after the entry at position `p`.
    #[verifier::rlimit(40)]
    fn link_after(&mut self, prev: usize, p: Ghost<int>, so_key: u64, key: usize, value: Option<V>) -> (id: usize)
        requires
            old(self).list_wf(),
            0 <= p@ < old(self).order@.len(),
            old(self).order@[p@] == prev,
            old(self).key_at(p@) < so_key,
            p@ + 1 == old(self).order@.len() || old(self).key_at(p@ + 1) > so_key,
            entry_ok(Entry { so_key, key, value, next: None }),
        ensures
            final(self).list_wf(),
            !old(self).in_list(id),
            id < final(self).nodes@.len(),
            final(self).nodes@.len() >= old(self).nodes@.len(),
            final(self).order@ == old(self).order@.insert(p@ + 1, id),
            final(self).nodes@.len() - final(self).free@.len() == old(self).nodes@.len() - old(self).free@.len()
                + 1,
            forall|i: int|
                0 <= i < old(self).nodes@.len() && i != id ==> {
                    &&& (#[trigger] final(self).nodes@[i]).so_key == old(self).nodes@[i].so_key
                    &&& final(self).nodes@[i].key == old(self).nodes@[i].key
                    &&& final(self).nodes@[i].value == old(self).nodes@[i].value
                },
            final(self).nodes@[id as int].so_key == so_key,
            final(self).nodes@[id as int].key == key,
            final(self).nodes@[id as int].value == value,
            forall|x: usize| old(self).in_list(x) ==> #[trigger] final(self).in_list(x),
            final(self).buckets == old(self).buckets,
            final(self).size == old(self).size,
            final(self).count == old(self).count,
            final(self).map == old(self).map,
            final(self).log_size == old(self).log_size,
    {
        let ghost ord = self.order@;
        let ghost before = *self;
        assert(prev < self.nodes@.len());
        let next = self.nodes[prev].next;
        let id = self.alloc_entry(Entry { so_key, key, value, next });
        let ghost mid = *self;
        assert(id != prev);
        self.nodes[prev].next = Some(id);
        self.order = Ghost(ord.insert(p@ + 1, id));
        proof {
            let n = ord.len();
            let nord = self.order@;
            assert forall|i: int| 0 <= i < self.free@.len() implies !in_order(nord, #[trigger] self.free@[i]) by {
                let f = self.free@[i];
                assert(f != id);
                assert(!in_order(ord, f));
                if in_order(nord, f) {
                    let q = choose|q: int| 0 <= q < nord.len() && #[trigger] nord[q] == f;
                    if q < p@ + 1 {
                        assert(ord[q] == f);
                    } else if q > p@ + 1 {
                        assert(ord[q - 1] == f);
                    }
                }
            }
            assert forall|i: int, j: int| 0 <= i < j < self.free@.len() implies #[trigger] self.free@[i]
                != #[trigger] self.free@[j] by {
                assert(mid.free@[i] != mid.free@[j]);
            }
            let nord = self.order@;
            assert forall|q: int| 0 <= q < n && q != p@ implies ord[q] != prev by {
                if q < p@ {
                    assert(before.key_at(q) < before.key_at(p@));
                } else {
                    assert(before.key_at(p@) < before.key_at(q));
                }
            }
            assert forall|q: int| 0 <= q < nord.len() implies #[trigger] nord[q] < self.nodes@.len() by {
                if q > p@ + 1 {
                    assert(nord[q] == ord[q - 1]);
                }
            }
            assert forall|q: int| 0 <= q < nord.len() implies entry_ok(#[trigger] self.nodes@[nord[q] as int]) by {
                if q > p@ + 1 {
                    assert(nord[q] == ord[q - 1]);
                    assert(entry_ok(before.nodes@[ord[q - 1] as int]));
                } else if q < p@ + 1 {
                    assert(entry_ok(before.nodes@[ord[q] as int]));
                }
            }
            assert forall|q: int| 0 <= q < nord.len() - 1 implies #[trigger] self.nodes@[nord[q] as int].next
                == Some(nord[q + 1]) by {
                if q > p@ + 1 {
                    assert(nord[q] == ord[q - 1]);
                    assert(before.nodes@[ord[q - 1] as int].next == Some(ord[q]));
                } else if q == p@ + 1 {
                    if p@ + 1 < n {
                        assert(before.nodes@[ord[p@] as int].next == Some(ord[p@ + 1]));
                    }
                } else if q < p@ {
                    assert(before.nodes@[ord[q] as int].next == Some(ord[q + 1]));
                }
            }
            if p@ + 1 == n {
                assert(self.nodes@[nord[nord.len() - 1] as int].next is None);
            } else {
                assert(nord[nord.len() - 1] == ord[n - 1]);
                assert(ord[n - 1] != prev);
            }
            assert forall|a: int, b: int| 0 <= a < b < nord.len() implies #[trigger] key_of(self.nodes@, self.order@, a)
                < #[trigger] key_of(self.nodes@, self.order@, b) by {
                let ka = if a < p@ + 1 { before.key_at(a) } else if a == p@ + 1 { so_key as int } else { before.key_at(a - 1) };
                let kb = if b < p@ + 1 { before.key_at(b) } else if b == p@ + 1 { so_key as int } else { before.key_at(b - 1) };
                assert(self.key_at(a) == ka);
                assert(self.key_at(b) == kb);
                if a < p@ + 1 && b > p@ + 1 {
                    assert(before.key_at(a) <= before.key_at(p@));
                    assert(before.key_at(p@) < before.key_at(b - 1)) by {
                        if b - 1 > p@ {
                            assert(before.key_at(p@) < before.key_at(b - 1));
                        }
                    }
                }
                if a < p@ + 1 && b == p@ + 1 {
                    if a < p@ {
                        assert(before.key_at(a) < before.key_at(p@));
                    }
                }
                if a == p@ + 1 {
                    if b - 1 > p@ + 1 {
                        assert(before.key_at(p@ + 1) < before.key_at(b - 1));
                    }
                }
            }
            assert forall|x: usize| before.in_list(x) implies #[trigger] self.in_list(x) by {
                let q = choose|q: int| 0 <= q < n && #[trigger] ord[q] == x;
                if q < p@ + 1 {
                    assert(nord[q] == x);
                } else {
                    assert(nord[q + 1] == x);
                }
            }
        }
        id
    }

    /// Takes the entry after position `p` out of the list and hands back its value.
    #[verifier::rlimit(40)]
    fn unlink_after(&mut self, prev: usize, p: Ghost<int>) -> (v: Option<V>)
        requires
            old(self).list_wf(),
            0 <= p@ < old(self).order@.len() - 1,
            old(self).order@[p@] == prev,
        ensures
            final(self).list_wf(),
            final(self).order@ == old(self).order@.remove(p@ + 1),
            final(self).nodes@.len() == old(self).nodes@.len(),
            final(self).free@.len() == old(self).free@.len() + 1,
            v == old(self).nodes@[old(self).order@[p@ + 1] as int].value,
            forall|i: int|
                0 <= i < old(self).nodes@.len() && i != old(self).order@[p@ + 1] ==> {
                    &&& (#[trigger] final(self).nodes@[i]).so_key == old(self).nodes@[i].so_key
                    &&& final(self).nodes@[i].key == old(self).nodes@[i].key
                    &&& final(self).nodes@[i].value == old(self).nodes@[i].value
                },
            forall|x: usize|
                old(self).in_list(x) && x != old(self).order@[p@ + 1] ==> #[trigger] final(self).in_list(x),
            final(self).buckets == old(self).buckets,
            final(self).size == old(self).size,
            final(self).count == old(self).count,
            final(self).map == old(self).map,
            final(self).log_size == old(self).log_size,
    {
        let ghost ord = self.order@;
        let ghost before = *self;
        let ghost n = ord.len();
        assert(prev < self.nodes@.len());
        assert(self.nodes@[ord[p@] as int].next == Some(ord[p@ + 1]));
        let cur = match self.nodes[prev].next {
            Some(c) => c,
            None => prev,
        };
        assert(cur == ord[p@ + 1]);
        assert(cur < self.nodes@.len());
        let nx = self.nodes[cur].next;
        let v = self.nodes[cur].value.take();
        self.nodes[prev].next = nx;
        self.order = Ghost(ord.remove(p@ + 1));
        self.free.push(cur);
        proof {
            let nord = self.order@;
            assert forall|q: int| 0 <= q < n && q != p@ implies ord[q] != prev by {
                if q < p@ {
                    assert(before.key_at(q) < before.key_at(p@));
                } else {
                    assert(before.key_at(p@) < before.key_at(q));
                }
            }
            assert forall|q: int| 0 <= q < n && q != p@ + 1 implies ord[q] != cur by {
                if q < p@ + 1 {
                    assert(before.key_at(q) < before.key_at(p@ + 1));
                } else {
                    assert(before.key_at(p@ + 1) < before.key_at(q));
                }
            }
            assert forall|q: int| 0 <= q < nord.len() implies #[trigger] nord[q] < self.nodes@.len() by {
                if q > p@ {
                    assert(nord[q] == ord[q + 1]);
                }
            }
            assert forall|q: int| 0 <= q < nord.len() implies entry_ok(#[trigger] self.nodes@[nord[q] as int]) by {
                if q > p@ {
                    assert(nord[q] == ord[q + 1]);
                    assert(entry_ok(before.nodes@[ord[q + 1] as int]));
                } else {
                    assert(entry_ok(before.nodes@[ord[q] as int]));
                }
            }
            assert forall|q: int| 0 <= q < nord.len() - 1 implies #[trigger] self.nodes@[nord[q] as int].next
                == Some(nord[q + 1]) by {
                if q > p@ {
                    assert(nord[q] == ord[q + 1]);
                    assert(before.nodes@[ord[q + 1] as int].next == Some(ord[q + 2]));
                } else if q == p@ {
                    assert(before.nodes@[ord[p@ + 1] as int].next == Some(ord[p@ + 2]));
                } else {
                    assert(before.nodes@[ord[q] as int].next == Some(ord[q + 1]));
                }
            }
            if p@ + 2 == n {
                assert(self.nodes@[nord[nord.len() - 1] as int].next is None);
            } else {
                assert(nord[nord.len() - 1] == ord[n - 1]);
            }
            assert forall|a: int, b: int| 0 <= a < b < nord.len() implies #[trigger] key_of(self.nodes@, self.order@, a)
                < #[trigger] key_of(self.nodes@, self.order@, b) by {
                let a0 = if a <= p@ { a } else { a + 1 };
                let b0 = if b <= p@ { b } else { b + 1 };
                assert(self.key_at(a) == before.key_at(a0));
                assert(self.key_at(b) == before.key_at(b0));
                assert(before.key_at(a0) < before.key_at(b0));
            }
            assert forall|x: usize| before.in_list(x) && x != cur implies #[trigger] self.in_list(x) by {
                let q = choose|q: int| 0 <= q < n && #[trigger] ord[q] == x;
                if q < p@ + 1 {
                    assert(nord[q] == x);
                } else {
                    assert(nord[q - 1] == x);
                }
            }
        }
        v
    }

    /// Puts a new sentinel of bucket `index` in after the entry at position
    /// `pp`, where the search for its key stopped.
    #[verifier::rlimit(40)]
    fn insert_sentinel(&mut self, prev: usize, pp: Ghost<int>, t: u64, index: usize) -> (id: usize)
        requires
            old(self).wf(),
            index < TOP_BIT,
            t == sentinel_key(index as int),
            0 <= pp@ < old(self).order@.len(),
            old(self).order@[pp@] == prev,
            old(self).key_at(pp@) < t,
            pp@ + 1 == old(self).order@.len() || old(self).key_at(pp@ + 1) > t,
        ensures
            final(self).wf(),
            final(self)@ == old(self)@,
            final(self).size == old(self).size,
            final(self).count == old(self).count,
            final(self).log_size == old(self).log_size,
            final(self).buckets == old(self).buckets,
            old(self).keeps_entries(*final(self)),
            old(self).keeps_buckets(*final(self)),
            final(self).order@[pp@ + 1] == id,
            pp@ + 1 < final(self).order@.len(),
            final(self).nodes@[id as int].so_key == t,
    {
        let ghost before = *self;
        let id = self.link_after(prev, pp, t, index, None);
        proof {
            let ord = before.order@;
            let nord = self.order@;
            assert forall|q: int|
                0 <= q < nord.len() && (#[trigger] self.nodes@[nord[q] as int]).value is Some implies {
                    let e = self.nodes@[nord[q] as int];
                    self.map@.contains_key(e.key) && self.map@[e.key] == e.value->Some_0
                } by {
                if q < pp@ + 1 {
                    assert(nord[q] == ord[q]);
                    assert(before.nodes@[ord[q] as int].value is Some);
                } else if q > pp@ + 1 {
                    assert(nord[q] == ord[q - 1]);
                    assert(before.nodes@[ord[q - 1] as int].value is Some);
                }
            }
            assert forall|k: usize| #[trigger] self.map@.contains_key(k) implies exists|q: int|
                0 <= q < nord.len() && (#[trigger] self.nodes@[nord[q] as int]).value is Some
                    && self.nodes@[nord[q] as int].key == k by {
                let q = choose|q: int|
                    0 <= q < ord.len() && (#[trigger] before.nodes@[ord[q] as int]).value is Some
                        && before.nodes@[ord[q] as int].key == k;
                if q < pp@ + 1 {
                    assert(nord[q] == ord[q]);
                    assert(self.nodes@[nord[q] as int].value is Some);
                } else {
                    assert(nord[q + 1] == ord[q]);
                    assert(self.nodes@[nord[q + 1] as int].value is Some);
                }
            }
            assert forall|b: int| 0 <= b implies match #[trigger] self.buckets.value(b) {
                Some(x) => {
                    &&& x < self.nodes@.len()
                    &&& self.in_list(x)
                    &&& self.nodes@[x as int].value is None
                    &&& self.nodes@[x as int].key == b
                },
                None => true,
            } by {
                if let Some(x) = self.buckets.value(b) {
                    assert(before.buckets.value(b) == Some(x));
                    assert(before.in_list(x));
                    assert(x != id);
                }
            }
            assert forall|x: usize| #[trigger] before.in_list(x) implies self.in_list(x)
                && self.nodes@[x as int].key == before.nodes@[x as int].key && self.nodes@[x as int].value
                == before.nodes@[x as int].value by {
                assert(x != id);
            }
        }
        id
    }

    /// Stores sentinel `id` in the slot of bucket `index`.
    #[verifier::rlimit(40)]
    fn publish_bucket(&mut self, index: usize, id: usize)
        requires
            old(self).wf(),
            index < TOP_BIT,
            old(self).in_list(id),
            old(self).nodes@[id as int].value is None,
            old(self).nodes@[id as int].key == index,
            index > 0 ==> old(self).buckets.value(bucket_parent(index as int)) is Some,
        ensures
            final(self).wf(),
            final(self)@ == old(self)@,
            final(self).size == old(self).size,
            final(self).count == old(self).count,
            final(self).log_size == old(self).log_size,
            final(self).order == old(self).order,
            final(self).nodes == old(self).nodes,
            final(self).buckets.value(index as int) == Some(id),
            old(self).keeps_entries(*final(self)),
            old(self).keeps_buckets(*final(self)),
    {
        let ghost start = *self;
        let slot = self.buckets.get(index);
        let ghost before = *self;
        self.buckets.store(slot, id);
        proof {
            assert(self.buckets.value(index as int) == Some(id));
            assert forall|b: int| 0 <= b implies #[trigger] self.buckets.value(b) == if b == index {
                Some(id)
            } else {
                start.buckets.value(b)
            } by {
                if before.buckets.has_slot(b) && before.buckets.slot_of(b) == slot {
                    before.buckets.lemma_slot_of(b, index as int);
                }
                assert(before.buckets.value(b) == start.buckets.value(b));
            }
            assert forall|b: int| 0 <= b implies match #[trigger] self.buckets.value(b) {
                Some(x) => {
                    &&& x < self.nodes@.len()
                    &&& self.in_list(x)
                    &&& self.nodes@[x as int].value is None
                    &&& self.nodes@[x as int].key == b
                },
                None => true,
            } by {
                assert(start.buckets_wf());
            }
            lemma2_to64_rest();
            assert forall|b: int| 1 <= b && (#[trigger] self.buckets.value(b)) is Some implies self.buckets.value(
                bucket_parent(b),
            ) is Some by {
                let x = self.buckets.value(b)->Some_0;
                assert(self.in_list(x));
                let q = choose|q: int| 0 <= q < self.order@.len() && #[trigger] self.order@[q] == x;
                assert(entry_ok(self.nodes@[self.order@[q] as int]));
                lemma_bucket_parent(b, 63);
                assert(self.buckets.value(bucket_parent(b)) == if bucket_parent(b) == index {
                    Some(id)
                } else {
                    start.buckets.value(bucket_parent(b))
                });
            }
            assert forall|b: int| 0 <= b && (#[trigger] start.buckets.value(b)) is Some implies self.buckets.value(b)
                == start.buckets.value(b) by {
                if b == index {
                    let x = start.buckets.value(b)->Some_0;
                    start.lemma_unique_key(x, id);
                }
            }
        }
    }

    /// Finds the sentinel of bucket `index`, putting it in the list first, and
    /// the sentinels of the buckets it was split from, where it is missing.
    /// Returns the sentinel and its position in the list.
    #[verifier::rlimit(80)]
    fn initialize_bucket(&mut self, index: usize) -> (r: (usize, Ghost<int>))
        requires
            old(self).wf(),
            index < old(self).size,
        ensures
            final(self).wf(),
            final(self)@ == old(self)@,
            final(self).size == old(self).size,
            final(self).count == old(self).count,
            final(self).log_size == old(self).log_size,
            0 <= r.1@ < final(self).order@.len(),
            final(self).order@[r.1@] == r.0,
            final(self).key_at(r.1@) == sentinel_key(index as int),
            final(self).buckets.value(index as int) == Some(r.0),
            final(self).resolved(index as int),
            old(self).keeps_entries(*final(self)),
            old(self).keeps_buckets(*final(self)),
            old(self).buckets.value(index as int) is Some ==> r.0 == old(self).buckets.value(
                index as int,
            )->Some_0 && final(self).order@ == old(self).order@ && final(self).nodes@ == old(self).nodes@,
        decreases index,
    {
        let ghost start = *self;
        proof {
            lemma_pow2_at_most_top(self.log_size@);
            lemma2_to64_rest();
            assert(index < TOP_BIT);
        }
        if let Some(id) = self.bucket_sentinel(index) {
            let ghost mut pos: int = 0;
            proof {
                pos = choose|p: int| 0 <= p < self.order@.len() && #[trigger] self.order@[p] == id;
                assert(entry_ok(self.nodes@[self.order@[pos] as int]));
                self.lemma_resolved(index as int);
            }
            return (id, Ghost(pos));
        }
        let ghost s0 = *self;
        let t = sentinel_order_key(index);
        let ghost mut pos: int = 0;
        let id = if index == 0 {
            proof {
                lemma_reverse_zero(64);
                assert(self.key_at(0) == 0);
                Self::lemma_keeps_refl(s0);
            }
            0
        } else {
            let parent = Self::get_parent(index, self.size);
            proof {
                lemma_split_order(index as int, self.log_size@);
                lemma_bucket_parent(index as int, self.log_size@);
            }
            let (from, ps) = self.initialize_bucket(parent);
            let ghost s1 = *self;
            let (prev, pp) = self.seek(from, t, ps);
            proof {
                pos = pp@ + 1;
            }
            assert(prev < self.nodes@.len());
            let next = self.nodes[prev].next;
            let hit = match next {
                Some(n) => {
                    assert(n == self.order@[pp@ + 1]);
                    assert(n < self.nodes@.len());
                    self.nodes[n].so_key == t
                },
                None => false,
            };
            if hit {
                let n = match next {
                    Some(n) => n,
                    None => prev,
                };
                proof {
                    let e = self.nodes@[n as int];
                    assert(entry_ok(e));
                    lemma_keys_distinct(e.key as int, index as int);
                    lemma_keys_distinct(index as int, e.key as int);
                    assert(self.in_list(n));
                }
                n
            } else {
                proof {
                    if pp@ + 1 < self.order@.len() {
                        assert(self.nodes@[self.order@[pp@] as int].next == Some(self.order@[pp@ + 1]));
                    }
                }
                let id = self.insert_sentinel(prev, pp, t, index);
                proof {
                    Self::lemma_keeps_trans(s0, s1, *self);
                    assert(self.in_list(id));
                }
                id
            }
        };
        proof {
            if index == 0 {
                lemma_reverse_zero(64);
                assert(self.order@[0] == 0);
            }
            assert(self.in_list(id));
            assert(entry_ok(self.nodes@[id as int])) by {
                let q = choose|q: int| 0 <= q < self.order@.len() && #[trigger] self.order@[q] == id;
            }
            assert(self.nodes@[id as int].so_key == t);
            lemma_keys_distinct(self.nodes@[id as int].key as int, index as int);
            lemma_keys_distinct(index as int, self.nodes@[id as int].key as int);
        }
        let ghost s2 = *self;
        assert(s0.keeps_entries(s2) && s0.keeps_buckets(s2));
        self.publish_bucket(index, id);
        proof {
            Self::lemma_keeps_trans(start, s0, s2);
            Self::lemma_keeps_trans(start, s2, *self);
            assert(self.order@[pos] == id);
            self.lemma_resolved(index as int);
        }
        (id, Ghost(pos))
    }

    /// The sentinel that the slot of bucket `index` holds, if any. Allocates
    /// the slot's path in the segment tree.
    fn bucket_sentinel(&mut self, index: usize) -> (r: Option<usize>)
        requires
            old(self).wf(),
        ensures
            final(self).wf(),
            final(self)@ == old(self)@,
            final(self).size == old(self).size,
            final(self).count == old(self).count,
            final(self).log_size == old(self).log_size,
            final(self).order == old(self).order,
            final(self).nodes == old(self).nodes,
            r == old(self).buckets.value(index as int),
            forall|b: int| 0 <= b ==> #[trigger] final(self).buckets.value(b) == old(self).buckets.value(b),
            old(self).keeps_entries(*final(self)),
            old(self).keeps_buckets(*final(self)),
    {
        let ghost start = *self;
        let slot = self.buckets.get(index);
        proof {
            assert forall|b: int| 1 <= b && (#[trigger] self.buckets.value(b)) is Some implies self.buckets.value(
                bucket_parent(b),
            ) is Some by {
                assert(self.buckets.value(b) == start.buckets.value(b));
                let x = start.buckets.value(b)->Some_0;
                assert(start.in_list(x));
                let q = choose|q: int| 0 <= q < start.order@.len() && #[trigger] start.order@[q] == x;
                assert(entry_ok(start.nodes@[start.order@[q] as int]));
                lemma2_to64_rest();
                lemma_bucket_parent(b, 63);
                assert(self.buckets.value(bucket_parent(b)) == start.buckets.value(bucket_parent(b)));
            }
            assert forall|b: int| 0 <= b implies match #[trigger] self.buckets.value(b) {
                Some(id) => {
                    &&& id < self.nodes@.len()
                    &&& self.in_list(id)
                    &&& self.nodes@[id as int].value is None
                    &&& self.nodes@[id as int].key == b
                },
                None => true,
            } by {
                assert(self.buckets.value(b) == start.buckets.value(b));
            }
            assert(self.buckets.value(index as int) == self.buckets.content(slot));
        }
        self.buckets.load(slot)
    }

    /// Moves to the place of `key` in the list, starting from the sentinel of
    /// its bucket. Returns the last entry before that place, its position, and
    /// whether the entry after it holds `key`.
    fn find(&mut self, key: usize) -> (r: (usize, Ghost<int>, bool))
        requires
            old(self).wf(),
            key < TOP_BIT,
        ensures
            final(self).wf(),
            final(self)@ == old(self)@,
            final(self).size == old(self).size,
            final(self).count == old(self).count,
            final(self).log_size == old(self).log_size,
            0 <= r.1@ < final(self).order@.len(),
            final(self).order@[r.1@] == r.0,
            final(self).key_at(r.1@) < regular_key(key as int),
            r.1@ + 1 == final(self).order@.len() || final(self).key_at(r.1@ + 1) >= regular_key(key as int),
            old(self).keeps_entries(*final(self)),
            r.2 == old(self)@.contains_key(key),
            r.2 == (r.1@ + 1 < final(self).order@.len() && final(self).key_at(r.1@ + 1) == regular_key(
                key as int,
            )),
            r.2 ==> r.1@ + 1 < final(self).order@.len() && final(self).key_at(r.1@ + 1) == regular_key(
                key as int,
            ) && final(self).nodes@[final(self).order@[r.1@ + 1] as int].value == Some(old(self)@[key]),
    {
        proof {
            lemma_bucket_before_key(key as int, self.log_size@);
            lemma_pow2_pos(self.log_size@);
        }
        let bucket = key % self.size;
        let (from, ps) = self.initialize_bucket(bucket);
        let t = regular_order_key(key);
        let (prev, p) = self.seek(from, t, ps);
        assert(prev < self.nodes@.len());
        let found = match self.nodes[prev].next {
            Some(n) => {
                assert(self.nodes@[self.order@[p@] as int].next == Some(self.order@[p@ + 1])) by {
                    if p@ + 1 == self.order@.len() {
                        assert(self.nodes@[self.order@[p@] as int].next is None);
                    }
                }
                assert(n < self.nodes@.len());
                self.nodes[n].so_key == t
            },
            None => false,
        };
        proof {
            let ord = self.order@;
            if p@ + 1 < ord.len() {
                assert(self.nodes@[ord[p@] as int].next == Some(ord[p@ + 1]));
            }
            if found {
                let e = self.nodes@[ord[p@ + 1] as int];
                assert(entry_ok(e));
                lemma_keys_distinct(e.key as int, key as int);
                assert(e.value is Some);
                assert(e.key == key);
            }
            if self.map@.contains_key(key) {
                let q = choose|q: int|
                    0 <= q < ord.len() && (#[trigger] self.nodes@[ord[q] as int]).value is Some
                        && self.nodes@[ord[q] as int].key == key;
                assert(entry_ok(self.nodes@[ord[q] as int]));
                assert(self.key_at(q) == t);
                if q <= p@ {
                    if q < p@ {
                        assert(self.key_at(q) < self.key_at(p@));
                    }
                } else if q > p@ + 1 {
                    assert(self.key_at(p@ + 1) < self.key_at(q));
                }
                assert(found);
            }
        }
        (prev, p, found)
    }

    /// Returns the value of `key`, if the map holds one.
    pub fn lookup(&mut self, key: usize) -> (r: Option<&V>)
        requires
            old(self).wf(),
            key < TOP_BIT,
        ensures
            final(self).wf(),
            final(self)@ == old(self)@,
            final(self).spec_size() == old(self).spec_size(),
            final(self).spec_count() == old(self).spec_count(),
            forall|b: int| old(self).has_sentinel(b) ==> #[trigger] final(self).has_sentinel(b),
            match r {
                Some(v) => old(self)@.contains_key(key) && *v == old(self)@[key],
                None => !old(self)@.contains_key(key),
            },
    {
        let ghost start = *self;
        let (prev, p, found) = self.find(key);
        proof {
            Self::lemma_sentinels_kept(start, *self);
        }
        if found {
            assert(self.nodes@[self.order@[p@] as int].next == Some(self.order@[p@ + 1]));
            let n = match self.nodes[prev].next {
                Some(n) => n,
                None => prev,
            };
            self.nodes[n].value.as_ref()
        } else {
            None
        }
    }

    /// Inserts `value` under `key`. If the map already holds `key`, nothing
    /// changes and `value` is handed back. After an insertion that brings the
    /// count above `size * LOAD_FACTOR`, the number of buckets doubles.
    #[verifier::rlimit(100)]
    pub fn insert(&mut self, key: usize, value: V) -> (r: Result<(), V>)
        requires
            old(self).wf(),
            key < TOP_BIT,
        ensures
            final(self).wf(),
            old(self)@.contains_key(key) ==> r == Err::<(), V>(value) && final(self)@ == old(self)@
                && final(self).spec_size() == old(self).spec_size(),
            !old(self)@.contains_key(key) ==> r is Ok && final(self)@ == old(self)@.insert(key, value),
            final(self)@ == after_insert(old(self)@, key, value),
            final(self).spec_count() == final(self)@.len(),
            final(self)@.dom().finite(),
            final(self).spec_count() == if old(self)@.contains_key(key) {
                old(self).spec_count()
            } else {
                old(self).spec_count() + 1
            },
            forall|b: int| old(self).has_sentinel(b) ==> #[trigger] final(self).has_sentinel(b),
            final(self).spec_size() == if !old(self)@.contains_key(key) && old(self).spec_count() + 1
                > old(self).spec_size() * LOAD_FACTOR {
                old(self).spec_size() * 2
            } else {
                old(self).spec_size()
            },
    {
        let ghost start = *self;
        let (prev, p, found) = self.find(key);
        proof {
            Self::lemma_sentinels_kept(start, *self);
        }
        if found {
            return Err(value);
        }
        let ghost before = *self;
        let ghost gv = value;
        let t = regular_order_key(key);
        proof {
            if p@ + 1 < self.order@.len() {
                lemma_keys_distinct(key as int, key as int);
            }
        }
        let id = self.link_after(prev, p, t, key, Some(value));
        let ghost after = *self;
        proof {
            Self::lemma_link_keeps(before, after, id);
            Self::lemma_sentinels_kept(before, after);
        }
        self.map = Ghost(self.map@.insert(key, gv));
        assert(self.nodes@.len() == self.nodes.len());
        self.count = self.count + 1;
        proof {
            let ord = before.order@;
            let nord = self.order@;
            assert forall|q: int|
                0 <= q < nord.len() && (#[trigger] self.nodes@[nord[q] as int]).value is Some implies {
                    let e = self.nodes@[nord[q] as int];
                    self.map@.contains_key(e.key) && self.map@[e.key] == e.value->Some_0
                } by {
                if q < p@ + 1 {
                    assert(nord[q] == ord[q]);
                    assert(before.nodes@[ord[q] as int].value is Some);
                    assert(before.nodes@[ord[q] as int].key != key);
                } else if q > p@ + 1 {
                    assert(nord[q] == ord[q - 1]);
                    assert(before.nodes@[ord[q - 1] as int].value is Some);
                    assert(before.nodes@[ord[q - 1] as int].key != key);
                }
            }
            assert forall|k: usize| #[trigger] self.map@.contains_key(k) implies exists|q: int|
                0 <= q < nord.len() && (#[trigger] self.nodes@[nord[q] as int]).value is Some
                    && self.nodes@[nord[q] as int].key == k by {
                if k == key {
                    assert(nord[p@ + 1] == id);
                    assert(self.nodes@[nord[p@ + 1] as int].value is Some);
                } else {
                    let q = choose|q: int|
                        0 <= q < ord.len() && (#[trigger] before.nodes@[ord[q] as int]).value is Some
                            && before.nodes@[ord[q] as int].key == k;
                    if q < p@ + 1 {
                        assert(nord[q] == ord[q]);
                        assert(self.nodes@[nord[q] as int].value is Some);
                    } else {
                        assert(nord[q + 1] == ord[q]);
                        assert(self.nodes@[nord[q + 1] as int].value is Some);
                    }
                }
            }
            assert forall|b: int| 0 <= b implies match #[trigger] self.buckets.value(b) {
                Some(x) => {
                    &&& x < self.nodes@.len()
                    &&& self.in_list(x)
                    &&& self.nodes@[x as int].value is None
                    &&& self.nodes@[x as int].key == b
                },
                None => true,
            } by {
                if let Some(x) = self.buckets.value(b) {
                    assert(before.buckets.value(b) == Some(x));
                    assert(before.in_list(x));
                    assert(after.in_list(x));
                    assert(after.nodes@[x as int].value == before.nodes@[x as int].value);
                    assert(after.nodes@[x as int].key == before.nodes@[x as int].key);
                }
            }
        }
        if self.size <= (self.count - 1) / 2 {
            proof {
                lemma_pow2_unfold(self.log_size@ + 1);
                lemma_pow2_at_most_top(self.log_size@);
                lemma2_to64_rest();
                assert(self.log_size@ < 63) by {
                    if self.log_size@ == 63 {
                        assert(self.count <= usize::MAX);
                        assert(self.size == pow2(63));
                    }
                }
            }
            let ghost old_size = self.size as int;
            assert(before.count <= before.size * 2);
            assert(self.count == before.count + 1);
            assert(before.size == old_size);
            assert(old_size >= 1) by {
                lemma_pow2_pos(self.log_size@);
            }
            self.size = self.size * 2;
            proof {
                self.log_size = Ghost(self.log_size@ + 1);
                assert(self.size == old_size * 2);
                assert(self.count <= self.size * 2);
            }
        } else {
            proof {
                lemma_fundamental_div_mod((self.count - 1) as int, 2);
            }
            assert(self.count <= self.size * 2);
        }
        proof {
            Self::lemma_same_list(after, *self);
            Self::lemma_sentinels_kept(after, *self);
        }
        Ok(())
    }

    /// Removes `key` and returns its value, or `Err(())` if the map does not
    /// hold it.
    #[verifier::rlimit(100)]
    pub fn delete(&mut self, key: usize) -> (r: Result<V, ()>)
        requires
            old(self).wf(),
            key < TOP_BIT,
        ensures
            final(self).wf(),
            final(self).spec_size() == old(self).spec_size(),
            final(self).spec_count() == final(self)@.len(),
            final(self)@.dom().finite(),
            final(self).spec_count() == if old(self)@.contains_key(key) {
                old(self).spec_count() - 1
            } else {
                old(self).spec_count()
            },
            forall|b: int| old(self).has_sentinel(b) ==> #[trigger] final(self).has_sentinel(b),
            old(self)@.contains_key(key) ==> r == Ok::<V, ()>(old(self)@[key]) && final(self)@ == old(
                self,
            )@.remove(key),
            !old(self)@.contains_key(key) ==> r == Err::<V, ()>(()) && final(self)@ == old(self)@,
    {
        let ghost start = *self;
        let (prev, p, found) = self.find(key);
        proof {
            Self::lemma_sentinels_kept(start, *self);
        }
        if !found {
            return Err(());
        }
        let ghost before = *self;
        proof {
            let e = self.nodes@[self.order@[p@ + 1] as int];
            assert(entry_ok(e));
            lemma_keys_distinct(e.key as int, key as int);
        }
        let v = self.unlink_after(prev, p);
        let ghost after = *self;
        proof {
            let cur = before.order@[p@ + 1];
            assert forall|k: int| before.has_sentinel(k) implies #[trigger] after.has_sentinel(k) by {
                let id = choose|id: usize|
                    #[trigger] before.in_list(id) && before.nodes@[id as int].value is None
                        && before.nodes@[id as int].key == k;
                assert(id != cur);
                assert(after.in_list(id));
                assert(after.nodes@[id as int].value == before.nodes@[id as int].value);
            }
        }
        self.map = Ghost(self.map@.remove(key));
        self.count = self.count - 1;
        proof {
            let ord = before.order@;
            let nord = self.order@;
            let cur = ord[p@ + 1];
            assert forall|q: int|
                0 <= q < nord.len() && (#[trigger] self.nodes@[nord[q] as int]).value is Some implies {
                    let e = self.nodes@[nord[q] as int];
                    self.map@.contains_key(e.key) && self.map@[e.key] == e.value->Some_0
                } by {
                let q0 = if q < p@ + 1 { q } else { q + 1 };
                assert(nord[q] == ord[q0]);
                assert(q0 != p@ + 1);
                if q0 < p@ + 1 {
                    assert(before.key_at(q0) < before.key_at(p@ + 1));
                } else {
                    assert(before.key_at(p@ + 1) < before.key_at(q0));
                }
                assert(ord[q0] != cur);
                assert(before.nodes@[ord[q0] as int].value is Some);
                assert(entry_ok(before.nodes@[ord[q0] as int]));
                assert(entry_ok(before.nodes@[cur as int]));
                if before.nodes@[ord[q0] as int].key == key {
                    assert(before.key_at(q0) == before.key_at(p@ + 1));
                }
            }
            assert forall|k: usize| #[trigger] self.map@.contains_key(k) implies exists|q: int|
                0 <= q < nord.len() && (#[trigger] self.nodes@[nord[q] as int]).value is Some
                    && self.nodes@[nord[q] as int].key == k by {
                let q = choose|q: int|
                    0 <= q < ord.len() && (#[trigger] before.nodes@[ord[q] as int]).value is Some
                        && before.nodes@[ord[q] as int].key == k;
                assert(q != p@ + 1);
                if q < p@ + 1 {
                    assert(before.key_at(q) < before.key_at(p@ + 1));
                    assert(nord[q] == ord[q]);
                    assert(self.nodes@[nord[q] as int].value is Some);
                } else {
                    assert(before.key_at(p@ + 1) < before.key_at(q));
                    assert(nord[q - 1] == ord[q]);
                    assert(self.nodes@[nord[q - 1] as int].value is Some);
                }
            }
            assert forall|b: int| 0 <= b implies match #[trigger] self.buckets.value(b) {
                Some(x) => {
                    &&& x < self.nodes@.len()
                    &&& self.in_list(x)
                    &&& self.nodes@[x as int].value is None
                    &&& self.nodes@[x as int].key == b
                },
                None => true,
            } by {
                if let Some(x) = self.buckets.value(b) {
                    assert(before.buckets.value(b) == Some(x));
                    assert(before.in_list(x));
                    assert(x != cur);
                    assert(after.in_list(x));
                    assert(after.nodes@[x as int].value == before.nodes@[x as int].value);
                    assert(after.nodes@[x as int].key == before.nodes@[x as int].key);
                }
            }
        }
        proof {
            Self::lemma_same_list(after, *self);
            Self::lemma_sentinels_kept(after, *self);
        }
        match v {
            Some(v) => Ok(v),
            None => Err(()),
        }
    }
}

/// The view of the map after `insert(k, v)`, where `m` was the view before.
pub open spec fn after_insert<V>(m: Map<usize, V>, k: usize, v: V) -> Map<usize, V> {
    if m.contains_key(k) {
        m
    } else {
        m.insert(k, v)
    }
}

/// The view of the map after inserting the pairs of `s` in turn.
pub open spec fn after_inserts<V>(m: Map<usize, V>, s: Seq<(usize, V)>) -> Map<usize, V>
    decreases s.len(),
{
    if s.len() == 0 {
        m
    } else {
        after_insert(after_inserts(m, s.drop_last()), s.last().0, s.last().1)
    }
}

/// No two pairs of `s` share a key.
pub open spec fn distinct_keys<V>(s: Seq<(usize, V)>) -> bool {
    forall|i: int, j: int| 0 <= i < j < s.len() ==> (#[trigger] s[i]).0 != (#[trigger] s[j]).0
}

impl<V> SplitOrderedList<V> {
    /// The number of buckets is a power of two, at least 2, and never less
    /// than the number of entries divided by the load factor.
    pub proof fn lemma_size_bounds(&self)
        requires
            self.wf(),
        ensures
            self@.dom().finite(),
            self.spec_count() == self@.len(),
            self.spec_count() <= self.spec_size() * LOAD_FACTOR,
            self.spec_size() == pow2(self.spec_log_size()),
            self.spec_log_size() >= 1,
            self.spec_size() >= 2,
    {
        lemma_pow2_pos(self.log_size@);
        lemma_pow2_unfold(self.log_size@);
        lemma_pow2_pos((self.log_size@ - 1) as nat);
    }
}

/// Inserting a key that the map does not hold, then looking it up, finds the
/// inserted value.
pub proof fn lemma_round_trip<V>(m: Map<usize, V>, k: usize, v: V)
    requires
        !m.contains_key(k),
    ensures
        after_insert(m, k, v).contains_key(k),
        after_insert(m, k, v)[k] == v,
{
}

/// Of two inserts of one key, only the first that finds the key missing
/// succeeds: once one has succeeded, the map holds the key, so the other hands
/// its value back and changes nothing.
pub proof fn lemma_no_duplicates<V>(m: Map<usize, V>, k: usize, v1: V, v2: V)
    ensures
        after_insert(m, k, v1).contains_key(k),
        after_insert(after_insert(m, k, v1), k, v2) == after_insert(m, k, v1),
{
}

/// After inserting a missing key and deleting it, the delete returned the
/// inserted value and the map no longer holds the key, so a second delete
/// and a lookup find nothing.
pub proof fn lemma_delete_removes<V>(m: Map<usize, V>, k: usize, v: V)
    requires
        !m.contains_key(k),
    ensures
        after_insert(m, k, v).contains_key(k),
        after_insert(m, k, v)[k] == v,
        !after_insert(m, k, v).remove(k).contains_key(k),
        after_insert(m, k, v).remove(k) == m,
{
    assert(m.insert(k, v).remove(k) =~= m);
}

/// Inserting pairs with distinct keys that the map does not hold adds exactly
/// those pairs.
pub proof fn lemma_inserts_add_pairs<V>(m: Map<usize, V>, s: Seq<(usize, V)>)
    requires
        distinct_keys(s),
        forall|i: int| 0 <= i < s.len() ==> !m.contains_key((#[trigger] s[i]).0),
    ensures
        forall|k: usize| #[trigger]
            after_inserts(m, s).contains_key(k) <==> m.contains_key(k) || exists|i: int|
                0 <= i < s.len() && (#[trigger] s[i]).0 == k,
        forall|k: usize| m.contains_key(k) ==> #[trigger] after_inserts(m, s)[k] == m[k],
        forall|i: int| 0 <= i < s.len() ==> after_inserts(m, s)[(#[trigger] s[i]).0] == s[i].1,
    decreases s.len(),
{
    if s.len() > 0 {
        let t = s.drop_last();
        assert forall|i: int, j: int| 0 <= i < j < t.len() implies (#[trigger] t[i]).0 != (#[trigger] t[j]).0 by {
            assert(t[i] == s[i] && t[j] == s[j]);
        }
        assert forall|i: int| 0 <= i < t.len() implies !m.contains_key((#[trigger] t[i]).0) by {
            assert(t[i] == s[i]);
        }
        lemma_inserts_add_pairs(m, t);
        let last = s.last();
        let n = s.len() - 1;
        assert(last == s[n]);
        assert(!after_inserts(m, t).contains_key(last.0)) by {
            if after_inserts(m, t).contains_key(last.0) {
                let i = choose|i: int| 0 <= i < t.len() && (#[trigger] t[i]).0 == last.0;
                assert(s[i].0 == s[n].0);
            }
        }
        assert forall|k: usize| #[trigger]
            after_inserts(m, s).contains_key(k) <==> m.contains_key(k) || exists|i: int|
                0 <= i < s.len() && (#[trigger] s[i]).0 == k by {
            if exists|i: int| 0 <= i < s.len() && (#[trigger] s[i]).0 == k {
                let i = choose|i: int| 0 <= i < s.len() && (#[trigger] s[i]).0 == k;
                if i < n {
                    assert(t[i].0 == k);
                }
            }
            if exists|i: int| 0 <= i < t.len() && (#[trigger] t[i]).0 == k {
                let i = choose|i: int| 0 <= i < t.len() && (#[trigger] t[i]).0 == k;
                assert(s[i].0 == k);
            }
        }
        assert forall|i: int| 0 <= i < s.len() implies after_inserts(m, s)[(#[trigger] s[i]).0] == s[i].1 by {
            if i < n {
                assert(t[i] == s[i]);
                assert(s[i].0 != s[n].0);
            }
        }
    }
}

/// The order in which pairs with distinct keys are inserted does not matter:
/// the same pairs give the same map.
pub proof fn lemma_order_independent<V>(m: Map<usize, V>, s1: Seq<(usize, V)>, s2: Seq<(usize, V)>)
    requires
        distinct_keys(s1),
        distinct_keys(s2),
        s1.to_set() == s2.to_set(),
        forall|i: int| 0 <= i < s1.len() ==> !m.contains_key((#[trigger] s1[i]).0),
    ensures
        after_inserts(m, s1) == after_inserts(m, s2),
{
    assert forall|i: int| 0 <= i < s2.len() implies !m.contains_key((#[trigger] s2[i]).0) by {
        assert(s2.to_set().contains(s2[i]));
        assert(s1.to_set().contains(s2[i]));
        let j = choose|j: int| 0 <= j < s1.len() && s1[j] == s2[i];
        assert(!m.contains_key(s1[j].0));
    }
    lemma_inserts_add_pairs(m, s1);
    lemma_inserts_add_pairs(m, s2);
    let a = after_inserts(m, s1);
    let b = after_inserts(m, s2);
    assert forall|k: usize| #[trigger] a.contains_key(k) == b.contains_key(k) by {
        if exists|i: int| 0 <= i < s1.len() && (#[trigger] s1[i]).0 == k {
            let i = choose|i: int| 0 <= i < s1.len() && (#[trigger] s1[i]).0 == k;
            assert(s1.to_set().contains(s1[i]));
            let j = choose|j: int| 0 <= j < s2.len() && s2[j] == s1[i];
            assert(s2[j].0 == k);
        }
        if exists|i: int| 0 <= i < s2.len() && (#[trigger] s2[i]).0 == k {
            let i = choose|i: int| 0 <= i < s2.len() && (#[trigger] s2[i]).0 == k;
            assert(s2.to_set().contains(s2[i]));
            let j = choose|j: int| 0 <= j < s1.len() && s1[j] == s2[i];
            assert(s1[j].0 == k);
        }
    }
    assert forall|k: usize| #[trigger] a.contains_key(k) implies a[k] == b[k] by {
        if !m.contains_key(k) {
            let i = choose|i: int| 0 <= i < s1.len() && (#[trigger] s1[i]).0 == k;
            assert(s1.to_set().contains(s1[i]));
            let j = choose|j: int| 0 <= j < s2.len() && s2[j] == s1[i];
            assert(a[s1[i].0] == s1[i].1);
            assert(b[s2[j].0] == s2[j].1);
        }
    }
    assert(a =~= b);
}

} // verus!
