//! A set kept as one list in ascending order.

use core::cmp::Ordering;
use vstd::laws_cmp::{
    obeys_cmp, obeys_cmp_ord, obeys_cmp_partial_ord, obeys_partial_cmp_spec_properties,
};
use vstd::laws_eq::obeys_concrete_eq;
use vstd::prelude::*;
use vstd::std_specs::cmp::{OrdSpec, PartialEqSpec, PartialOrdSpec};

verus! {

/// What an ordering must satisfy for the set to be sorted by it.
pub open spec fn total_order<T: Ord>() -> bool {
    obeys_cmp::<T>() && obeys_concrete_eq::<T>()
}

/// Strictly ascending.
pub open spec fn ascending<T: Ord>(s: Seq<T>) -> bool {
    forall|i: int, j: int|
        #![trigger s[i], s[j]]
        0 <= i < j < s.len() ==> s[i].cmp_spec(&s[j]) == Ordering::Less
}

proof fn lemma_order_facts<T: Ord>()
    requires
        total_order::<T>(),
    ensures
        T::obeys_cmp_spec(),
        forall|x: T, y: T| #[trigger] x.cmp_spec(&y) == Ordering::Equal <==> x == y,
        forall|x: T, y: T| #[trigger] x.cmp_spec(&y) == Ordering::Less <==> y.cmp_spec(&x) == Ordering::Greater,
        forall|x: T, y: T, z: T|
            #[trigger] x.cmp_spec(&y) == Ordering::Less && #[trigger] y.cmp_spec(&z) == Ordering::Less
                ==> x.cmp_spec(&z) == Ordering::Less,
{
    reveal(obeys_partial_cmp_spec_properties);
    reveal(obeys_cmp_ord);
    reveal(obeys_cmp_partial_ord);
    reveal(obeys_concrete_eq);
    assert forall|x: T, y: T| #[trigger] x.cmp_spec(&y) == Ordering::Less <==> y.cmp_spec(&x) == Ordering::Greater by {
        assert(x.partial_cmp_spec(&y) == Some(x.cmp_spec(&y)));
        assert(y.partial_cmp_spec(&x) == Some(y.cmp_spec(&x)));
    }
    assert forall|x: T, y: T| #[trigger] x.cmp_spec(&y) == Ordering::Equal <==> x == y by {
        assert(x.partial_cmp_spec(&y) == Some(x.cmp_spec(&y)));
        assert(x.eq_spec(&y) <==> x.partial_cmp_spec(&y) == Some(Ordering::Equal));
        assert(x.eq_spec(&y) <==> x == y);
    }
    assert forall|x: T, y: T, z: T|
        #[trigger] x.cmp_spec(&y) == Ordering::Less && #[trigger] y.cmp_spec(&z) == Ordering::Less
            implies x.cmp_spec(&z) == Ordering::Less by {
        assert(x.partial_cmp_spec(&y) == Some(x.cmp_spec(&y)));
        assert(y.partial_cmp_spec(&z) == Some(y.cmp_spec(&z)));
        assert(x.partial_cmp_spec(&z) == Some(x.cmp_spec(&z)));
    }
}

/// Sorted set.
pub struct OrderedListSet<T> {
    items: Vec<T>,
}

impl<T> View for OrderedListSet<T> {
    type V = Seq<T>;

    closed spec fn view(&self) -> Seq<T> {
        self.items@
    }
}

impl<T> OrderedListSet<T> {
    /// Creates a new list.
    pub fn new() -> (r: Self)
        ensures
            r@ == Seq::<T>::empty(),
    {
        OrderedListSet { items: Vec::new() }
    }

    /// An iterator visiting all elements, in ascending order.
    pub fn iter(&self) -> (r: Iter<'_, T>)
        ensures
            r.wf(),
            r.rest() == self@,
    {
        Iter { items: &self.items, pos: 0 }
    }
}

impl<T: Ord> OrderedListSet<T> {
    /// Finds the first position whose element is not below `key`, and whether
    /// that element is `key`.
    fn find(&self, key: &T) -> (r: (bool, usize))
        requires
            total_order::<T>(),
            ascending(self@),
        ensures
            r.1 <= self@.len(),
            forall|i: int| 0 <= i < r.1 ==> (#[trigger] self@[i]).cmp_spec(key) == Ordering::Less,
            r.0 <==> r.1 < self@.len() && self@[r.1 as int] == *key,
            !r.0 ==> forall|i: int| r.1 <= i < self@.len() ==> key.cmp_spec(&(#[trigger] self@[i])) == Ordering::Less,
    {
        proof {
            lemma_order_facts::<T>();
        }
        let mut i: usize = 0;
        while i < self.items.len()
            invariant
                total_order::<T>(),
                ascending(self@),
                i <= self@.len(),
                forall|k: int| 0 <= k < i ==> (#[trigger] self@[k]).cmp_spec(key) == Ordering::Less,
            decreases self@.len() - i,
        {
            proof {
                lemma_order_facts::<T>();
            }
            match key.cmp(&self.items[i]) {
                Ordering::Less => {
                    assert forall|k: int| i <= k < self@.len() implies key.cmp_spec(&(#[trigger] self@[k]))
                        == Ordering::Less by {
                        if k > i {
                            assert(self@[i as int].cmp_spec(&self@[k]) == Ordering::Less);
                        }
                    }
                    return (false, i);
                },
                Ordering::Equal => {
                    return (true, i);
                },
                Ordering::Greater => {
                    i = i + 1;
                },
            }
        }
        (false, i)
    }

    /// Returns `true` if the set contains the key.
    pub fn contains(&self, key: &T) -> (r: bool)
        requires
            total_order::<T>(),
            ascending(self@),
        ensures
            r == self@.contains(*key),
    {
        proof {
            lemma_order_facts::<T>();
        }
        let (found, i) = self.find(key);
        proof {
            if !found && self@.contains(*key) {
                let k = choose|k: int| 0 <= k < self@.len() && self@[k] == *key;
                if k < i {
                    assert(self@[k].cmp_spec(key) == Ordering::Less);
                } else {
                    assert(key.cmp_spec(&self@[k]) == Ordering::Less);
                }
            }
        }
        found
    }

    /// Insert a key to the set. If the set already has the key, return the
    /// provided key in `Err`.
    pub fn insert(&mut self, key: T) -> (r: Result<(), T>)
        requires
            total_order::<T>(),
            ascending(old(self)@),
        ensures
            ascending(final(self)@),
            old(self)@.contains(key) ==> r == Err::<(), T>(key) && final(self)@ == old(self)@,
            !old(self)@.contains(key) ==> r is Ok && final(self)@.to_set() == old(self)@.to_set().insert(key)
                && final(self)@.len() == old(self)@.len() + 1,
            forall|x: T| #[trigger] final(self)@.contains(x) <==> old(self)@.contains(x) || x == key,
    {
        proof {
            lemma_order_facts::<T>();
        }
        let (found, i) = self.find(&key);
        if found {
            return Err(key);
        }
        let ghost s = self@;
        self.items.insert(i, key);
        proof {
            if s.contains(key) {
                let k = choose|k: int| 0 <= k < s.len() && s[k] == key;
                if k < i {
                    assert(s[k].cmp_spec(&key) == Ordering::Less);
                } else {
                    assert(key.cmp_spec(&s[k]) == Ordering::Less);
                }
            }
            let t = self@;
            assert(t == s.insert(i as int, key));
            assert forall|a: int, b: int|
                #![trigger t[a], t[b]]
                0 <= a < b < t.len() implies t[a].cmp_spec(&t[b]) == Ordering::Less by {
                if b < i {
                } else if b == i {
                    assert(s[a].cmp_spec(&key) == Ordering::Less);
                } else if a < i {
                    assert(s[b - 1] == t[b]);
                } else if a == i {
                    assert(key.cmp_spec(&s[b - 1]) == Ordering::Less);
                } else {
                    assert(s[a - 1].cmp_spec(&s[b - 1]) == Ordering::Less);
                }
            }
            assert(t.to_set() =~= s.to_set().insert(key)) by {
                assert forall|x: T| t.to_set().contains(x) implies s.to_set().insert(key).contains(x) by {
                    let k = choose|k: int| 0 <= k < t.len() && t[k] == x;
                    if k < i {
                        assert(s[k] == x);
                    } else if k > i {
                        assert(s[k - 1] == x);
                    }
                }
                assert forall|x: T| s.to_set().insert(key).contains(x) implies t.to_set().contains(x) by {
                    if x == key {
                        assert(t[i as int] == x);
                    } else {
                        let k = choose|k: int| 0 <= k < s.len() && s[k] == x;
                        if k < i {
                            assert(t[k] == x);
                        } else {
                            assert(t[k + 1] == x);
                        }
                    }
                }
            }
            assert forall|x: T| #[trigger] t.contains(x) <==> s.contains(x) || x == key by {
                assert(t.to_set().contains(x) == t.contains(x));
                assert(s.to_set().contains(x) == s.contains(x));
            }
        }
        Ok(())
    }

    /// Remove the key from the set and return it.
    pub fn remove(&mut self, key: &T) -> (r: Result<T, ()>)
        requires
            total_order::<T>(),
            ascending(old(self)@),
        ensures
            ascending(final(self)@),
            old(self)@.contains(*key) ==> r == Ok::<T, ()>(*key) && final(self)@.to_set() == old(self)@.to_set().remove(*key)
                && final(self)@.len() == old(self)@.len() - 1,
            forall|x: T| #[trigger] final(self)@.contains(x) <==> old(self)@.contains(x) && x != *key,
            !old(self)@.contains(*key) ==> r == Err::<T, ()>(()) && final(self)@ == old(self)@,
    {
        proof {
            lemma_order_facts::<T>();
        }
        let (found, i) = self.find(key);
        let ghost s = self@;
        proof {
            if !found && s.contains(*key) {
                let k = choose|k: int| 0 <= k < s.len() && s[k] == *key;
                if k < i {
                    assert(s[k].cmp_spec(key) == Ordering::Less);
                } else {
                    assert(key.cmp_spec(&s[k]) == Ordering::Less);
                }
            }
        }
        if !found {
            return Err(());
        }
        let v = self.items.remove(i);
        proof {
            let t = self@;
            assert(t == s.remove(i as int));
            assert forall|a: int, b: int|
                #![trigger t[a], t[b]]
                0 <= a < b < t.len() implies t[a].cmp_spec(&t[b]) == Ordering::Less by {
                let a0 = if a < i { a } else { a + 1 };
                let b0 = if b < i { b } else { b + 1 };
                assert(t[a] == s[a0] && t[b] == s[b0]);
                assert(s[a0].cmp_spec(&s[b0]) == Ordering::Less);
            }
            assert(t.to_set() =~= s.to_set().remove(*key)) by {
                assert forall|x: T| t.to_set().contains(x) implies s.to_set().remove(*key).contains(x) by {
                    let k = choose|k: int| 0 <= k < t.len() && t[k] == x;
                    let k0 = if k < i { k } else { k + 1 };
                    assert(s[k0] == x);
                    assert(k0 != i);
                    if k0 < i {
                        assert(s[k0].cmp_spec(&s[i as int]) == Ordering::Less);
                    } else {
                        assert(s[i as int].cmp_spec(&s[k0]) == Ordering::Less);
                    }
                }
                assert forall|x: T| s.to_set().remove(*key).contains(x) implies t.to_set().contains(x) by {
                    let k = choose|k: int| 0 <= k < s.len() && s[k] == x;
                    assert(k != i);
                    if k < i {
                        assert(t[k] == x);
                    } else {
                        assert(t[k - 1] == x);
                    }
                }
            }
            assert forall|x: T| #[trigger] t.contains(x) <==> s.contains(x) && x != *key by {
                assert(t.to_set().contains(x) == t.contains(x));
                assert(s.to_set().contains(x) == s.contains(x));
            }
        }
        Ok(v)
    }
}

impl<T> Default for OrderedListSet<T> {
    fn default() -> (r: Self)
        ensures
            r@ == Seq::<T>::empty(),
    {
        Self::new()
    }
}

/// Walks the elements of a set in ascending order.
pub struct Iter<'l, T> {
    items: &'l Vec<T>,
    pos: usize,
}

impl<'l, T> Iter<'l, T> {
    pub closed spec fn wf(&self) -> bool {
        self.pos <= self.items@.len()
    }

    /// The elements not visited yet.
    pub closed spec fn rest(&self) -> Seq<T> {
        self.items@.subrange(self.pos as int, self.items@.len() as int)
    }

    /// Returns the next element, or `None` when all have been visited.
    pub fn next(&mut self) -> (r: Option<&'l T>)
        requires
            old(self).wf(),
        ensures
            final(self).wf(),
            old(self).rest().len() == 0 ==> r is None && final(self).rest() == old(self).rest(),
            old(self).rest().len() > 0 ==> r == Some(&old(self).rest()[0]) && final(self).rest()
                == old(self).rest().drop_first(),
    {
        if self.pos < self.items.len() {
            let r = &self.items[self.pos];
            self.pos = self.pos + 1;
            Some(r)
        } else {
            None
        }
    }
}

} // verus!
