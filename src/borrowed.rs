use vstd::laws_eq::obeys_concrete_eq;
use vstd::prelude::*;
use vstd::std_specs::cmp::PartialEqSpecImpl;

use crate::iter::{Iter, IterMut, Keys, Values};
use crate::map::{find_key, pairs_agree, same_pairs, LinearMap};
use crate::model::{is_first_index, key_index, keys_distinct, keys_of, lemma_first_index, lemma_map_of_first, map_of, values_of};

verus! {

/// `i` is the first index of `s` whose key also stands earlier, and `j` is
/// the first index holding that key.
pub open spec fn is_first_duplicate<K, V>(s: Seq<(K, V)>, i: int, j: int) -> bool {
    &&& 0 <= j < i < s.len()
    &&& keys_distinct(s.subrange(0, i))
    &&& is_first_index(s, s[i].0, j)
}

/// The first index whose key repeats an earlier key, paired with the first
/// index holding that key.
fn first_duplicate<K: Eq, V>(entries: &[(K, V)]) -> (r: Option<(usize, usize)>)
    requires
        obeys_concrete_eq::<K>(),
    ensures
        match r {
            None => keys_distinct(entries@),
            Some((i, j)) => is_first_duplicate(entries@, i as int, j as int),
        },
{
    let mut i: usize = 0;
    while i < entries.len()
        invariant
            obeys_concrete_eq::<K>(),
            i <= entries@.len(),
            keys_distinct(entries@.subrange(0, i as int)),
        decreases entries@.len() - i,
    {
        let prefix = entries.split_at(i).0;
        match find_key(prefix, &entries[i].0) {
            Some(j) => {
                proof {
                    assert forall|m: int| 0 <= m < j implies #[trigger] entries@[m].0 != entries@[i as int].0 by {
                        assert(prefix@[m] == entries@[m]);
                    }
                    assert(prefix@[j as int] == entries@[j as int]);
                }
                return Some((i, j));
            },
            None => {
                proof {
                    let t = entries@.subrange(0, i + 1);
                    assert forall|a: int, b: int| 0 <= a < t.len() && 0 <= b < t.len() && a != b implies #[trigger] t[a].0 != #[trigger] t[b].0 by {
                        if a < i && b < i {
                            assert(prefix@[a] == t[a] && prefix@[b] == t[b]);
                        } else if a < i {
                            assert(prefix@[a] == t[a]);
                        } else {
                            assert(prefix@[b] == t[b]);
                        }
                    }
                }
            },
        }
        i += 1;
    }
    assert(entries@.subrange(0, entries@.len() as int) =~= entries@);
    None
}

/// A map over a slice of pairs that it borrows, whose keys were checked to be
/// distinct when it was made.
#[derive(Debug)]
pub struct LinearBorrowedMap<'a, K, V> {
    entries: &'a [(K, V)],
}

impl<'a, K, V> View for LinearBorrowedMap<'a, K, V> {
    type V = Map<K, V>;

    closed spec fn view(&self) -> Map<K, V> {
        map_of(self.entries@)
    }
}

impl<'a, K, V> LinearBorrowedMap<'a, K, V> {
    /// The borrowed pairs, in order.
    pub closed spec fn entries(&self) -> Seq<(K, V)> {
        self.entries@
    }

    /// No two borrowed pairs carry the same key.
    pub open spec fn wf(&self) -> bool {
        keys_distinct(self.entries())
    }

    /// The map is the map of the borrowed pairs.
    pub proof fn lemma_view(&self)
        ensures
            self@ == map_of(self.entries()),
    {
    }
}

impl<'a, K: Eq, V> LinearBorrowedMap<'a, K, V> {
    /// Views `slice` as a map once its keys are found distinct; otherwise
    /// returns the key that the first repeating pair shares, as held by the
    /// earlier pair.
    pub fn new(slice: &'a [(K, V)]) -> (r: Result<Self, &'a K>)
        requires
            obeys_concrete_eq::<K>(),
        ensures
            match r {
                Ok(m) => keys_distinct(slice@) && m.entries() == slice@ && m.wf(),
                Err(k) => !keys_distinct(slice@) && exists|i: int, j: int|
                    #[trigger] is_first_duplicate(slice@, i, j) && *k == slice@[j].0,
            },
    {
        match first_duplicate(slice) {
            None => Ok(LinearBorrowedMap { entries: slice }),
            Some((i, j)) => {
                proof {
                    assert(slice@[i as int].0 == slice@[j as int].0);
                }
                Err(&slice[j].0)
            },
        }
    }

    /// Views `slice` as a map; its keys must already be distinct.
    pub fn new_unchecked(slice: &'a [(K, V)]) -> (r: Self)
        requires
            keys_distinct(slice@),
        ensures
            r.entries() == slice@,
            r.wf(),
    {
        LinearBorrowedMap { entries: slice }
    }

    /// The number of pairs.
    pub fn len(&self) -> (r: usize)
        ensures
            r == self.entries().len(),
    {
        self.entries.len()
    }

    /// Whether there is no pair.
    pub fn is_empty(&self) -> (r: bool)
        ensures
            r == (self.entries().len() == 0),
    {
        self.entries.len() == 0
    }

    /// The pairs, by reference, in order.
    pub fn iter(&self) -> (r: Iter<'a, K, V>)
        ensures
            r@ == self.entries(),
    {
        Iter::new(self.entries)
    }

    /// The keys, in order.
    pub fn keys(&self) -> (r: Keys<'a, K, V>)
        ensures
            r@ == keys_of(self.entries()),
    {
        Keys::new(self.iter())
    }

    /// The values, in order.
    pub fn values(&self) -> (r: Values<'a, K, V>)
        ensures
            r@ == values_of(self.entries()),
    {
        Values::new(self.iter())
    }

    /// Whether a pair has the key `key`.
    pub fn contains_key(&self, key: &K) -> (r: bool)
        requires
            obeys_concrete_eq::<K>(),
        ensures
            r == self@.contains_key(*key),
    {
        self.get(key).is_some()
    }

    /// The value stored under `key`, if any.
    pub fn get(&self, key: &K) -> (r: Option<&'a V>)
        requires
            obeys_concrete_eq::<K>(),
        ensures
            r == (if self@.contains_key(*key) { Some(&self@[*key]) } else { None::<&V> }),
    {
        let entries: &'a [(K, V)] = self.entries;
        match find_key(entries, key) {
            Some(i) => {
                proof {
                    lemma_map_of_first(entries@, *key, i as int);
                }
                Some(&entries[i].1)
            },
            None => None,
        }
    }

    /// The borrowed pairs, in order.
    pub fn as_slice(&self) -> (r: &'a [(K, V)])
        ensures
            r@ == self.entries(),
    {
        self.entries
    }
}

impl<'a, K: Eq + Clone, V: Clone> LinearBorrowedMap<'a, K, V> {
    /// An owned map holding clones of the pairs, in order.
    pub fn to_owned(&self) -> (r: LinearMap<K, V>)
        ensures
            r.entries().len() == self.entries().len(),
            forall|i: int|
                0 <= i < self.entries().len() ==> cloned::<K>(self.entries()[i].0, #[trigger] r.entries()[i].0)
                    && cloned::<V>(self.entries()[i].1, r.entries()[i].1),
    {
        let pairs = clone_pairs(self.entries);
        let r = LinearMap::from_storage(pairs);
        assert forall|i: int| 0 <= i < self.entries().len() implies cloned::<K>(self.entries()[i].0, #[trigger] r.entries()[i].0)
            && cloned::<V>(self.entries()[i].1, r.entries()[i].1) by {
            assert(r.entries()[i] == pairs@[i]);
            assert(cloned::<K>(self.entries@[i].0, pairs@[i].0));
        }
        r
    }
}

/// Clones of the pairs of `entries`, in order.
fn clone_pairs<K: Clone, V: Clone>(entries: &[(K, V)]) -> (r: Vec<(K, V)>)
    ensures
        r@.len() == entries@.len(),
        forall|i: int|
            0 <= i < entries@.len() ==> cloned::<K>(entries@[i].0, #[trigger] r@[i].0) && cloned::<V>(
                entries@[i].1,
                r@[i].1,
            ),
{
    let mut r: Vec<(K, V)> = Vec::with_capacity(entries.len());
    let mut i: usize = 0;
    while i < entries.len()
        invariant
            i <= entries@.len(),
            r@.len() == i,
            forall|m: int|
                0 <= m < i ==> cloned::<K>(entries@[m].0, #[trigger] r@[m].0) && cloned::<V>(
                    entries@[m].1,
                    r@[m].1,
                ),
        decreases entries@.len() - i,
    {
        let k = entries[i].0.clone();
        let v = entries[i].1.clone();
        r.push((k, v));
        i += 1;
    }
    r
}

impl<'a, K: Eq, V: PartialEq> PartialEq for LinearBorrowedMap<'a, K, V> {
    fn eq(&self, other: &Self) -> (r: bool) {
        pairs_agree(self.entries, other.entries)
    }
}

impl<'a, K: Eq, V: PartialEq> PartialEqSpecImpl for LinearBorrowedMap<'a, K, V> {
    open spec fn obeys_eq_spec() -> bool {
        obeys_concrete_eq::<K>() && obeys_concrete_eq::<V>()
    }

    open spec fn eq_spec(&self, other: &Self) -> bool {
        same_pairs(self.entries(), other.entries())
    }
}

impl<'a, K: Eq, V: Eq> Eq for LinearBorrowedMap<'a, K, V> {

}

/// A map over a slice of pairs that it borrows mutably; its keys were checked
/// to be distinct when it was made, and only values can change through it.
///
/// The field is public so that contracts can speak of the borrowed slice;
/// changing a key through it gives up the map's guarantees.
#[non_exhaustive]
#[derive(Debug)]
pub struct LinearBorrowedMapMut<'a, K, V> {
    /// The borrowed pairs.
    pub entries: &'a mut [(K, V)],
}

impl<'a, K, V> View for LinearBorrowedMapMut<'a, K, V> {
    type V = Map<K, V>;

    open spec fn view(&self) -> Map<K, V> {
        map_of(self.entries())
    }
}

impl<'a, K, V> LinearBorrowedMapMut<'a, K, V> {
    /// The borrowed pairs as they are now, in order.
    pub open spec fn entries(&self) -> Seq<(K, V)> {
        (*self.entries)@
    }

    /// No two borrowed pairs carry the same key.
    pub open spec fn wf(&self) -> bool {
        keys_distinct(self.entries())
    }

    /// The map is the map of the borrowed pairs.
    pub proof fn lemma_view(&self)
        ensures
            self@ == map_of(self.entries()),
    {
    }
}

impl<'a, K: Eq, V> LinearBorrowedMapMut<'a, K, V> {
    /// Views `slice` as a map once its keys are found distinct; otherwise
    /// returns the key that the first repeating pair shares, as held by the
    /// earlier pair.
    pub fn new_mut(slice: &'a mut [(K, V)]) -> (r: Result<Self, &'a mut K>)
        requires
            obeys_concrete_eq::<K>(),
        ensures
            match r {
                Ok(m) => {
                    &&& keys_distinct(old(slice)@)
                    &&& m.entries() == old(slice)@
                    &&& (*final(m.entries))@ == (*final(slice))@
                },
                Err(k) => {
                    &&& !keys_distinct(old(slice)@)
                    &&& exists|i: int, j: int|
                        {
                            &&& #[trigger] is_first_duplicate(old(slice)@, i, j)
                            &&& *k == old(slice)@[j].0
                            &&& (*final(slice))@ == old(slice)@.update(j, (*final(k), old(slice)@[j].1))
                        }
                },
            },
    {
        match first_duplicate(slice) {
            None => Ok(LinearBorrowedMapMut { entries: slice }),
            Some((i, j)) => {
                proof {
                    assert(slice@[i as int].0 == slice@[j as int].0);
                }
                Err(&mut slice[j].0)
            },
        }
    }

    /// Views `slice` as a map; its keys must already be distinct.
    pub fn new_mut_unchecked(slice: &'a mut [(K, V)]) -> (r: Self)
        requires
            keys_distinct(old(slice)@),
        ensures
            r.entries() == old(slice)@,
            (*final(r.entries))@ == (*final(slice))@,
    {
        LinearBorrowedMapMut { entries: slice }
    }

    /// The number of pairs.
    pub fn len(&self) -> (r: usize)
        ensures
            r == self.entries().len(),
    {
        self.entries.len()
    }

    /// Whether there is no pair.
    pub fn is_empty(&self) -> (r: bool)
        ensures
            r == (self.entries().len() == 0),
    {
        self.entries.len() == 0
    }

    /// The pairs, by reference, in order.
    pub fn iter(&self) -> (r: Iter<'_, K, V>)
        ensures
            r@ == self.entries(),
    {
        Iter::new(&*self.entries)
    }

    /// The pairs in order, with the values open to change.
    pub fn iter_mut(&mut self) -> (r: IterMut<'_, K, V>)
        ensures
            r.rest is Some,
            (*r.rest->Some_0)@ == old(self).entries(),
            final(self).entries() == (*final(r.rest->Some_0))@,
            (*final(final(self).entries))@ == (*final(old(self).entries))@,
    {
        IterMut::new(&mut *self.entries)
    }

    /// The keys, in order.
    pub fn keys(&self) -> (r: Keys<'_, K, V>)
        ensures
            r@ == keys_of(self.entries()),
    {
        Keys::new(self.iter())
    }

    /// The values, in order.
    pub fn values(&self) -> (r: Values<'_, K, V>)
        ensures
            r@ == values_of(self.entries()),
    {
        Values::new(self.iter())
    }

    /// Whether a pair has the key `key`.
    pub fn contains_key(&self, key: &K) -> (r: bool)
        requires
            obeys_concrete_eq::<K>(),
        ensures
            r == self@.contains_key(*key),
    {
        self.get(key).is_some()
    }

    /// The value stored under `key`, if any.
    pub fn get(&self, key: &K) -> (r: Option<&V>)
        requires
            obeys_concrete_eq::<K>(),
        ensures
            r == (if self@.contains_key(*key) { Some(&self@[*key]) } else { None::<&V> }),
    {
        match find_key(&*self.entries, key) {
            Some(i) => {
                proof {
                    lemma_map_of_first(self.entries(), *key, i as int);
                }
                Some(&self.entries[i].1)
            },
            None => None,
        }
    }

    /// The value stored under `key`, if any, open to change.
    pub fn get_mut(&mut self, key: &K) -> (r: Option<&mut V>)
        requires
            obeys_concrete_eq::<K>(),
        ensures
            (*final(final(self).entries))@ == (*final(old(self).entries))@,
            match r {
                Some(v) => {
                    &&& old(self)@.contains_key(*key)
                    &&& *v == old(self)@[*key]
                    &&& final(self).entries() == old(self).entries().update(
                        key_index(old(self).entries(), *key),
                        (*key, *final(v)),
                    )
                },
                None => !old(self)@.contains_key(*key) && final(self).entries() == old(self).entries(),
            },
    {
        match find_key(&*self.entries, key) {
            Some(i) => {
                proof {
                    lemma_map_of_first(self.entries(), *key, i as int);
                    lemma_first_index(self.entries(), *key, i as int);
                    let m = key_index(self.entries(), *key);
                    if m < i {
                        assert(self.entries()[m].0 != *key);
                    } else if i < m {
                        assert(self.entries()[i as int].0 != *key);
                    }
                }
                Some(&mut self.entries[i].1)
            },
            None => None,
        }
    }
}

} // verus!
