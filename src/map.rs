use vstd::laws_eq::obeys_concrete_eq;
use vstd::layout::size_of;
use vstd::prelude::*;
use vstd::std_specs::cmp::PartialEqSpecImpl;

use crate::iter::{move_to_queue, Drain, IntoIter, Iter, IterMut, Keys, Values};
use crate::model::{
    has_key, insert_all, insert_all_entries, insert_entry, is_first_index, lemma_key_index_distinct, lookup, remove_entry, key_index, keys_distinct, keys_of, kept, lemma_first_index,
    lemma_kept_all, lemma_kept_keys, lemma_kept_none, lemma_map_of_absent, lemma_map_of_entry,
    lemma_map_of_first, lemma_map_of_push, lemma_map_of_set_value, lemma_map_of_swap_remove,
    map_of, values_of,
};

verus! {

/// Relies on `Vec::capacity`: the vector holds at least as many slots as elements.
#[verifier::external_body]
fn vec_capacity<T>(v: &Vec<T>) -> (r: usize)
    ensures
        r >= v@.len(),
{
    v.capacity()
}

/// Relies on `Vec::reserve_exact`: the elements stay as they are; it panics only
/// when the new capacity overflows `usize` or exceeds `isize::MAX` bytes.
#[verifier::external_body]
fn vec_reserve_exact<T>(v: &mut Vec<T>, additional: usize)
    requires
        old(v)@.len() + additional <= usize::MAX,
        (old(v)@.len() + additional) * size_of::<T>() <= isize::MAX,
    ensures
        final(v)@ == old(v)@,
{
    v.reserve_exact(additional)
}

/// Relies on `Vec::shrink_to_fit`: the elements stay as they are.
#[verifier::external_body]
fn vec_shrink_to_fit<T>(v: &mut Vec<T>)
    ensures
        final(v)@ == old(v)@,
{
    v.shrink_to_fit()
}

/// Exchanges the elements at `a` and `b` of `v`.
fn swap_elements<T>(v: &mut Vec<T>, a: usize, b: usize)
    requires
        a < b < old(v)@.len(),
    ensures
        final(v)@ == old(v)@.update(a as int, old(v)@[b as int]).update(b as int, old(v)@[a as int]),
{
    let s = v.as_mut_slice();
    let (left, right) = s.split_at_mut(b);
    let (_, mid) = left.split_at_mut(a);
    let x = mid.first_mut().unwrap();
    let y = right.first_mut().unwrap();
    std::mem::swap(x, y);
}

/// `n` where a vector of `n` elements of `T` may be allocated, otherwise zero.
pub(crate) fn fitting_capacity<T>(n: usize) -> (r: usize)
    ensures
        r * size_of::<T>() <= isize::MAX,
        n * size_of::<T>() <= isize::MAX ==> r == n,
{
    let size = std::mem::size_of::<T>();
    if size == 0 {
        return n;
    }
    let limit = (isize::MAX as usize) / size;
    if n <= limit {
        proof {
            let m = isize::MAX as int;
            assert(limit * size <= m) by (nonlinear_arith)
                requires
                    limit == m / (size as int),
                    size > 0,
                    m >= 0,
            ;
            assert(n * size <= limit * size) by (nonlinear_arith)
                requires
                    n <= limit,
                    size >= 0,
            ;
        }
        n
    } else {
        proof {
            let m = isize::MAX as int;
            assert(n * size > m) by (nonlinear_arith)
                requires
                    n > m / (size as int),
                    size > 0,
                    m >= 0,
            ;
        }
        0
    }
}

/// The index of the first pair of `entries` whose key is `key`, if there is one.
pub(crate) fn find_key<K: Eq, V>(entries: &[(K, V)], key: &K) -> (r: Option<usize>)
    ensures
        obeys_concrete_eq::<K>() ==> match r {
            Some(i) => is_first_index(entries@, *key, i as int),
            None => !has_key(entries@, *key),
        },
        r matches Some(i) ==> i < entries@.len(),
{
    let mut i: usize = 0;
    while i < entries.len()
        invariant
            i <= entries@.len(),
            obeys_concrete_eq::<K>() ==> forall|j: int| 0 <= j < i ==> #[trigger] entries@[j].0 != *key,
        decreases entries@.len() - i,
    {
        proof {
            reveal(obeys_concrete_eq);
        }
        if *key == entries[i].0 {
            return Some(i);
        }
        i += 1;
    }
    None
}

/// A map kept as a vector of key-value pairs, searched linearly.
///
/// Keys are compared with `==`; at most one pair carries a given key.
/// Removal moves the last pair into the freed slot, so the order of the
/// pairs is the order of insertion only until the first removal.
#[derive(Debug)]
pub struct LinearMap<K, V> {
    storage: Vec<(K, V)>,
}

impl<K, V> View for LinearMap<K, V> {
    type V = Map<K, V>;

    closed spec fn view(&self) -> Map<K, V> {
        map_of(self.storage@)
    }
}

impl<K, V> LinearMap<K, V> {
    /// The pairs of the map, in storage order.
    pub closed spec fn entries(&self) -> Seq<(K, V)> {
        self.storage@
    }

    /// The map holds no two pairs with the same key.
    pub open spec fn wf(&self) -> bool {
        keys_distinct(self.entries())
    }

    /// The map is the map of its pairs.
    pub proof fn lemma_view(&self)
        ensures
            self@ == map_of(self.entries()),
    {
    }
}

impl<K: Eq, V> LinearMap<K, V> {
    /// Creates an empty map without allocating.
    pub fn new() -> (r: Self)
        ensures
            r.wf(),
            r.entries() == Seq::<(K, V)>::empty(),
            r@ == Map::<K, V>::empty(),
    {
        let r = LinearMap { storage: Vec::new() };
        assert(r@ =~= Map::<K, V>::empty());
        r
    }

    /// Creates an empty map with room for `capacity` pairs.
    pub fn with_capacity(capacity: usize) -> (r: Self)
        requires
            capacity * size_of::<(K, V)>() <= isize::MAX,
        ensures
            r.wf(),
            r.entries() == Seq::<(K, V)>::empty(),
            r@ == Map::<K, V>::empty(),
    {
        let r = LinearMap { storage: Vec::with_capacity(capacity) };
        assert(r@ =~= Map::<K, V>::empty());
        r
    }

    /// The number of pairs the map can hold without reallocating.
    pub fn capacity(&self) -> (r: usize)
        ensures
            r >= self.entries().len(),
    {
        vec_capacity(&self.storage)
    }

    /// Reserves room for at least `additional` more pairs.
    pub fn reserve(&mut self, additional: usize)
        requires
            old(self).entries().len() + additional <= usize::MAX,
            (old(self).entries().len() + additional) * size_of::<(K, V)>() <= isize::MAX,
        ensures
            final(self).entries() == old(self).entries(),
    {
        self.storage.reserve(additional);
    }

    /// Reserves room for exactly `additional` more pairs, as far as the allocator allows.
    pub fn reserve_exact(&mut self, additional: usize)
        requires
            old(self).entries().len() + additional <= usize::MAX,
            (old(self).entries().len() + additional) * size_of::<(K, V)>() <= isize::MAX,
        ensures
            final(self).entries() == old(self).entries(),
    {
        vec_reserve_exact(&mut self.storage, additional);
    }

    /// Gives back unused room, as far as the allocator allows.
    pub fn shrink_to_fit(&mut self)
        ensures
            final(self).entries() == old(self).entries(),
    {
        vec_shrink_to_fit(&mut self.storage);
    }

    /// The number of pairs in the map.
    pub fn len(&self) -> (r: usize)
        ensures
            r == self.entries().len(),
    {
        self.storage.len()
    }

    /// Whether the map holds no pair.
    pub fn is_empty(&self) -> (r: bool)
        ensures
            r == (self.entries().len() == 0),
            r == (self@ == Map::<K, V>::empty()),
    {
        proof {
            if self.storage@.len() > 0 {
                assert(self@.contains_key(self.storage@[0].0));
            } else {
                assert(self@ =~= Map::<K, V>::empty());
            }
        }
        self.storage.is_empty()
    }

    /// Removes every pair, keeping the allocation.
    pub fn clear(&mut self)
        ensures
            final(self).wf(),
            final(self).entries() == Seq::<(K, V)>::empty(),
            final(self)@ == Map::<K, V>::empty(),
    {
        self.storage.clear();
        assert(self@ =~= Map::<K, V>::empty());
    }

    /// Keeps the pairs for which `keep_fn` returns `true`, in their order,
    /// and drops the others. Each pair is offered to `keep_fn` once, in storage order.
    pub fn retain<F: Fn(&K, &V) -> bool>(&mut self, keep_fn: F)
        requires
            forall|k: &K, v: &V| #[trigger] keep_fn.requires((k, v)),
        ensures
            exists|keep: Seq<bool>|
                {
                    &&& keep.len() == old(self).entries().len()
                    &&& forall|i: int|
                        0 <= i < keep.len() ==> keep_fn.ensures(
                            (&old(self).entries()[i].0, &old(self).entries()[i].1),
                            #[trigger] keep[i],
                        )
                    &&& final(self).entries() == kept(old(self).entries(), keep)
                },
            old(self).wf() ==> final(self).wf(),
            (forall|k: &K, v: &V, b: bool| keep_fn.ensures((k, v), b) ==> b) ==> final(self).entries()
                == old(self).entries(),
            (forall|k: &K, v: &V, b: bool| keep_fn.ensures((k, v), b) ==> !b) ==> final(self).entries()
                == Seq::<(K, V)>::empty(),
    {
        let ghost s = self.storage@;
        let ghost mut keep: Seq<bool> = Seq::empty();
        let n = self.storage.len();
        let mut del: usize = 0;
        let mut i: usize = 0;
        while i < n
            invariant
                n == s.len(),
                self.storage@.len() == n,
                del <= i <= n,
                keep.len() == i,
                forall|j: int|
                    0 <= j < i ==> keep_fn.ensures((&s[j].0, &s[j].1), #[trigger] keep[j]),
                self.storage@.subrange(0, i - del) == kept(s.subrange(0, i as int), keep),
                self.storage@.subrange(i as int, n as int) == s.subrange(i as int, n as int),
                forall|k: &K, v: &V| #[trigger] keep_fn.requires((k, v)),
            decreases n - i,
        {
            assert(self.storage@[i as int] == s[i as int]) by {
                assert(self.storage@.subrange(i as int, n as int)[0] == s.subrange(i as int, n as int)[0]);
            }
            let b = keep_fn(&self.storage[i].0, &self.storage[i].1);
            let ghost prev = self.storage@;
            proof {
                let old_keep = keep;
                keep = keep.push(b);
                lemma_kept_prefix_flags(s.subrange(0, i as int), old_keep, keep);
                assert(s.subrange(0, i + 1).drop_last() =~= s.subrange(0, i as int));
                assert(s.subrange(0, i + 1).last() == s[i as int]);
            }
            if !b {
                del += 1;
            } else if del > 0 {
                swap_elements(&mut self.storage, i - del, i);
            }
            proof {
                assert(self.storage@.subrange(0, (i + 1) - del) =~= kept(s.subrange(0, i + 1), keep));
                assert(self.storage@.subrange(i + 1, n as int) =~= s.subrange(i + 1, n as int)) by {
                    assert forall|j: int| 0 <= j < n - (i + 1) implies #[trigger] self.storage@.subrange(i + 1, n as int)[j] == s.subrange(i + 1, n as int)[j] by {
                        assert(prev.subrange(i as int, n as int)[j + 1] == s.subrange(i as int, n as int)[j + 1]);
                    }
                }
            }
            i += 1;
        }
        if del > 0 {
            self.storage.truncate(n - del);
        }
        proof {
            assert(s.subrange(0, n as int) =~= s);
            assert(self.storage@ =~= kept(s, keep));
            if keys_distinct(s) {
                lemma_kept_keys(s, keep);
            }
            if forall|k: &K, v: &V, b: bool| keep_fn.ensures((k, v), b) ==> b {
                assert forall|j: int| 0 <= j < s.len() implies #[trigger] keep[j] by {
                    assert(keep_fn.ensures((&s[j].0, &s[j].1), keep[j]));
                }
                lemma_kept_all(s, keep);
            }
            if forall|k: &K, v: &V, b: bool| keep_fn.ensures((k, v), b) ==> !b {
                assert forall|j: int| 0 <= j < s.len() implies !#[trigger] keep[j] by {
                    assert(keep_fn.ensures((&s[j].0, &s[j].1), keep[j]));
                }
                lemma_kept_none(s, keep);
            }
        }
    }

    /// Removes every pair and hands them out, in storage order.
    ///
    /// The map is empty as soon as this returns, whether or not the pairs are
    /// ever taken from the handle.
    pub fn drain(&mut self) -> (r: Drain<K, V>)
        ensures
            r@ == old(self).entries(),
            final(self).wf(),
            final(self).entries() == Seq::<(K, V)>::empty(),
            final(self)@ == Map::<K, V>::empty(),
    {
        let r = Drain::take_all(&mut self.storage);
        assert(self@ =~= Map::<K, V>::empty());
        r
    }

    /// The pairs, by reference, in storage order.
    pub fn iter(&self) -> (r: Iter<'_, K, V>)
        ensures
            r@ == self.entries(),
    {
        Iter::new(self.storage.as_slice())
    }

    /// The pairs in storage order, with the values open to change.
    pub fn iter_mut(&mut self) -> (r: IterMut<'_, K, V>)
        ensures
            r.rest is Some,
            (*r.rest->Some_0)@ == old(self).entries(),
            final(self).entries() == (*final(r.rest->Some_0))@,
    {
        IterMut::new(self.storage.as_mut_slice())
    }

    /// The pairs as a slice, in storage order.
    pub fn as_slice(&self) -> (r: &[(K, V)])
        ensures
            r@ == self.entries(),
    {
        self.storage.as_slice()
    }

    /// The keys, in storage order.
    pub fn keys(&self) -> (r: Keys<'_, K, V>)
        ensures
            r@ == keys_of(self.entries()),
    {
        Keys::new(self.iter())
    }

    /// The values, in storage order.
    pub fn values(&self) -> (r: Values<'_, K, V>)
        ensures
            r@ == values_of(self.entries()),
    {
        Values::new(self.iter())
    }

    /// The index of the first pair whose key is `key`, if there is one.
    fn position(&self, key: &K) -> (r: Option<usize>)
        ensures
            obeys_concrete_eq::<K>() ==> match r {
                Some(i) => is_first_index(self.entries(), *key, i as int),
                None => !has_key(self.entries(), *key),
            },
            r matches Some(i) ==> i < self.entries().len(),
    {
        find_key(self.storage.as_slice(), key)
    }

    /// The value stored under `key`, if any.
    pub fn get(&self, key: &K) -> (r: Option<&V>)
        requires
            obeys_concrete_eq::<K>(),
        ensures
            r == (if self@.contains_key(*key) { Some(&self@[*key]) } else { None::<&V> }),
    {
        match self.position(key) {
            Some(i) => {
                proof {
                    lemma_map_of_first(self.storage@, *key, i as int);
                }
                Some(&self.storage[i].1)
            },
            None => None,
        }
    }

    /// The value stored under `key`, if any, open to change.
    pub fn get_mut(&mut self, key: &K) -> (r: Option<&mut V>)
        requires
            obeys_concrete_eq::<K>(),
        ensures
            match r {
                Some(v) => {
                    &&& old(self)@.contains_key(*key)
                    &&& *v == old(self)@[*key]
                    &&& final(self).entries() == old(self).entries().update(
                        key_index(old(self).entries(), *key),
                        (*key, *final(v)),
                    )
                },
                None => !old(self)@.contains_key(*key) && *final(self) == *old(self),
            },
    {
        match self.position(key) {
            Some(i) => {
                proof {
                    lemma_map_of_first(self.storage@, *key, i as int);
                    lemma_first_is_key_index(self.storage@, *key, i as int);
                }
                Some(&mut self.storage[i].1)
            },
            None => None,
        }
    }

    /// Whether a pair has the key `key`.
    pub fn contains_key(&self, key: &K) -> (r: bool)
        requires
            obeys_concrete_eq::<K>(),
        ensures
            r == self@.contains_key(*key),
    {
        self.get(key).is_some()
    }

    /// The value stored under `key`, which must be present.
    pub fn index(&self, key: &K) -> (r: &V)
        requires
            obeys_concrete_eq::<K>(),
            self@.contains_key(*key),
        ensures
            *r == self@[*key],
    {
        self.get(key).unwrap()
    }

    /// Inserts `value` under `key`; returns the value it replaces, if any.
    ///
    /// Where the key is present, the stored key is kept and only the value changes;
    /// otherwise the pair is appended.
    pub fn insert(&mut self, key: K, value: V) -> (r: Option<V>)
        requires
            obeys_concrete_eq::<K>(),
            old(self).wf(),
        ensures
            final(self).wf(),
            final(self)@ == old(self)@.insert(key, value),
            r == lookup(old(self)@, key),
            final(self).entries() == insert_entry(old(self).entries(), key, value),
            final(self).entries().len() == old(self).entries().len() + (if r is Some { 0int } else { 1int }),
    {
        let ghost s = self.storage@;
        let ghost k = key;
        let ghost v = value;
        match self.entry(key) {
            Entry::Occupied(mut e) => {
                proof {
                    lemma_map_of_entry(s, e.index as int);
                    lemma_map_of_set_value(s, e.index as int, v);
                    lemma_key_index_distinct(s, e.index as int);
                }
                Some(e.insert(value))
            },
            Entry::Vacant(e) => {
                proof {
                    lemma_map_of_absent(s, k);
                    lemma_map_of_push(s, k, v);
                }
                e.insert(value);
                None
            },
        }
    }

    /// Removes the pair with key `key` and returns its value, if there is one.
    ///
    /// The last pair moves into the freed slot.
    pub fn remove(&mut self, key: &K) -> (r: Option<V>)
        requires
            obeys_concrete_eq::<K>(),
            old(self).wf(),
        ensures
            final(self).wf(),
            final(self)@ == old(self)@.remove(*key),
            r == lookup(old(self)@, *key),
            final(self).entries() == remove_entry(old(self).entries(), *key),
            final(self).entries().len() == old(self).entries().len() - (if r is Some { 1int } else { 0int }),
    {
        let ghost s = self.storage@;
        match self.position(key) {
            Some(i) => {
                proof {
                    lemma_map_of_entry(s, i as int);
                    lemma_map_of_swap_remove(s, i as int);
                    lemma_key_index_distinct(s, i as int);
                }
                Some(self.storage.swap_remove(i).1)
            },
            None => {
                proof {
                    lemma_map_of_absent(s, *key);
                    assert(map_of(s) =~= map_of(s).remove(*key));
                }
                None
            },
        }
    }

    /// Returns the slot for `key`, occupied or vacant, found in one scan.
    pub fn entry<'a>(&'a mut self, key: K) -> (r: Entry<'a, K, V>)
        requires
            obeys_concrete_eq::<K>(),
            old(self).wf(),
        ensures
            r.wf(),
            r.key() == key,
            r.current() == *old(self),
            match r {
                Entry::Occupied(e) => *final(e.map) == *final(self),
                Entry::Vacant(e) => *final(e.map) == *final(self),
            },
            r is Occupied <==> old(self)@.contains_key(key),
    {
        match self.position(&key) {
            None => Entry::Vacant(VacantEntry { map: self, key }),
            Some(index) => Entry::Occupied(OccupiedEntry { map: self, index }),
        }
    }

    /// Inserts each of `pairs` in turn, as `insert` does.
    pub fn extend(&mut self, pairs: Vec<(K, V)>)
        requires
            obeys_concrete_eq::<K>(),
            old(self).wf(),
        ensures
            final(self).wf(),
            final(self)@ == insert_all(old(self)@, pairs@),
            final(self).entries() == insert_all_entries(old(self).entries(), pairs@),
    {
        let ghost all = pairs@;
        let ghost start_entries = self.entries();
        let n = pairs.len();
        let mut pairs = pairs;
        let mut queue = move_to_queue(&mut pairs);
        let ghost start = self@;
        let mut done: usize = 0;
        while queue.len() > 0
            invariant
                obeys_concrete_eq::<K>(),
                self.wf(),
                done + queue@.len() == all.len(),
                all.len() == n,
                queue@ == all.subrange(done as int, all.len() as int),
                self@ == insert_all(start, all.subrange(0, done as int)),
                self.entries() == insert_all_entries(start_entries, all.subrange(0, done as int)),
            decreases queue@.len(),
        {
            let ghost rest = queue@;
            let (k, v) = queue.pop_front().unwrap();
            proof {
                assert(rest[0] == all[done as int]);
                assert(all.subrange(0, done + 1).drop_last() =~= all.subrange(0, done as int));
            }
            self.insert(k, v);
            done += 1;
            assert(queue@ =~= all.subrange(done as int, all.len() as int));
        }
        assert(all.subrange(0, all.len() as int) =~= all);
    }

    /// A map holding `pairs` inserted in turn, made with room for all of them.
    pub fn from_pairs(pairs: Vec<(K, V)>) -> (r: Self)
        requires
            obeys_concrete_eq::<K>(),
        ensures
            r.wf(),
            r@ == insert_all(Map::<K, V>::empty(), pairs@),
            r.entries() == insert_all_entries(Seq::<(K, V)>::empty(), pairs@),
    {
        let mut r = LinearMap::with_capacity(fitting_capacity::<(K, V)>(pairs.len()));
        r.extend(pairs);
        r
    }

    /// A map over the pairs of `pairs`, kept in their order; their keys must be distinct.
    pub fn from_vec(pairs: Vec<(K, V)>) -> (r: Self)
        requires
            keys_distinct(pairs@),
        ensures
            r.wf(),
            r.entries() == pairs@,
    {
        LinearMap { storage: pairs }
    }

    /// A map over `storage` as it stands.
    pub(crate) fn from_storage(storage: Vec<(K, V)>) -> (r: Self)
        ensures
            r.entries() == storage@,
    {
        LinearMap { storage }
    }

    /// Consumes the map and returns its pairs, in storage order.
    pub fn into_vec(self) -> (r: Vec<(K, V)>)
        ensures
            r@ == self.entries(),
    {
        self.storage
    }

    /// Consumes the map and hands out its pairs, in storage order.
    pub fn into_iter(self) -> (r: IntoIter<K, V>)
        ensures
            r@ == self.entries(),
    {
        let mut storage = self.storage;
        IntoIter::take_all(&mut storage)
    }
}

/// The first index of a key is the one that `key_index` names.
proof fn lemma_first_is_key_index<K, V>(s: Seq<(K, V)>, k: K, i: int)
    requires
        is_first_index(s, k, i),
    ensures
        key_index(s, k) == i,
{
    lemma_first_index(s, k, i);
    let m = key_index(s, k);
    if m < i {
        assert(s[m].0 != k);
    } else if i < m {
        assert(s[i].0 != k);
    }
}

/// Flags past the end of a sequence do not change what is kept.
proof fn lemma_kept_prefix_flags<T>(s: Seq<T>, a: Seq<bool>, b: Seq<bool>)
    requires
        a.len() >= s.len(),
        b.len() >= s.len(),
        forall|j: int| 0 <= j < s.len() ==> a[j] == b[j],
    ensures
        kept(s, a) == kept(s, b),
    decreases s.len(),
{
    if s.len() > 0 {
        lemma_kept_prefix_flags(s.drop_last(), a, b);
    }
}

impl<K: Clone, V: Clone> Clone for LinearMap<K, V> {
    fn clone(&self) -> (r: Self)
        ensures
            r.entries().len() == self.entries().len(),
            forall|i: int|
                0 <= i < self.entries().len() ==> cloned::<(K, V)>(
                    self.entries()[i],
                    #[trigger] r.entries()[i],
                ),
    {
        LinearMap { storage: self.storage.clone() }
    }
}

impl<K: Eq, V> Default for LinearMap<K, V> {
    fn default() -> (r: Self)
        ensures
            r.wf(),
            r@ == Map::<K, V>::empty(),
    {
        Self::new()
    }
}

/// `a` and `b` have as many pairs, and each pair of `a` is found in `b`.
pub open spec fn same_pairs<K, V>(a: Seq<(K, V)>, b: Seq<(K, V)>) -> bool {
    &&& a.len() == b.len()
    &&& forall|i: int|
        0 <= i < a.len() ==> map_of(b).contains_key(#[trigger] a[i].0) && map_of(b)[a[i].0] == a[i].1
}

/// Whether `a` and `b` have as many pairs and each pair of `a` is found in `b`.
pub(crate) fn pairs_agree<K: Eq, V: PartialEq>(a: &[(K, V)], b: &[(K, V)]) -> (r: bool)
    ensures
        obeys_concrete_eq::<K>() && obeys_concrete_eq::<V>() ==> r == same_pairs(a@, b@),
{
    if a.len() != b.len() {
        return false;
    }
    let mut i: usize = 0;
    while i < a.len()
        invariant
            i <= a@.len(),
            a@.len() == b@.len(),
            (obeys_concrete_eq::<K>() && obeys_concrete_eq::<V>()) ==> forall|j: int|
                0 <= j < i ==> map_of(b@).contains_key(#[trigger] a@[j].0) && map_of(b@)[a@[j].0]
                    == a@[j].1,
        decreases a@.len() - i,
    {
        proof {
            reveal(obeys_concrete_eq);
        }
        match find_key(b, &a[i].0) {
            None => {
                return false;
            },
            Some(j) => {
                proof {
                    if obeys_concrete_eq::<K>() && obeys_concrete_eq::<V>() {
                        lemma_map_of_first(b@, a@[i as int].0, j as int);
                    }
                }
                if !(b[j].1 == a[i].1) {
                    return false;
                }
            },
        }
        i += 1;
    }
    true
}

impl<K: Eq, V: PartialEq> PartialEq for LinearMap<K, V> {
    fn eq(&self, other: &Self) -> (r: bool) {
        pairs_agree(self.storage.as_slice(), other.storage.as_slice())
    }
}

impl<K: Eq, V: PartialEq> PartialEqSpecImpl for LinearMap<K, V> {
    open spec fn obeys_eq_spec() -> bool {
        obeys_concrete_eq::<K>() && obeys_concrete_eq::<V>()
    }

    open spec fn eq_spec(&self, other: &Self) -> bool {
        same_pairs(self.entries(), other.entries())
    }
}

impl<K: Eq, V: Eq> Eq for LinearMap<K, V> {

}

/// A slot of a `LinearMap` that holds a pair.
///
/// The fields are public so that contracts can speak of the borrowed map;
/// only `LinearMap::entry` builds a slot.
#[non_exhaustive]
pub struct OccupiedEntry<'a, K, V> {
    /// The map the slot belongs to.
    pub map: &'a mut LinearMap<K, V>,
    /// The index of the pair in the map's storage.
    pub index: usize,
}

/// A slot of a `LinearMap` for a key that it does not hold.
///
/// The fields are public so that contracts can speak of the borrowed map;
/// only `LinearMap::entry` builds a slot.
#[non_exhaustive]
pub struct VacantEntry<'a, K, V> {
    /// The map the slot belongs to.
    pub map: &'a mut LinearMap<K, V>,
    /// The key that waits to be stored.
    pub key: K,
}

/// The slot of a `LinearMap` for one key.
pub enum Entry<'a, K, V> {
    /// The key is present.
    Occupied(OccupiedEntry<'a, K, V>),
    /// The key is absent.
    Vacant(VacantEntry<'a, K, V>),
}

impl<'a, K, V> OccupiedEntry<'a, K, V> {
    /// The map as it is now.
    pub open spec fn current(&self) -> LinearMap<K, V> {
        *self.map
    }

    /// The index of the pair in the map's storage.
    pub open spec fn index(&self) -> int {
        self.index as int
    }

    /// The pair's key.
    pub open spec fn key(&self) -> K {
        self.current().entries()[self.index()].0
    }

    /// The pair's value.
    pub open spec fn value(&self) -> V {
        self.current().entries()[self.index()].1
    }

    /// The slot points at a pair of a well-formed map.
    pub open spec fn wf(&self) -> bool {
        &&& self.current().wf()
        &&& 0 <= self.index() < self.current().entries().len()
    }

    /// The map's pairs once the slot holds `v`.
    pub open spec fn with_value(&self, v: V) -> Seq<(K, V)> {
        self.current().entries().update(self.index(), (self.key(), v))
    }

    /// The pair's value.
    pub fn get(&self) -> (r: &V)
        requires
            self.wf(),
        ensures
            *r == self.value(),
    {
        &self.map.storage[self.index].1
    }

    /// The pair's value, open to change for as long as the slot is borrowed.
    pub fn get_mut(&mut self) -> (r: &mut V)
        requires
            old(self).wf(),
        ensures
            *r == old(self).value(),
            final(self).index == old(self).index,
            final(self).current().entries() == old(self).with_value(*final(r)),
            *final(final(self).map) == *final(old(self).map),
    {
        &mut self.map.storage[self.index].1
    }

    /// The pair's value, open to change for as long as the map is borrowed.
    pub fn into_mut(self) -> (r: &'a mut V)
        requires
            self.wf(),
        ensures
            *r == self.value(),
            (*final(self.map)).entries() == self.with_value(*final(r)),
    {
        let OccupiedEntry { map, index } = self;
        &mut map.storage[index].1
    }

    /// Replaces the value and returns the one it held.
    pub fn insert(&mut self, value: V) -> (r: V)
        requires
            old(self).wf(),
        ensures
            final(self).wf(),
            r == old(self).value(),
            final(self).index == old(self).index,
            final(self).current().entries() == old(self).with_value(value),
            *final(final(self).map) == *final(old(self).map),
    {
        let ghost s = self.map.storage@;
        proof {
            lemma_map_of_set_value(s, self.index as int, value);
        }
        let slot = &mut self.map.storage[self.index];
        let mut r = value;
        std::mem::swap(&mut slot.1, &mut r);
        r
    }

    /// Removes the pair and returns its value; the last pair moves into its slot.
    pub fn remove(self) -> (r: V)
        requires
            self.wf(),
        ensures
            r == self.value(),
            (*final(self.map)).entries() == self.current().entries().update(
                self.index(),
                self.current().entries().last(),
            ).drop_last(),
    {
        let OccupiedEntry { map, index } = self;
        map.storage.swap_remove(index).1
    }
}

impl<'a, K, V> VacantEntry<'a, K, V> {
    /// The map as it is now.
    pub open spec fn current(&self) -> LinearMap<K, V> {
        *self.map
    }

    /// The slot's key is absent from a well-formed map.
    pub open spec fn wf(&self) -> bool {
        &&& self.current().wf()
        &&& !has_key(self.current().entries(), self.key)
    }

    /// The map's pairs once the slot holds `v`.
    pub open spec fn with_value(&self, v: V) -> Seq<(K, V)> {
        self.current().entries().push((self.key, v))
    }

    /// Appends the pending key with `value`; returns a reference to the stored value.
    pub fn insert(self, value: V) -> (r: &'a mut V)
        requires
            self.wf(),
        ensures
            *r == value,
            (*final(self.map)).entries() == self.with_value(*final(r)),
    {
        let VacantEntry { map, key } = self;
        map.storage.push((key, value));
        let n = map.storage.len() - 1;
        &mut map.storage[n].1
    }
}

impl<'a, K, V> Entry<'a, K, V> {
    /// The key of the slot.
    pub open spec fn key(&self) -> K {
        match self {
            Entry::Occupied(e) => e.key(),
            Entry::Vacant(e) => e.key,
        }
    }

    /// The value the slot holds, if occupied.
    pub open spec fn value(&self) -> Option<V> {
        match self {
            Entry::Occupied(e) => Some(e.value()),
            Entry::Vacant(_) => None,
        }
    }

    /// The map as it is now.
    pub open spec fn current(&self) -> LinearMap<K, V> {
        match self {
            Entry::Occupied(e) => e.current(),
            Entry::Vacant(e) => e.current(),
        }
    }

    /// The slot is well formed.
    pub open spec fn wf(&self) -> bool {
        match self {
            Entry::Occupied(e) => e.wf(),
            Entry::Vacant(e) => e.wf(),
        }
    }

    /// The map's pairs once the slot holds `v`.
    pub open spec fn with_value(&self, v: V) -> Seq<(K, V)> {
        match self {
            Entry::Occupied(e) => e.with_value(v),
            Entry::Vacant(e) => e.with_value(v),
        }
    }

    /// Makes sure the slot holds a value, storing `default` if it is vacant;
    /// returns a reference to the value.
    pub fn or_insert(self, default: V) -> (r: &'a mut V)
        requires
            self.wf(),
        ensures
            *r == (match self.value() {
                Some(v) => v,
                None => default,
            }),
            match self {
                Entry::Occupied(e) => (*final(e.map)).entries() == e.with_value(*final(r)),
                Entry::Vacant(e) => (*final(e.map)).entries() == e.with_value(*final(r)),
            },
    {
        match self {
            Entry::Occupied(e) => e.into_mut(),
            Entry::Vacant(e) => e.insert(default),
        }
    }

    /// Makes sure the slot holds a value, storing what `default` returns if it
    /// is vacant; `default` runs only then. Returns a reference to the value.
    pub fn or_insert_with<F: FnOnce() -> V>(self, default: F) -> (r: &'a mut V)
        requires
            self.wf(),
            default.requires(()),
        ensures
            match self.value() {
                Some(v) => *r == v,
                None => default.ensures((), *r),
            },
            match self {
                Entry::Occupied(e) => (*final(e.map)).entries() == e.with_value(*final(r)),
                Entry::Vacant(e) => (*final(e.map)).entries() == e.with_value(*final(r)),
            },
    {
        match self {
            Entry::Occupied(e) => e.into_mut(),
            Entry::Vacant(e) => e.insert(default()),
        }
    }
}

} // verus!
