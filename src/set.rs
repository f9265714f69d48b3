use vstd::laws_eq::obeys_concrete_eq;
use vstd::layout::size_of;
use vstd::prelude::*;
use vstd::std_specs::cmp::PartialEqSpecImpl;

use crate::iter::{self, move_to_queue};
use crate::map::{find_key, LinearMap};
use crate::model::{add_all, has_key, keys_of, kept, lemma_keys_of_kept, lemma_kept_all, lemma_kept_none, lemma_map_of_first};

verus! {

/// A set kept as a vector of elements, searched linearly: a `LinearMap`
/// whose values are `()`.
#[derive(Debug)]
pub struct LinearSet<T> {
    map: LinearMap<T, ()>,
}

impl<T> View for LinearSet<T> {
    type V = Set<T>;

    closed spec fn view(&self) -> Set<T> {
        self.map@.dom()
    }
}

impl<T> LinearSet<T> {
    /// The elements, in storage order.
    pub closed spec fn elements(&self) -> Seq<T> {
        keys_of(self.map.entries())
    }

    /// No element is stored twice.
    pub closed spec fn wf(&self) -> bool {
        self.map.wf()
    }

    /// An element is in the set exactly when it is stored; a well-formed set
    /// stores each element once.
    pub proof fn lemma_view(&self)
        ensures
            forall|x: T| self@.contains(x) <==> self.elements().contains(x),
            self.wf() ==> self.elements().no_duplicates(),
            self.wf() ==> self@.finite() && self@.len() == self.elements().len(),
    {
        let s = self.map.entries();
        self.map.lemma_view();
        assert forall|x: T| self@.contains(x) <==> self.elements().contains(x) by {
            if self@.contains(x) {
                let i = choose|i: int| 0 <= i < s.len() && #[trigger] s[i].0 == x;
                assert(self.elements()[i] == x);
            }
            if self.elements().contains(x) {
                let i = choose|i: int| 0 <= i < self.elements().len() && #[trigger] self.elements()[i] == x;
                assert(s[i].0 == x);
            }
        }
        if self.wf() {
            assert forall|i: int, j: int| 0 <= i < self.elements().len() && 0 <= j < self.elements().len() && i != j implies self.elements()[i] != self.elements()[j] by {
                assert(s[i].0 != s[j].0);
            }
            crate::model::lemma_map_of_len(s);
        }
    }
}

impl<T: Eq> LinearSet<T> {
    /// Creates an empty set without allocating.
    pub fn new() -> (r: Self)
        ensures
            r.wf(),
            r.elements() == Seq::<T>::empty(),
            r@ == Set::<T>::empty(),
    {
        let r = LinearSet { map: LinearMap::new() };
        assert(r.elements() =~= Seq::<T>::empty());
        assert(r@ =~= Set::<T>::empty());
        r
    }

    /// Creates an empty set with room for `capacity` elements.
    pub fn with_capacity(capacity: usize) -> (r: Self)
        requires
            capacity * size_of::<(T, ())>() <= isize::MAX,
        ensures
            r.wf(),
            r.elements() == Seq::<T>::empty(),
            r@ == Set::<T>::empty(),
    {
        let r = LinearSet { map: LinearMap::with_capacity(capacity) };
        assert(r.elements() =~= Seq::<T>::empty());
        assert(r@ =~= Set::<T>::empty());
        r
    }

    /// The number of elements the set can hold without reallocating.
    pub fn capacity(&self) -> (r: usize)
        ensures
            r >= self.elements().len(),
    {
        self.map.capacity()
    }

    /// Reserves room for at least `additional` more elements.
    pub fn reserve(&mut self, additional: usize)
        requires
            old(self).elements().len() + additional <= usize::MAX,
            (old(self).elements().len() + additional) * size_of::<(T, ())>() <= isize::MAX,
        ensures
            final(self).elements() == old(self).elements(),
            final(self)@ == old(self)@,
            final(self).wf() == old(self).wf(),
    {
        self.map.reserve(additional);
        proof {
            old(self).map.lemma_view();
            self.map.lemma_view();
        }
    }

    /// Gives back unused room, as far as the allocator allows.
    pub fn shrink_to_fit(&mut self)
        ensures
            final(self).elements() == old(self).elements(),
            final(self)@ == old(self)@,
            final(self).wf() == old(self).wf(),
    {
        self.map.shrink_to_fit();
        proof {
            old(self).map.lemma_view();
            self.map.lemma_view();
        }
    }

    /// The elements, by reference, in storage order.
    pub fn iter(&self) -> (r: Iter<'_, T>)
        ensures
            r@ == self.elements(),
    {
        Iter { iter: self.map.keys() }
    }

    /// The elements of `self` that are not in `other`, in storage order.
    pub fn difference<'a>(&'a self, other: &'a LinearSet<T>) -> (r: Difference<'a, T>)
        ensures
            r@ == self.elements().filter(|x: T| !other@.contains(x)),
    {
        Difference { iter: self.iter(), other }
    }

    /// The elements in exactly one of `self` and `other`: first those of
    /// `self`, then those of `other`.
    pub fn symmetric_difference<'a>(&'a self, other: &'a LinearSet<T>) -> (r: SymmetricDifference<'a, T>)
        ensures
            r@ == self.elements().filter(|x: T| !other@.contains(x)) + other.elements().filter(
                |x: T| !self@.contains(x),
            ),
    {
        SymmetricDifference { first: self.difference(other), second: other.difference(self) }
    }

    /// The elements of `self` that are also in `other`, in storage order.
    pub fn intersection<'a>(&'a self, other: &'a LinearSet<T>) -> (r: Intersection<'a, T>)
        ensures
            r@ == self.elements().filter(|x: T| other@.contains(x)),
    {
        Intersection { iter: self.iter(), other }
    }

    /// The elements of `self`, then those of `other` that are not in `self`.
    pub fn union<'a>(&'a self, other: &'a LinearSet<T>) -> (r: Union<'a, T>)
        ensures
            r@ == self.elements() + other.elements().filter(|x: T| !self@.contains(x)),
    {
        Union { first: self.iter(), second: other.difference(self) }
    }

    /// The number of elements.
    pub fn len(&self) -> (r: usize)
        ensures
            r == self.elements().len(),
    {
        self.map.len()
    }

    /// Whether the set has no element.
    pub fn is_empty(&self) -> (r: bool)
        ensures
            r == (self.elements().len() == 0),
            r == (self@ == Set::<T>::empty()),
    {
        let r = self.map.is_empty();
        proof {
            if !r {
                assert(!(self.map@ == Map::<T, ()>::empty()));
                assert(self.map.entries().len() > 0);
                crate::model::lemma_map_of_first(self.map.entries(), self.map.entries()[0].0, 0);
                self.map.lemma_view();
                assert(self@.contains(self.map.entries()[0].0));
            } else {
                assert(self@ =~= Set::<T>::empty());
            }
        }
        r
    }

    /// Removes every element and hands them out, in storage order.
    pub fn drain(&mut self) -> (r: Drain<T>)
        ensures
            r@ == old(self).elements(),
            final(self).wf(),
            final(self).elements() == Seq::<T>::empty(),
            final(self)@ == Set::<T>::empty(),
    {
        let r = Drain { iter: self.map.drain() };
        assert(self.elements() =~= Seq::<T>::empty());
        assert(self@ =~= Set::<T>::empty());
        r
    }

    /// Removes every element, keeping the allocation.
    pub fn clear(&mut self)
        ensures
            final(self).wf(),
            final(self).elements() == Seq::<T>::empty(),
            final(self)@ == Set::<T>::empty(),
    {
        self.map.clear();
        assert(self.elements() =~= Seq::<T>::empty());
        assert(self@ =~= Set::<T>::empty());
    }

    /// Keeps the elements for which `f` returns `true`, in their order.
    /// Each element is offered to `f` once, in storage order.
    pub fn retain<F: Fn(&T) -> bool>(&mut self, f: F)
        requires
            forall|x: &T| #[trigger] f.requires((x,)),
        ensures
            exists|keep: Seq<bool>|
                {
                    &&& keep.len() == old(self).elements().len()
                    &&& forall|i: int|
                        0 <= i < keep.len() ==> f.ensures((&old(self).elements()[i],), #[trigger] keep[i])
                    &&& final(self).elements() == kept(old(self).elements(), keep)
                },
            old(self).wf() ==> final(self).wf(),
            (forall|x: &T, b: bool| f.ensures((x,), b) ==> b) ==> final(self).elements() == old(
                self,
            ).elements(),
            (forall|x: &T, b: bool| f.ensures((x,), b) ==> !b) ==> final(self).elements() == Seq::<
                T,
            >::empty(),
    {
        let ghost s = self.map.entries();
        let f_ref = &f;
        let keep_fn = |k: &T, _v: &()| -> (b: bool)
            requires
                f_ref.requires((k,)),
            ensures
                f_ref.ensures((k,), b),
            { f_ref(k) };
        self.map.retain(keep_fn);
        proof {
            let keep = choose|keep: Seq<bool>|
                {
                    &&& keep.len() == s.len()
                    &&& forall|i: int|
                        0 <= i < keep.len() ==> keep_fn.ensures((&s[i].0, &s[i].1), #[trigger] keep[i])
                    &&& self.map.entries() == kept(s, keep)
                };
            lemma_keys_of_kept(s, keep);
            assert forall|i: int| 0 <= i < keep.len() implies f.ensures((&keys_of(s)[i],), #[trigger] keep[i]) by {
                assert(keep_fn.ensures((&s[i].0, &s[i].1), keep[i]));
            }
            if forall|x: &T, b: bool| f.ensures((x,), b) ==> b {
                assert forall|i: int| 0 <= i < keys_of(s).len() implies #[trigger] keep[i] by {
                    assert(f.ensures((&keys_of(s)[i],), keep[i]));
                }
                lemma_kept_all(keys_of(s), keep);
            }
            if forall|x: &T, b: bool| f.ensures((x,), b) ==> !b {
                assert forall|i: int| 0 <= i < keys_of(s).len() implies !#[trigger] keep[i] by {
                    assert(f.ensures((&keys_of(s)[i],), keep[i]));
                }
                lemma_kept_none(keys_of(s), keep);
            }
        }
    }

    /// Whether `value` is in the set.
    pub fn contains(&self, value: &T) -> (r: bool)
        requires
            obeys_concrete_eq::<T>(),
        ensures
            r == self@.contains(*value),
    {
        self.map.contains_key(value)
    }

    /// Whether no element of `self` is in `other`.
    pub fn is_disjoint(&self, other: &LinearSet<T>) -> (r: bool)
        requires
            obeys_concrete_eq::<T>(),
        ensures
            r == self@.disjoint(other@),
    {
        let r = self.all_in(other, false);
        proof {
            self.lemma_view();
        }
        r
    }

    /// Whether every element of `self` is in `other`.
    pub fn is_subset(&self, other: &LinearSet<T>) -> (r: bool)
        requires
            obeys_concrete_eq::<T>(),
        ensures
            r == self@.subset_of(other@),
    {
        let r = self.all_in(other, true);
        proof {
            self.lemma_view();
        }
        r
    }

    /// Whether every element of `other` is in `self`.
    pub fn is_superset(&self, other: &LinearSet<T>) -> (r: bool)
        requires
            obeys_concrete_eq::<T>(),
        ensures
            r == other@.subset_of(self@),
    {
        other.is_subset(self)
    }

    /// Whether `other.contains(x) == wanted` for every element `x` of `self`.
    fn all_in(&self, other: &LinearSet<T>, wanted: bool) -> (r: bool)
        requires
            obeys_concrete_eq::<T>(),
        ensures
            r == forall|i: int|
                0 <= i < self.elements().len() ==> other@.contains(#[trigger] self.elements()[i])
                    == wanted,
    {
        let mut it = self.iter();
        let ghost all = self.elements();
        let mut i: usize = 0;
        while i < self.len()
            invariant
                obeys_concrete_eq::<T>(),
                all == self.elements(),
                i <= all.len(),
                it@ == all.subrange(i as int, all.len() as int),
                forall|j: int| 0 <= j < i ==> other@.contains(#[trigger] all[j]) == wanted,
            decreases all.len() - i,
        {
            let x = it.next().unwrap();
            assert(*x == all[i as int]);
            if other.contains(x) != wanted {
                return false;
            }
            i += 1;
            assert(it@ =~= all.subrange(i as int, all.len() as int));
        }
        true
    }

    /// Adds `value`; returns whether it was absent.
    pub fn insert(&mut self, value: T) -> (r: bool)
        requires
            obeys_concrete_eq::<T>(),
            old(self).wf(),
        ensures
            final(self).wf(),
            r == !old(self)@.contains(value),
            final(self)@ == old(self)@.insert(value),
            final(self).elements() == (if old(self).elements().contains(value) {
                old(self).elements()
            } else {
                old(self).elements().push(value)
            }),
    {
        let ghost s = self.map.entries();
        let r = self.map.insert(value, ()).is_none();
        assert(self@ =~= old(self)@.insert(value));
        proof {
            if has_key(s, value) {
                let i = choose|i: int| 0 <= i < s.len() && #[trigger] s[i].0 == value;
                assert(keys_of(s)[i] == value);
                crate::model::lemma_first_index(s, value, i);
                assert(keys_of(self.map.entries()) =~= keys_of(s));
            } else {
                assert(!keys_of(s).contains(value)) by {
                    if keys_of(s).contains(value) {
                        let j = choose|j: int| 0 <= j < keys_of(s).len() && #[trigger] keys_of(s)[j] == value;
                        assert(s[j].0 == value);
                    }
                }
                assert(keys_of(self.map.entries()) =~= keys_of(s).push(value));
            }
        }
        r
    }

    /// Adds each of `items` in turn, as `insert` does.
    pub fn extend(&mut self, items: Vec<T>)
        requires
            obeys_concrete_eq::<T>(),
            old(self).wf(),
        ensures
            final(self).wf(),
            final(self)@ == old(self)@.union(items@.to_set()),
            final(self).elements() == add_all(old(self).elements(), items@),
    {
        let ghost all = items@;
        let ghost start_elements = self.elements();
        let n = items.len();
        let mut items = items;
        let mut queue = move_to_queue(&mut items);
        let ghost start = self@;
        let mut done: usize = 0;
        while queue.len() > 0
            invariant
                obeys_concrete_eq::<T>(),
                self.wf(),
                all.len() == n,
                done + queue@.len() == n,
                queue@ == all.subrange(done as int, n as int),
                self@ == start.union(all.subrange(0, done as int).to_set()),
                self.elements() == add_all(start_elements, all.subrange(0, done as int)),
            decreases queue@.len(),
        {
            let ghost rest = queue@;
            let x = queue.pop_front().unwrap();
            proof {
                assert(rest[0] == all[done as int]);
                assert(all.subrange(0, done + 1) =~= all.subrange(0, done as int).push(x));
                all.subrange(0, done as int).lemma_push_to_set_commute(x);
                assert(all.subrange(0, done + 1).drop_last() =~= all.subrange(0, done as int));
            }
            self.insert(x);
            done += 1;
            assert(queue@ =~= all.subrange(done as int, n as int));
            assert(self@ =~= start.union(all.subrange(0, done as int).to_set()));
        }
        assert(all.subrange(0, n as int) =~= all);
    }

    /// Removes `value`; returns whether it was present.
    pub fn remove(&mut self, value: &T) -> (r: bool)
        requires
            obeys_concrete_eq::<T>(),
            old(self).wf(),
        ensures
            final(self).wf(),
            r == old(self)@.contains(*value),
            final(self)@ == old(self)@.remove(*value),
    {
        let r = self.map.remove(value).is_some();
        assert(self@ =~= old(self)@.remove(*value));
        r
    }

    /// The stored pairs of element and `()`, in storage order.
    pub fn as_slice(&self) -> (r: &[(T, ())])
        ensures
            keys_of(r@) == self.elements(),
    {
        self.map.as_slice()
    }

    /// Consumes the set and hands out its elements, in storage order.
    pub fn into_iter(self) -> (r: IntoIter<T>)
        ensures
            r@ == self.elements(),
    {
        IntoIter { iter: self.map.into_iter() }
    }

    /// Consumes the set and returns its elements, in storage order.
    pub fn into_vec(self) -> (r: Vec<T>)
        ensures
            r@ == self.elements(),
    {
        let ghost all = self.elements();
        let mut it = self.into_iter();
        let mut r: Vec<T> = Vec::new();
        while it.len() > 0
            invariant
                r@ + it@ == all,
            decreases it@.len(),
        {
            let ghost rest = it@;
            let x = it.next().unwrap();
            r.push(x);
            assert(r@ + it@ =~= all) by {
                assert(rest =~= seq![x] + it@);
                assert(r@ + it@ =~= r@.drop_last() + rest);
            }
        }
        assert(r@ =~= all);
        r
    }
}

/// `a` has `b_len` elements, each of them in `b`.
pub open spec fn same_elements<T>(a: Seq<T>, b: Set<T>, b_len: nat) -> bool {
    &&& a.len() == b_len
    &&& forall|i: int| 0 <= i < a.len() ==> b.contains(#[trigger] a[i])
}

impl<T: Eq> PartialEq for LinearSet<T> {
    fn eq(&self, other: &Self) -> (r: bool) {
        if self.len() != other.len() {
            return false;
        }
        let mut it = self.iter();
        let ghost all = self.elements();
        let mut i: usize = 0;
        while i < self.len()
            invariant
                all == self.elements(),
                i <= all.len(),
                it@ == all.subrange(i as int, all.len() as int),
                obeys_concrete_eq::<T>() ==> forall|j: int| 0 <= j < i ==> other@.contains(#[trigger] all[j]),
            decreases all.len() - i,
        {
            let x = it.next().unwrap();
            assert(*x == all[i as int]);
            proof {
                reveal(obeys_concrete_eq);
            }
            match find_key(other.map.as_slice(), x) {
                None => {
                    proof {
                        other.map.lemma_view();
                    }
                    return false;
                },
                Some(j) => {
                    proof {
                        if obeys_concrete_eq::<T>() {
                            lemma_map_of_first(other.map.entries(), *x, j as int);
                            other.map.lemma_view();
                        }
                    }
                },
            }
            i += 1;
            assert(it@ =~= all.subrange(i as int, all.len() as int));
        }
        true
    }
}

impl<T: Eq> PartialEqSpecImpl for LinearSet<T> {
    open spec fn obeys_eq_spec() -> bool {
        obeys_concrete_eq::<T>()
    }

    open spec fn eq_spec(&self, other: &Self) -> bool {
        same_elements(self.elements(), other@, other.elements().len())
    }
}

impl<T: Eq> Eq for LinearSet<T> {

}

impl<T: Eq> Default for LinearSet<T> {
    fn default() -> (r: Self)
        ensures
            r.wf(),
            r@ == Set::<T>::empty(),
    {
        Self::new()
    }
}

/// The elements of a set by reference, in storage order.
pub struct Iter<'a, T> {
    iter: iter::Keys<'a, T, ()>,
}

impl<'a, T> View for Iter<'a, T> {
    type V = Seq<T>;

    closed spec fn view(&self) -> Seq<T> {
        self.iter@
    }
}

impl<'a, T> Iter<'a, T> {
    /// Hands out the next element.
    pub fn next(&mut self) -> (r: Option<&'a T>)
        ensures
            match r {
                Some(x) => old(self)@.len() > 0 && *x == old(self)@[0] && final(self)@ == old(
                    self,
                )@.drop_first(),
                None => old(self)@.len() == 0 && final(self)@ == old(self)@,
            },
    {
        self.iter.next()
    }

    /// The number of elements not yet handed out.
    pub fn len(&self) -> (r: usize)
        ensures
            r == self@.len(),
    {
        self.iter.len()
    }
}

impl<'a, T> Clone for Iter<'a, T> {
    fn clone(&self) -> (r: Self)
        ensures
            r@ == self@,
    {
        Iter { iter: self.iter.clone() }
    }
}

/// The elements of a consumed set, in storage order.
pub struct IntoIter<T> {
    iter: iter::IntoIter<T, ()>,
}

impl<T> View for IntoIter<T> {
    type V = Seq<T>;

    closed spec fn view(&self) -> Seq<T> {
        keys_of(self.iter@)
    }
}

impl<T> IntoIter<T> {
    /// Hands out the next element.
    pub fn next(&mut self) -> (r: Option<T>)
        ensures
            match r {
                Some(x) => old(self)@.len() > 0 && x == old(self)@[0] && final(self)@ == old(
                    self,
                )@.drop_first(),
                None => old(self)@.len() == 0 && final(self)@ == old(self)@,
            },
    {
        let ghost s = self.iter@;
        match self.iter.next() {
            Some((x, _)) => {
                assert(keys_of(s.drop_first()) =~= keys_of(s).drop_first());
                Some(x)
            },
            None => None,
        }
    }

    /// The number of elements not yet handed out.
    pub fn len(&self) -> (r: usize)
        ensures
            r == self@.len(),
    {
        self.iter.len()
    }
}

/// The elements taken out of a set by `LinearSet::drain`, in storage order.
pub struct Drain<T> {
    iter: iter::Drain<T, ()>,
}

impl<T> View for Drain<T> {
    type V = Seq<T>;

    closed spec fn view(&self) -> Seq<T> {
        keys_of(self.iter@)
    }
}

impl<T> Drain<T> {
    /// Hands out the next element.
    pub fn next(&mut self) -> (r: Option<T>)
        ensures
            match r {
                Some(x) => old(self)@.len() > 0 && x == old(self)@[0] && final(self)@ == old(
                    self,
                )@.drop_first(),
                None => old(self)@.len() == 0 && final(self)@ == old(self)@,
            },
    {
        let ghost s = self.iter@;
        match self.iter.next() {
            Some((x, _)) => {
                assert(keys_of(s.drop_first()) =~= keys_of(s).drop_first());
                Some(x)
            },
            None => None,
        }
    }

    /// The number of elements not yet handed out.
    pub fn len(&self) -> (r: usize)
        ensures
            r == self@.len(),
    {
        self.iter.len()
    }
}

/// The elements of one set that are not in another, in storage order.
pub struct Difference<'a, T> {
    iter: Iter<'a, T>,
    other: &'a LinearSet<T>,
}

impl<'a, T> View for Difference<'a, T> {
    type V = Seq<T>;

    closed spec fn view(&self) -> Seq<T> {
        self.iter@.filter(|x: T| !self.other@.contains(x))
    }
}

impl<'a, T: Eq> Difference<'a, T> {
    /// Hands out the next element of the first set that is not in the other.
    pub fn next(&mut self) -> (r: Option<&'a T>)
        requires
            obeys_concrete_eq::<T>(),
        ensures
            match r {
                Some(x) => old(self)@.len() > 0 && *x == old(self)@[0] && final(self)@ == old(
                    self,
                )@.drop_first(),
                None => old(self)@.len() == 0 && final(self)@ == old(self)@,
            },
    {
        let ghost target = self@;
        loop
            invariant
                obeys_concrete_eq::<T>(),
                self.other == old(self).other,
                self@ == target,
                target == old(self)@,
            decreases self.iter@.len(),
        {
            let ghost s = self.iter@;
            let ghost p = |x: T| !self.other@.contains(x);
            match self.iter.next() {
                None => {
                    return None;
                },
                Some(x) => {
                    proof {
                        assert(s =~= seq![s[0]] + s.drop_first());
                        s.drop_first().lemma_filter_prepend(s[0], p);
                    }
                    if !self.other.contains(x) {
                        return Some(x);
                    }
                },
            }
        }
    }
}

/// The elements of one set that are also in another, in storage order.
pub struct Intersection<'a, T> {
    iter: Iter<'a, T>,
    other: &'a LinearSet<T>,
}

impl<'a, T> View for Intersection<'a, T> {
    type V = Seq<T>;

    closed spec fn view(&self) -> Seq<T> {
        self.iter@.filter(|x: T| self.other@.contains(x))
    }
}

impl<'a, T: Eq> Intersection<'a, T> {
    /// Hands out the next element of the first set that is in the other.
    pub fn next(&mut self) -> (r: Option<&'a T>)
        requires
            obeys_concrete_eq::<T>(),
        ensures
            match r {
                Some(x) => old(self)@.len() > 0 && *x == old(self)@[0] && final(self)@ == old(
                    self,
                )@.drop_first(),
                None => old(self)@.len() == 0 && final(self)@ == old(self)@,
            },
    {
        let ghost target = self@;
        loop
            invariant
                obeys_concrete_eq::<T>(),
                self.other == old(self).other,
                self@ == target,
                target == old(self)@,
            decreases self.iter@.len(),
        {
            let ghost s = self.iter@;
            let ghost p = |x: T| self.other@.contains(x);
            match self.iter.next() {
                None => {
                    return None;
                },
                Some(x) => {
                    proof {
                        assert(s =~= seq![s[0]] + s.drop_first());
                        s.drop_first().lemma_filter_prepend(s[0], p);
                    }
                    if self.other.contains(x) {
                        return Some(x);
                    }
                },
            }
        }
    }
}

/// The elements in exactly one of two sets.
pub struct SymmetricDifference<'a, T> {
    first: Difference<'a, T>,
    second: Difference<'a, T>,
}

impl<'a, T> View for SymmetricDifference<'a, T> {
    type V = Seq<T>;

    closed spec fn view(&self) -> Seq<T> {
        self.first@ + self.second@
    }
}

impl<'a, T: Eq> SymmetricDifference<'a, T> {
    /// Hands out the next element.
    pub fn next(&mut self) -> (r: Option<&'a T>)
        requires
            obeys_concrete_eq::<T>(),
        ensures
            match r {
                Some(x) => old(self)@.len() > 0 && *x == old(self)@[0] && final(self)@ == old(
                    self,
                )@.drop_first(),
                None => old(self)@.len() == 0 && final(self)@ == old(self)@,
            },
    {
        match self.first.next() {
            Some(x) => {
                assert(self@ =~= old(self)@.drop_first());
                Some(x)
            },
            None => {
                let r = self.second.next();
                assert(r is Some ==> self@ =~= old(self)@.drop_first());
                r
            },
        }
    }
}

/// The elements of one set, then those of another that are not in the first.
pub struct Union<'a, T> {
    first: Iter<'a, T>,
    second: Difference<'a, T>,
}

impl<'a, T> View for Union<'a, T> {
    type V = Seq<T>;

    closed spec fn view(&self) -> Seq<T> {
        self.first@ + self.second@
    }
}

impl<'a, T: Eq> Union<'a, T> {
    /// Hands out the next element.
    pub fn next(&mut self) -> (r: Option<&'a T>)
        requires
            obeys_concrete_eq::<T>(),
        ensures
            match r {
                Some(x) => old(self)@.len() > 0 && *x == old(self)@[0] && final(self)@ == old(
                    self,
                )@.drop_first(),
                None => old(self)@.len() == 0 && final(self)@ == old(self)@,
            },
    {
        match self.first.next() {
            Some(x) => {
                assert(self@ =~= old(self)@.drop_first());
                Some(x)
            },
            None => {
                let r = self.second.next();
                assert(r is Some ==> self@ =~= old(self)@.drop_first());
                r
            },
        }
    }
}

} // verus!
