use std::collections::VecDeque;
use vstd::prelude::*;

use crate::model::{keys_of, values_of};

verus! {

/// The pairs of a map by reference, handed out from either end.
pub struct Iter<'a, K, V> {
    entries: &'a [(K, V)],
    front: usize,
    back: usize,
}

impl<'a, K, V> View for Iter<'a, K, V> {
    type V = Seq<(K, V)>;

    /// The pairs not yet handed out, front first.
    closed spec fn view(&self) -> Seq<(K, V)> {
        self.entries@.subrange(self.front as int, self.back as int)
    }
}

impl<'a, K, V> Iter<'a, K, V> {
    #[verifier::type_invariant]
    spec fn inv(&self) -> bool {
        self.front <= self.back <= self.entries@.len()
    }

    /// Walks all of `entries`.
    pub(crate) fn new(entries: &'a [(K, V)]) -> (r: Self)
        ensures
            r@ == entries@,
    {
        let r = Iter { entries, front: 0, back: entries.len() };
        assert(r@ =~= entries@);
        r
    }

    /// Hands out the front pair.
    pub fn next(&mut self) -> (r: Option<(&'a K, &'a V)>)
        ensures
            match r {
                Some((k, v)) => {
                    &&& old(self)@.len() > 0
                    &&& (*k, *v) == old(self)@[0]
                    &&& final(self)@ == old(self)@.drop_first()
                },
                None => old(self)@.len() == 0 && final(self)@ == old(self)@,
            },
    {
        proof {
            use_type_invariant(&*self);
        }
        if self.front < self.back {
            let entries: &'a [(K, V)] = self.entries;
            let e = &entries[self.front];
            self.front = self.front + 1;
            assert(self@ =~= old(self)@.drop_first());
            Some((&e.0, &e.1))
        } else {
            None
        }
    }

    /// Hands out the back pair.
    pub fn next_back(&mut self) -> (r: Option<(&'a K, &'a V)>)
        ensures
            match r {
                Some((k, v)) => {
                    &&& old(self)@.len() > 0
                    &&& (*k, *v) == old(self)@.last()
                    &&& final(self)@ == old(self)@.drop_last()
                },
                None => old(self)@.len() == 0 && final(self)@ == old(self)@,
            },
    {
        proof {
            use_type_invariant(&*self);
        }
        if self.front < self.back {
            let entries: &'a [(K, V)] = self.entries;
            self.back = self.back - 1;
            let e = &entries[self.back];
            assert(self@ =~= old(self)@.drop_last());
            Some((&e.0, &e.1))
        } else {
            None
        }
    }

    /// The number of pairs not yet handed out.
    pub fn len(&self) -> (r: usize)
        ensures
            r == self@.len(),
    {
        proof {
            use_type_invariant(self);
        }
        self.back - self.front
    }
}

impl<'a, K, V> Clone for Iter<'a, K, V> {
    fn clone(&self) -> (r: Self)
        ensures
            r@ == self@,
    {
        proof {
            use_type_invariant(self);
        }
        Iter { entries: self.entries, front: self.front, back: self.back }
    }
}

/// The keys of a map, handed out from either end.
pub struct Keys<'a, K, V> {
    iter: Iter<'a, K, V>,
}

impl<'a, K, V> View for Keys<'a, K, V> {
    type V = Seq<K>;

    /// The keys not yet handed out, front first.
    closed spec fn view(&self) -> Seq<K> {
        keys_of(self.iter@)
    }
}

impl<'a, K, V> Keys<'a, K, V> {
    /// Walks the keys of the pairs that `iter` has left.
    pub(crate) fn new(iter: Iter<'a, K, V>) -> (r: Self)
        ensures
            r@ == keys_of(iter@),
    {
        Keys { iter }
    }

    /// Hands out the front key.
    pub fn next(&mut self) -> (r: Option<&'a K>)
        ensures
            match r {
                Some(k) => {
                    &&& old(self)@.len() > 0
                    &&& *k == old(self)@[0]
                    &&& final(self)@ == old(self)@.drop_first()
                },
                None => old(self)@.len() == 0 && final(self)@ == old(self)@,
            },
    {
        let ghost s = self.iter@;
        match self.iter.next() {
            Some((k, _)) => {
                assert(keys_of(s.drop_first()) =~= keys_of(s).drop_first());
                Some(k)
            },
            None => None,
        }
    }

    /// Hands out the back key.
    pub fn next_back(&mut self) -> (r: Option<&'a K>)
        ensures
            match r {
                Some(k) => {
                    &&& old(self)@.len() > 0
                    &&& *k == old(self)@.last()
                    &&& final(self)@ == old(self)@.drop_last()
                },
                None => old(self)@.len() == 0 && final(self)@ == old(self)@,
            },
    {
        let ghost s = self.iter@;
        match self.iter.next_back() {
            Some((k, _)) => {
                assert(keys_of(s.drop_last()) =~= keys_of(s).drop_last());
                Some(k)
            },
            None => None,
        }
    }

    /// The number of keys not yet handed out.
    pub fn len(&self) -> (r: usize)
        ensures
            r == self@.len(),
    {
        self.iter.len()
    }
}

impl<'a, K, V> Clone for Keys<'a, K, V> {
    fn clone(&self) -> (r: Self)
        ensures
            r@ == self@,
    {
        Keys { iter: self.iter.clone() }
    }
}

/// The values of a map, handed out from either end.
pub struct Values<'a, K, V> {
    iter: Iter<'a, K, V>,
}

impl<'a, K, V> View for Values<'a, K, V> {
    type V = Seq<V>;

    /// The values not yet handed out, front first.
    closed spec fn view(&self) -> Seq<V> {
        values_of(self.iter@)
    }
}

impl<'a, K, V> Values<'a, K, V> {
    /// Walks the values of the pairs that `iter` has left.
    pub(crate) fn new(iter: Iter<'a, K, V>) -> (r: Self)
        ensures
            r@ == values_of(iter@),
    {
        Values { iter }
    }

    /// Hands out the front value.
    pub fn next(&mut self) -> (r: Option<&'a V>)
        ensures
            match r {
                Some(v) => {
                    &&& old(self)@.len() > 0
                    &&& *v == old(self)@[0]
                    &&& final(self)@ == old(self)@.drop_first()
                },
                None => old(self)@.len() == 0 && final(self)@ == old(self)@,
            },
    {
        let ghost s = self.iter@;
        match self.iter.next() {
            Some((_, v)) => {
                assert(values_of(s.drop_first()) =~= values_of(s).drop_first());
                Some(v)
            },
            None => None,
        }
    }

    /// Hands out the back value.
    pub fn next_back(&mut self) -> (r: Option<&'a V>)
        ensures
            match r {
                Some(v) => {
                    &&& old(self)@.len() > 0
                    &&& *v == old(self)@.last()
                    &&& final(self)@ == old(self)@.drop_last()
                },
                None => old(self)@.len() == 0 && final(self)@ == old(self)@,
            },
    {
        let ghost s = self.iter@;
        match self.iter.next_back() {
            Some((_, v)) => {
                assert(values_of(s.drop_last()) =~= values_of(s).drop_last());
                Some(v)
            },
            None => None,
        }
    }

    /// The number of values not yet handed out.
    pub fn len(&self) -> (r: usize)
        ensures
            r == self@.len(),
    {
        self.iter.len()
    }
}

impl<'a, K, V> Clone for Values<'a, K, V> {
    fn clone(&self) -> (r: Self)
        ensures
            r@ == self@,
    {
        Values { iter: self.iter.clone() }
    }
}

/// The pairs of a map in order, each value open to change.
///
/// The field is public so that contracts can speak of what becomes of the
/// borrowed pairs; it is `Some` between calls.
#[non_exhaustive]
pub struct IterMut<'a, K, V> {
    /// The pairs not yet handed out.
    pub rest: Option<&'a mut [(K, V)]>,
}

impl<'a, K, V> IterMut<'a, K, V> {
    /// Walks all of `entries`.
    pub(crate) fn new(entries: &'a mut [(K, V)]) -> (r: Self)
        ensures
            r.rest is Some,
            (*r.rest->Some_0)@ == old(entries)@,
            (*final(r.rest->Some_0))@ == (*final(entries))@,
    {
        IterMut { rest: Some(entries) }
    }

    /// The pairs not yet handed out, as they are now.
    pub open spec fn current(&self) -> Seq<(K, V)> {
        (*self.rest->Some_0)@
    }

    /// Hands out the front pair; the key by reference, the value open to change.
    pub fn next(&mut self) -> (r: Option<(&'a K, &'a mut V)>)
        requires
            old(self).rest is Some,
        ensures
            final(self).rest is Some,
            match r {
                Some((k, v)) => {
                    &&& old(self).current().len() > 0
                    &&& (*k, *v) == old(self).current()[0]
                    &&& final(self).current() == old(self).current().drop_first()
                    &&& (*final(old(self).rest->Some_0))@
                        == seq![(*k, *final(v))] + (*final(final(self).rest->Some_0))@
                },
                None => {
                    &&& old(self).current().len() == 0
                    &&& final(self).current() == old(self).current()
                    &&& (*final(old(self).rest->Some_0))@ == (*final(final(self).rest->Some_0))@
                },
            },
    {
        let slice = self.rest.take().unwrap();
        if slice.len() == 0 {
            self.rest = Some(slice);
            return None;
        }
        let (head, tail) = slice.split_at_mut(1);
        self.rest = Some(tail);
        let pair = head.first_mut().unwrap();
        Some((&pair.0, &mut pair.1))
    }

    /// The number of pairs not yet handed out.
    pub fn len(&self) -> (r: usize)
        requires
            self.rest is Some,
        ensures
            r == self.current().len(),
    {
        match &self.rest {
            Some(s) => s.len(),
            None => 0,
        }
    }
}

/// Moves the elements of `v` into a double-ended queue, leaving `v` empty and
/// its allocation in place.
pub(crate) fn move_to_queue<T>(v: &mut Vec<T>) -> (r: VecDeque<T>)
    ensures
        r@ == old(v)@,
        final(v)@ == Seq::<T>::empty(),
{
    let ghost all = v@;
    let mut q: VecDeque<T> = VecDeque::new();
    while v.len() > 0
        invariant
            v@ + q@ == all,
        decreases v@.len(),
    {
        let ghost vb = v@;
        let ghost qb = q@;
        let e = v.pop().unwrap();
        q.push_front(e);
        assert(v@ + q@ =~= vb + qb);
    }
    assert(q@ =~= all);
    q
}

/// The pairs taken out of a map by `LinearMap::drain`, handed out from either end.
pub struct Drain<K, V> {
    rest: VecDeque<(K, V)>,
}

impl<K, V> View for Drain<K, V> {
    type V = Seq<(K, V)>;

    /// The pairs not yet handed out, front first.
    closed spec fn view(&self) -> Seq<(K, V)> {
        self.rest@
    }
}

impl<K, V> Drain<K, V> {
    /// Takes every pair out of `v`.
    pub(crate) fn take_all(v: &mut Vec<(K, V)>) -> (r: Self)
        ensures
            r@ == old(v)@,
            final(v)@ == Seq::<(K, V)>::empty(),
    {
        Drain { rest: move_to_queue(v) }
    }

    /// Hands out the front pair.
    pub fn next(&mut self) -> (r: Option<(K, V)>)
        ensures
            match r {
                Some(e) => old(self)@.len() > 0 && e == old(self)@[0] && final(self)@
                    == old(self)@.drop_first(),
                None => old(self)@.len() == 0 && final(self)@ == old(self)@,
            },
    {
        let r = self.rest.pop_front();
        assert(r is Some ==> self@ =~= old(self)@.drop_first());
        r
    }

    /// Hands out the back pair.
    pub fn next_back(&mut self) -> (r: Option<(K, V)>)
        ensures
            match r {
                Some(e) => old(self)@.len() > 0 && e == old(self)@.last() && final(self)@
                    == old(self)@.drop_last(),
                None => old(self)@.len() == 0 && final(self)@ == old(self)@,
            },
    {
        let r = self.rest.pop_back();
        assert(r is Some ==> self@ =~= old(self)@.drop_last());
        r
    }

    /// The number of pairs not yet handed out.
    pub fn len(&self) -> (r: usize)
        ensures
            r == self@.len(),
    {
        self.rest.len()
    }
}

/// The pairs of a consumed map, handed out from either end.
pub struct IntoIter<K, V> {
    rest: VecDeque<(K, V)>,
}

impl<K, V> View for IntoIter<K, V> {
    type V = Seq<(K, V)>;

    /// The pairs not yet handed out, front first.
    closed spec fn view(&self) -> Seq<(K, V)> {
        self.rest@
    }
}

impl<K, V> IntoIter<K, V> {
    /// Takes every pair out of `v`.
    pub(crate) fn take_all(v: &mut Vec<(K, V)>) -> (r: Self)
        ensures
            r@ == old(v)@,
            final(v)@ == Seq::<(K, V)>::empty(),
    {
        IntoIter { rest: move_to_queue(v) }
    }

    /// Hands out the front pair.
    pub fn next(&mut self) -> (r: Option<(K, V)>)
        ensures
            match r {
                Some(e) => old(self)@.len() > 0 && e == old(self)@[0] && final(self)@
                    == old(self)@.drop_first(),
                None => old(self)@.len() == 0 && final(self)@ == old(self)@,
            },
    {
        let r = self.rest.pop_front();
        assert(r is Some ==> self@ =~= old(self)@.drop_first());
        r
    }

    /// Hands out the back pair.
    pub fn next_back(&mut self) -> (r: Option<(K, V)>)
        ensures
            match r {
                Some(e) => old(self)@.len() > 0 && e == old(self)@.last() && final(self)@
                    == old(self)@.drop_last(),
                None => old(self)@.len() == 0 && final(self)@ == old(self)@,
            },
    {
        let r = self.rest.pop_back();
        assert(r is Some ==> self@ =~= old(self)@.drop_last());
        r
    }

    /// The number of pairs not yet handed out.
    pub fn len(&self) -> (r: usize)
        ensures
            r == self@.len(),
    {
        self.rest.len()
    }
}

} // verus!
