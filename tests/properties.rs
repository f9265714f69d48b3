use linear_map::{LinearBorrowedMap, LinearBorrowedMapMut, LinearMap, LinearMapVisitor};

#[test]
fn insert_get_remove_scenario() {
    let mut map = LinearMap::new();
    map.insert(1, "one");
    map.insert(2, "two");
    assert_eq!(map.len(), 2);
    assert_eq!(map.get(&1), Some(&"one"));
    assert_eq!(map.remove(&1), Some("one"));
    assert_eq!(map.len(), 1);
    assert_eq!(map.get(&1), None);
}

#[test]
fn second_insert_returns_displaced_value() {
    let mut map = LinearMap::new();
    assert_eq!(map.insert(7, 70), None);
    assert_eq!(map.get(&7), Some(&70));
    assert_eq!(map.insert(7, 71), Some(70));
    assert_eq!(map.get(&7), Some(&71));
    assert_eq!(map.len(), 1);
}

#[test]
fn remove_absent_keeps_length() {
    let mut map = LinearMap::from_pairs(vec![(1, 10), (2, 20)]);
    assert_eq!(map.remove(&3), None);
    assert_eq!(map.len(), 2);
    assert_eq!(map.remove(&2), Some(20));
    assert_eq!(map.len(), 1);
}

#[test]
fn remove_moves_last_pair_into_slot() {
    let mut map = LinearMap::from_pairs(vec![(1, 'a'), (2, 'b'), (3, 'c'), (4, 'd')]);
    assert_eq!(map.remove(&2), Some('b'));
    assert_eq!(map.as_slice(), &[(1, 'a'), (4, 'd'), (3, 'c')]);
}

#[test]
fn equality_ignores_insertion_order() {
    let a = LinearMap::from_pairs(vec![(1, 'x'), (2, 'y'), (3, 'z')]);
    let b = LinearMap::from_pairs(vec![(3, 'z'), (1, 'x'), (2, 'y')]);
    assert!(a == b);
    let c = LinearMap::from_pairs(vec![(3, 'z'), (1, 'x'), (2, 'w')]);
    assert!(a != c);
}

#[test]
fn later_duplicate_pair_wins() {
    let map = LinearMap::from_pairs(vec![(1, 10), (2, 20), (1, 11)]);
    assert_eq!(map.len(), 2);
    assert_eq!(map.get(&1), Some(&11));
    assert_eq!(map.capacity(), 3);
}

#[test]
fn retain_all_and_none() {
    let mut map = LinearMap::from_pairs(vec![(1, 1), (2, 2), (3, 3)]);
    map.retain(|_, _| true);
    assert_eq!(map.as_slice(), &[(1, 1), (2, 2), (3, 3)]);
    map.retain(|_, _| false);
    assert!(map.is_empty());
}

#[test]
fn retain_keeps_relative_order() {
    let mut map = LinearMap::from_pairs(vec![(5, 0), (2, 0), (8, 0), (3, 0), (4, 0)]);
    map.retain(|&k, _| k % 2 == 0);
    assert_eq!(map.as_slice(), &[(2, 0), (8, 0), (4, 0)]);
}

#[test]
fn drain_partially_consumed_empties_map() {
    let mut map = LinearMap::from_pairs((1..100).map(|x| (x, x)).collect());
    assert_eq!(map.len(), 99);
    {
        let mut d = map.drain();
        for i in 0..50 {
            assert_eq!(d.next(), Some((i + 1, i + 1)));
        }
        assert_eq!(d.len(), 49);
    }
    assert!(map.is_empty());
    assert!(map.get(&60).is_none());
}

#[test]
fn drain_from_both_ends() {
    let mut map = LinearMap::from_pairs(vec![(1, 'a'), (2, 'b'), (3, 'c')]);
    let mut d = map.drain();
    assert_eq!(d.next_back(), Some((3, 'c')));
    assert_eq!(d.next(), Some((1, 'a')));
    assert_eq!(d.next(), Some((2, 'b')));
    assert_eq!(d.next(), None);
}

#[test]
fn iterators_walk_both_ends() {
    let map = LinearMap::from_pairs(vec![(1, 'a'), (2, 'b'), (3, 'c')]);
    let mut it = map.iter();
    assert_eq!(it.len(), 3);
    assert_eq!(it.next_back(), Some((&3, &'c')));
    assert_eq!(it.next(), Some((&1, &'a')));
    assert_eq!(it.len(), 1);
    let mut keys = map.keys();
    assert_eq!(keys.next_back(), Some(&3));
    let mut values = map.values();
    assert_eq!(values.next(), Some(&'a'));
    let mut owned = map.into_iter();
    assert_eq!(owned.next_back(), Some((3, 'c')));
    assert_eq!(owned.len(), 2);
}

#[test]
fn iter_mut_changes_values() {
    let mut map = LinearMap::from_pairs(vec![(1, 10), (2, 20)]);
    {
        let mut it = map.iter_mut();
        while let Some((_, v)) = it.next() {
            *v += 1;
        }
    }
    assert_eq!(map.as_slice(), &[(1, 11), (2, 21)]);
}

#[test]
fn entry_or_insert_paths() {
    let mut map = LinearMap::new();
    *map.entry(1).or_insert(5) += 1;
    assert_eq!(map.get(&1), Some(&6));
    *map.entry(1).or_insert(100) += 1;
    assert_eq!(map.get(&1), Some(&7));
    let mut calls = 0;
    map.entry(2).or_insert_with(|| 20);
    map.entry(2).or_insert_with(|| {
        calls += 1;
        30
    });
    assert_eq!(calls, 0);
    assert_eq!(map.get(&2), Some(&20));
    match map.entry(1) {
        linear_map::Entry::Occupied(e) => assert_eq!(*e.into_mut(), 7),
        linear_map::Entry::Vacant(_) => unreachable!(),
    }
}

#[test]
fn extend_and_reserve_exact() {
    let mut map = LinearMap::from_pairs(vec![(1, 1)]);
    map.reserve_exact(5);
    assert!(map.capacity() >= 6);
    map.extend(vec![(2, 2), (1, 10)]);
    assert_eq!(map.as_slice(), &[(1, 10), (2, 2)]);
    assert_eq!(map.clone().into_vec(), vec![(1, 10), (2, 2)]);
}

#[test]
fn borrowed_view_accepts_distinct_keys() {
    let pairs = [(1, "a"), (2, "b")];
    let view = LinearBorrowedMap::new(&pairs).ok().unwrap();
    assert_eq!(view.len(), 2);
    assert_eq!(view.get(&1), Some(&"a"));
    assert_eq!(view.get(&2), Some(&"b"));
    assert!(!view.contains_key(&3));
    assert!(!view.is_empty());
}

#[test]
fn borrowed_view_reports_duplicate_key() {
    let pairs = [(1, "a"), (1, "b")];
    match LinearBorrowedMap::new(&pairs) {
        Ok(_) => panic!("duplicate keys were accepted"),
        Err(k) => assert_eq!(*k, 1),
    }
}

#[test]
fn borrowed_view_reports_first_duplicate() {
    let pairs = [(5, 0), (7, 0), (9, 0), (7, 1), (5, 1)];
    match LinearBorrowedMap::new(&pairs) {
        Ok(_) => panic!("duplicate keys were accepted"),
        Err(k) => assert_eq!(*k, 7),
    }
}

#[test]
fn borrowed_view_to_owned() {
    let pairs = [(1, 'a'), (2, 'b')];
    let view = LinearBorrowedMap::new_unchecked(&pairs);
    let owned = view.to_owned();
    assert_eq!(owned.as_slice(), &pairs);
    let mut ks = view.keys();
    assert_eq!(ks.next(), Some(&1));
}

#[test]
fn borrowed_mut_view_changes_values() {
    let mut pairs = [(1, 10), (2, 20)];
    {
        let mut view = LinearBorrowedMapMut::new_mut(&mut pairs).ok().unwrap();
        *view.get_mut(&2).unwrap() = 25;
        assert!(view.get_mut(&3).is_none());
        assert_eq!(view.len(), 2);
    }
    assert_eq!(pairs, [(1, 10), (2, 25)]);
    let mut dup = [(3, 0), (3, 1)];
    match LinearBorrowedMapMut::new_mut(&mut dup) {
        Ok(_) => panic!("duplicate keys were accepted"),
        Err(k) => assert_eq!(*k, 3),
    }
}

#[test]
fn visitor_round_trip() {
    let map = LinearMap::from_pairs(vec![('b', 20), ('a', 10), ('c', 30)]);
    let written: Vec<(char, i32)> = map.as_slice().to_vec();
    let back = LinearMapVisitor::new().visit_map(written, Some(map.len()));
    assert!(back == map);
    assert_eq!(back.as_slice(), map.as_slice());
    let empty: LinearMap<char, i32> = LinearMapVisitor::new().visit_unit();
    assert!(empty.is_empty());
}

#[test]
fn visitor_ignores_unallocatable_hint() {
    let back = LinearMapVisitor::new().visit_map(vec![(1u64, 2u64), (1, 3)], Some(usize::MAX));
    assert_eq!(back.len(), 1);
    assert_eq!(back.get(&1), Some(&3));
}

#[test]
fn insert_present_key_keeps_slot() {
    let mut map = LinearMap::from_pairs(vec![(1, 'a'), (2, 'b'), (3, 'c')]);
    assert_eq!(map.insert(2, 'z'), Some('b'));
    assert_eq!(map.as_slice(), &[(1, 'a'), (2, 'z'), (3, 'c')]);
    assert_eq!(map.insert(4, 'd'), None);
    assert_eq!(map.as_slice(), &[(1, 'a'), (2, 'z'), (3, 'c'), (4, 'd')]);
}

#[test]
fn remove_absent_keeps_storage() {
    let mut map = LinearMap::from_pairs(vec![(3, 0), (1, 0), (2, 0)]);
    assert_eq!(map.remove(&9), None);
    assert_eq!(map.as_slice(), &[(3, 0), (1, 0), (2, 0)]);
    assert_eq!(map.remove(&2), Some(0));
    assert_eq!(map.as_slice(), &[(3, 0), (1, 0)]);
}

#[test]
fn repeated_pairs_keep_first_slot() {
    let map = LinearMapVisitor::new().visit_map(vec![(1, 'a'), (2, 'b'), (1, 'c')], None);
    assert_eq!(map.as_slice(), &[(1, 'c'), (2, 'b')]);
    let mut other = LinearMap::from_vec(vec![(5, 'x')]);
    other.extend(vec![(6, 'y'), (5, 'w')]);
    assert_eq!(other.as_slice(), &[(5, 'w'), (6, 'y')]);
}

#[test]
fn set_keeps_first_occurrences() {
    let mut s = linear_map::set::LinearSet::new();
    assert!(s.insert(4));
    assert!(!s.insert(4));
    s.extend(vec![2, 4, 9, 2]);
    assert_eq!(s.into_vec(), vec![4, 2, 9]);
}
