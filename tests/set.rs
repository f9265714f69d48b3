use linear_map::set::LinearSet;

fn set_of(xs: &[i32]) -> LinearSet<i32> {
    let mut s = LinearSet::with_capacity(xs.len());
    for &x in xs {
        s.insert(x);
    }
    s
}

#[test]
fn test_disjoint() {
    let mut xs = LinearSet::new();
    let mut ys = LinearSet::new();
    assert!(xs.is_disjoint(&ys));
    assert!(ys.is_disjoint(&xs));
    assert!(xs.insert(5));
    assert!(ys.insert(11));
    assert!(xs.is_disjoint(&ys));
    assert!(ys.is_disjoint(&xs));
    assert!(xs.insert(7));
    assert!(xs.insert(19));
    assert!(xs.insert(4));
    assert!(ys.insert(2));
    assert!(ys.insert(-11));
    assert!(xs.is_disjoint(&ys));
    assert!(ys.is_disjoint(&xs));
    assert!(ys.insert(7));
    assert!(!xs.is_disjoint(&ys));
    assert!(!ys.is_disjoint(&xs));
}

#[test]
fn test_subset_and_superset() {
    let mut a = LinearSet::new();
    assert!(a.insert(0));
    assert!(a.insert(5));
    assert!(a.insert(11));
    assert!(a.insert(7));

    let mut b = LinearSet::new();
    assert!(b.insert(0));
    assert!(b.insert(7));
    assert!(b.insert(19));
    assert!(b.insert(250));
    assert!(b.insert(11));
    assert!(b.insert(200));

    assert!(!a.is_subset(&b));
    assert!(!a.is_superset(&b));
    assert!(!b.is_subset(&a));
    assert!(!b.is_superset(&a));

    assert!(b.insert(5));

    assert!(a.is_subset(&b));
    assert!(!a.is_superset(&b));
    assert!(!b.is_subset(&a));
    assert!(b.is_superset(&a));
}

#[test]
fn test_iterate() {
    let mut a = LinearSet::new();
    for i in 0..32 {
        assert!(a.insert(i));
    }
    let mut observed: u32 = 0;
    let mut it = a.iter();
    while let Some(k) = it.next() {
        observed |= 1 << *k;
    }
    assert_eq!(observed, 0xFFFF_FFFF);
}

#[test]
fn test_intersection() {
    let mut a = LinearSet::new();
    let mut b = LinearSet::new();

    assert!(a.insert(11));
    assert!(a.insert(1));
    assert!(a.insert(3));
    assert!(a.insert(77));
    assert!(a.insert(103));
    assert!(a.insert(5));
    assert!(a.insert(-5));

    assert!(b.insert(2));
    assert!(b.insert(11));
    assert!(b.insert(77));
    assert!(b.insert(-9));
    assert!(b.insert(-42));
    assert!(b.insert(5));
    assert!(b.insert(3));

    let mut i = 0;
    let expected = [3, 5, 11, 77];
    let mut it = a.intersection(&b);
    while let Some(x) = it.next() {
        assert!(expected.contains(x));
        i += 1
    }
    assert_eq!(i, expected.len());
}

#[test]
fn test_difference() {
    let mut a = LinearSet::new();
    let mut b = LinearSet::new();

    assert!(a.insert(1));
    assert!(a.insert(3));
    assert!(a.insert(5));
    assert!(a.insert(9));
    assert!(a.insert(11));

    assert!(b.insert(3));
    assert!(b.insert(9));

    let mut i = 0;
    let expected = [1, 5, 11];
    let mut it = a.difference(&b);
    while let Some(x) = it.next() {
        assert!(expected.contains(x));
        i += 1
    }
    assert_eq!(i, expected.len());
}

#[test]
fn test_symmetric_difference() {
    let mut a = LinearSet::new();
    let mut b = LinearSet::new();

    assert!(a.insert(1));
    assert!(a.insert(3));
    assert!(a.insert(5));
    assert!(a.insert(9));
    assert!(a.insert(11));

    assert!(b.insert(-2));
    assert!(b.insert(3));
    assert!(b.insert(9));
    assert!(b.insert(14));
    assert!(b.insert(22));

    let mut i = 0;
    let expected = [-2, 1, 5, 11, 14, 22];
    let mut it = a.symmetric_difference(&b);
    while let Some(x) = it.next() {
        assert!(expected.contains(x));
        i += 1
    }
    assert_eq!(i, expected.len());
}

#[test]
fn test_union() {
    let mut a = LinearSet::new();
    let mut b = LinearSet::new();

    assert!(a.insert(1));
    assert!(a.insert(3));
    assert!(a.insert(5));
    assert!(a.insert(9));
    assert!(a.insert(11));
    assert!(a.insert(16));
    assert!(a.insert(19));
    assert!(a.insert(24));

    assert!(b.insert(-2));
    assert!(b.insert(1));
    assert!(b.insert(5));
    assert!(b.insert(9));
    assert!(b.insert(13));
    assert!(b.insert(19));

    let mut i = 0;
    let expected = [-2, 1, 3, 5, 9, 11, 13, 16, 19, 24];
    let mut it = a.union(&b);
    while let Some(x) = it.next() {
        assert!(expected.contains(x));
        i += 1
    }
    assert_eq!(i, expected.len());
}

#[test]
fn test_from_iter() {
    let xs = [1, 2, 3, 4, 5, 6, 7, 8, 9];

    let set: LinearSet<_> = set_of(&xs);

    for x in &xs {
        assert!(set.contains(x));
    }
}

#[test]
fn test_move_iter() {
    let hs = {
        let mut hs = LinearSet::new();

        hs.insert('a');
        hs.insert('b');

        hs
    };

    let mut v: Vec<char> = Vec::new();
    let mut it = hs.into_iter();
    while let Some(c) = it.next() {
        v.push(c);
    }
    assert!(v == ['a', 'b'] || v == ['b', 'a']);
}

#[test]
fn set_test_eq() {
    // These constants once happened to expose a bug in insert().
    // I'm keeping them around to prevent a regression.
    let mut s1 = LinearSet::new();

    s1.insert(1);
    s1.insert(2);
    s1.insert(3);

    let mut s2 = LinearSet::new();

    s2.insert(1);
    s2.insert(2);

    assert!(s1 != s2);

    s2.insert(3);

    assert_eq!(s1, s2);
}

#[test]
fn test_trivial_drain() {
    let mut s = LinearSet::<i32>::new();
    let mut d = s.drain();
    while d.next().is_some() {}
    assert!(s.is_empty());
    drop(s);

    let mut s = LinearSet::<i32>::new();
    drop(s.drain());
    assert!(s.is_empty());
}

#[test]
fn test_drain() {
    let mut s: LinearSet<i32> = LinearSet::new();
    for x in 1..100 {
        s.insert(x);
    }

    // try this a bunch of times to make sure we don't screw up internal state.
    for _ in 0..20 {
        assert_eq!(s.len(), 99);

        {
            let mut last_i = 0;
            let mut d = s.drain();
            for i in 0..50 {
                match d.next() {
                    Some(x) => {
                        last_i = i;
                        assert!(x != 0);
                    }
                    None => break,
                }
            }
            assert_eq!(last_i, 49);
        }

        let mut it = s.iter();
        if it.next().is_some() {
            panic!("s should be empty!");
        }

        // reset to try again.
        s.extend((1..100).collect());
    }
}

#[test]
fn test_extend_ref() {
    let mut a = LinearSet::new();
    a.insert(1);

    a.extend(vec![2, 3, 4]);

    assert_eq!(a.len(), 4);
    assert!(a.contains(&1));
    assert!(a.contains(&2));
    assert!(a.contains(&3));
    assert!(a.contains(&4));

    let mut b = LinearSet::new();
    b.insert(5);
    b.insert(6);

    let mut from_b = Vec::new();
    let mut it = b.iter();
    while let Some(&x) = it.next() {
        from_b.push(x);
    }
    a.extend(from_b);

    assert_eq!(a.len(), 6);
    assert!(a.contains(&1));
    assert!(a.contains(&2));
    assert!(a.contains(&3));
    assert!(a.contains(&4));
    assert!(a.contains(&5));
    assert!(a.contains(&6));
}

#[test]
fn test_into_vec() {
    let mut a = LinearSet::new();
    assert!(a.insert(0));
    assert!(a.insert(5));
    assert!(a.insert(11));
    assert!(a.insert(7));
    let set_as_vec: Vec<_> = a.into_vec();
    assert_eq!(set_as_vec, vec![0, 5, 11, 7]);
}

#[test]
fn set_test_retain() {
    let xs = [1, 2, 3, 4, 5, 6];
    let mut set: LinearSet<isize> = LinearSet::new();
    for &x in xs.iter() {
        set.insert(x);
    }
    set.retain(|&k| k % 2 == 0);
    assert_eq!(set.len(), 3);
    assert!(set.contains(&2));
    assert!(set.contains(&4));
    assert!(set.contains(&6));
}

#[test]
fn set_remove_and_clear() {
    let mut s = set_of(&[1, 2, 3]);
    assert!(s.remove(&2));
    assert!(!s.remove(&2));
    assert_eq!(s.len(), 2);
    assert!(!s.contains(&2));
    s.clear();
    assert!(s.is_empty());
}

#[test]
fn set_retain_keeps_order() {
    let mut s = set_of(&[6, 1, 4, 3, 2]);
    s.retain(|&k| k % 2 == 0);
    assert_eq!(s.into_vec(), vec![6, 4, 2]);
}

#[test]
fn set_adaptors_keep_storage_order() {
    let a = set_of(&[1, 2, 3]);
    let b = set_of(&[4, 2, 3, 5]);
    let mut out = Vec::new();
    let mut it = a.union(&b);
    while let Some(&x) = it.next() {
        out.push(x);
    }
    assert_eq!(out, vec![1, 2, 3, 4, 5]);
    let mut out = Vec::new();
    let mut it = a.symmetric_difference(&b);
    while let Some(&x) = it.next() {
        out.push(x);
    }
    assert_eq!(out, vec![1, 4, 5]);
}
