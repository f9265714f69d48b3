use vstd::prelude::*;

verus! {

/// No two entries of `s` carry the same key.
pub open spec fn keys_distinct<K, V>(s: Seq<(K, V)>) -> bool {
    forall|i: int, j: int|
        0 <= i < s.len() && 0 <= j < s.len() && i != j ==> #[trigger] s[i].0 != #[trigger] s[j].0
}

/// Some entry of `s` has the key `k`.
pub open spec fn has_key<K, V>(s: Seq<(K, V)>, k: K) -> bool {
    exists|i: int| 0 <= i < s.len() && #[trigger] s[i].0 == k
}

/// `i` is the first index of `s` whose entry has the key `k`.
pub open spec fn is_first_index<K, V>(s: Seq<(K, V)>, k: K, i: int) -> bool {
    &&& 0 <= i < s.len()
    &&& s[i].0 == k
    &&& forall|j: int| 0 <= j < i ==> #[trigger] s[j].0 != k
}

/// The first index of `s` whose entry has the key `k` (meaningful when `has_key(s, k)`).
pub open spec fn key_index<K, V>(s: Seq<(K, V)>, k: K) -> int {
    choose|i: int| is_first_index(s, k, i)
}

/// The map that a sequence of entries stands for: each key maps to the value
/// of its first entry.
pub open spec fn map_of<K, V>(s: Seq<(K, V)>) -> Map<K, V> {
    Map::new(|k: K| has_key(s, k), |k: K| s[key_index(s, k)].1)
}

/// The keys of `s`, in order.
pub open spec fn keys_of<K, V>(s: Seq<(K, V)>) -> Seq<K> {
    s.map_values(|e: (K, V)| e.0)
}

/// The values of `s`, in order.
pub open spec fn values_of<K, V>(s: Seq<(K, V)>) -> Seq<V> {
    s.map_values(|e: (K, V)| e.1)
}

/// Where some entry has the key `k`, a first such entry exists.
pub proof fn lemma_first_index<K, V>(s: Seq<(K, V)>, k: K, i: int)
    requires
        0 <= i < s.len(),
        s[i].0 == k,
    ensures
        is_first_index(s, k, key_index(s, k)),
    decreases i,
{
    if exists|j: int| 0 <= j < i && #[trigger] s[j].0 == k {
        let j = choose|j: int| 0 <= j < i && #[trigger] s[j].0 == k;
        lemma_first_index(s, k, j);
    } else {
        assert(is_first_index(s, k, i));
    }
}

/// The first entry with key `k` is what the map holds for `k`.
pub proof fn lemma_map_of_first<K, V>(s: Seq<(K, V)>, k: K, i: int)
    requires
        is_first_index(s, k, i),
    ensures
        map_of(s).contains_key(k),
        map_of(s)[k] == s[i].1,
{
    lemma_first_index(s, k, i);
    let m = key_index(s, k);
    assert(m == i) by {
        if m < i {
            assert(s[m].0 != k);
        } else if i < m {
            assert(s[i].0 != k);
        }
    }
}

/// The entry at index `i` is what the map holds for its key.
pub proof fn lemma_map_of_entry<K, V>(s: Seq<(K, V)>, i: int)
    requires
        keys_distinct(s),
        0 <= i < s.len(),
    ensures
        map_of(s).contains_key(s[i].0),
        map_of(s)[s[i].0] == s[i].1,
{
    assert(is_first_index(s, s[i].0, i));
    lemma_map_of_first(s, s[i].0, i);
}

/// A key that no entry carries is not in the map.
pub proof fn lemma_map_of_absent<K, V>(s: Seq<(K, V)>, k: K)
    requires
        !has_key(s, k),
    ensures
        !map_of(s).contains_key(k),
{
}

/// Appending an entry with a fresh key inserts it into the map.
pub proof fn lemma_map_of_push<K, V>(s: Seq<(K, V)>, k: K, v: V)
    requires
        keys_distinct(s),
        !has_key(s, k),
    ensures
        keys_distinct(s.push((k, v))),
        map_of(s.push((k, v))) == map_of(s).insert(k, v),
{
    let t = s.push((k, v));
    assert forall|i: int, j: int|
        0 <= i < t.len() && 0 <= j < t.len() && i != j implies #[trigger] t[i].0 != #[trigger] t[j].0 by {
        if i < s.len() && j < s.len() {
            assert(t[i] == s[i] && t[j] == s[j]);
        } else if i < s.len() {
            assert(t[i] == s[i]);
        } else {
            assert(t[j] == s[j]);
        }
    }
    assert forall|x: K| #[trigger] map_of(t).contains_key(x) == map_of(s).insert(k, v).contains_key(x) by {
        if has_key(s, x) {
            let i = choose|i: int| 0 <= i < s.len() && #[trigger] s[i].0 == x;
            assert(t[i] == s[i]);
        }
        if x == k {
            assert(t[s.len() as int].0 == k);
        }
        if has_key(t, x) && x != k {
            let i = choose|i: int| 0 <= i < t.len() && #[trigger] t[i].0 == x;
            assert(i < s.len());
            assert(s[i] == t[i]);
        }
    }
    assert forall|x: K| #[trigger] map_of(t).contains_key(x) implies map_of(t)[x] == map_of(s).insert(k, v)[x] by {
        if x == k {
            lemma_map_of_entry(t, s.len() as int);
        } else {
            let i = choose|i: int| 0 <= i < t.len() && #[trigger] t[i].0 == x;
            assert(i < s.len());
            assert(s[i] == t[i]);
            lemma_map_of_entry(t, i);
            lemma_map_of_entry(s, i);
        }
    }
    assert(map_of(t) =~= map_of(s).insert(k, v));
}

/// Replacing the value of the entry at `i` updates the map at its key.
pub proof fn lemma_map_of_set_value<K, V>(s: Seq<(K, V)>, i: int, v: V)
    requires
        keys_distinct(s),
        0 <= i < s.len(),
    ensures
        keys_distinct(s.update(i, (s[i].0, v))),
        map_of(s.update(i, (s[i].0, v))) == map_of(s).insert(s[i].0, v),
{
    let t = s.update(i, (s[i].0, v));
    let k = s[i].0;
    assert forall|a: int, b: int|
        0 <= a < t.len() && 0 <= b < t.len() && a != b implies #[trigger] t[a].0 != #[trigger] t[b].0 by {
        assert(t[a].0 == s[a].0 && t[b].0 == s[b].0);
    }
    assert forall|x: K| #[trigger] map_of(t).contains_key(x) == map_of(s).insert(k, v).contains_key(x) by {
        if has_key(s, x) {
            let j = choose|j: int| 0 <= j < s.len() && #[trigger] s[j].0 == x;
            assert(t[j].0 == x);
        }
        if has_key(t, x) {
            let j = choose|j: int| 0 <= j < t.len() && #[trigger] t[j].0 == x;
            assert(s[j].0 == x);
        }
    }
    assert forall|x: K| #[trigger] map_of(t).contains_key(x) implies map_of(t)[x] == map_of(s).insert(k, v)[x] by {
        let j = choose|j: int| 0 <= j < t.len() && #[trigger] t[j].0 == x;
        lemma_map_of_entry(t, j);
        if j != i {
            assert(t[j] == s[j]);
            lemma_map_of_entry(s, j);
        }
    }
    assert(map_of(t) =~= map_of(s).insert(k, v));
}

/// Removing the entry at `i` by moving the last entry into its place removes its key.
pub proof fn lemma_map_of_swap_remove<K, V>(s: Seq<(K, V)>, i: int)
    requires
        keys_distinct(s),
        0 <= i < s.len(),
    ensures
        keys_distinct(s.update(i, s.last()).drop_last()),
        map_of(s.update(i, s.last()).drop_last()) == map_of(s).remove(s[i].0),
{
    let t = s.update(i, s.last()).drop_last();
    let n = s.len() - 1;
    let k = s[i].0;
    // Index of `t` in terms of `s`.
    assert forall|a: int| 0 <= a < t.len() implies #[trigger] t[a] == s[if a == i { n } else { a }] by {}
    assert forall|a: int, b: int|
        0 <= a < t.len() && 0 <= b < t.len() && a != b implies #[trigger] t[a].0 != #[trigger] t[b].0 by {
        let a2 = if a == i { n } else { a };
        let b2 = if b == i { n } else { b };
        assert(t[a] == s[a2] && t[b] == s[b2]);
    }
    assert forall|x: K| #[trigger] map_of(t).contains_key(x) == map_of(s).remove(k).contains_key(x) by {
        if has_key(t, x) {
            let a = choose|a: int| 0 <= a < t.len() && #[trigger] t[a].0 == x;
            let a2 = if a == i { n } else { a };
            assert(t[a] == s[a2]);
            assert(a2 != i);
        }
        if has_key(s, x) && x != k {
            let a = choose|a: int| 0 <= a < s.len() && #[trigger] s[a].0 == x;
            assert(a != i);
            if a == n {
                assert(t[i] == s[n]);
            } else {
                assert(t[a] == s[a]);
            }
        }
    }
    assert forall|x: K| #[trigger] map_of(t).contains_key(x) implies map_of(t)[x] == map_of(s).remove(k)[x] by {
        let a = choose|a: int| 0 <= a < t.len() && #[trigger] t[a].0 == x;
        let a2 = if a == i { n } else { a };
        assert(t[a] == s[a2]);
        lemma_map_of_entry(t, a);
        lemma_map_of_entry(s, a2);
    }
    assert(map_of(t) =~= map_of(s).remove(k));
}

/// The map of entries with distinct keys has one key per entry.
pub proof fn lemma_map_of_len<K, V>(s: Seq<(K, V)>)
    requires
        keys_distinct(s),
    ensures
        map_of(s).dom().finite(),
        map_of(s).dom().len() == s.len(),
{
    let ks = keys_of(s);
    assert forall|x: K| #[trigger] map_of(s).dom().contains(x) == ks.to_set().contains(x) by {
        if map_of(s).dom().contains(x) {
            let i = choose|i: int| 0 <= i < s.len() && #[trigger] s[i].0 == x;
            assert(ks[i] == x);
        }
        if ks.to_set().contains(x) {
            let i = choose|i: int| 0 <= i < ks.len() && #[trigger] ks[i] == x;
            assert(s[i].0 == x);
        }
    }
    assert(map_of(s).dom() =~= ks.to_set());
    assert(ks.no_duplicates()) by {
        assert forall|i: int, j: int| 0 <= i < ks.len() && 0 <= j < ks.len() && i != j implies ks[i] != ks[j] by {
            assert(s[i].0 != s[j].0);
        }
    }
    ks.unique_seq_to_set();
}

/// The entries of `s` whose flag in `keep` is set, in order.
pub open spec fn kept<T>(s: Seq<T>, keep: Seq<bool>) -> Seq<T>
    decreases s.len(),
{
    if s.len() == 0 {
        Seq::empty()
    } else if keep[s.len() - 1] {
        kept(s.drop_last(), keep).push(s.last())
    } else {
        kept(s.drop_last(), keep)
    }
}

/// Keeping entries keeps keys distinct, and keeps only keys that were there.
pub proof fn lemma_kept_keys<K, V>(s: Seq<(K, V)>, keep: Seq<bool>)
    requires
        keys_distinct(s),
    ensures
        keys_distinct(kept(s, keep)),
        forall|k: K| has_key(kept(s, keep), k) ==> has_key(s, k),
    decreases s.len(),
{
    if s.len() > 0 {
        let p = s.drop_last();
        assert(keys_distinct(p)) by {
            assert forall|i: int, j: int| 0 <= i < p.len() && 0 <= j < p.len() && i != j implies #[trigger] p[i].0 != #[trigger] p[j].0 by {
                assert(p[i] == s[i] && p[j] == s[j]);
            }
        }
        lemma_kept_keys(p, keep);
        let kp = kept(p, keep);
        assert forall|k: K| has_key(kept(s, keep), k) implies has_key(s, k) by {
            let i = choose|i: int| 0 <= i < kept(s, keep).len() && #[trigger] kept(s, keep)[i].0 == k;
            if i < kp.len() {
                assert(kept(s, keep)[i] == kp[i]);
                assert(has_key(kp, k));
                assert(has_key(p, k));
                let j = choose|j: int| 0 <= j < p.len() && #[trigger] p[j].0 == k;
                assert(s[j] == p[j]);
                assert(s[j].0 == k);
            } else {
                assert(s[s.len() - 1].0 == k);
            }
        }
        if keep[s.len() - 1] {
            let t = kp.push(s.last());
            assert(!has_key(kp, s.last().0)) by {
                if has_key(kp, s.last().0) {
                    assert(has_key(p, s.last().0));
                    let j = choose|j: int| 0 <= j < p.len() && #[trigger] p[j].0 == s.last().0;
                    assert(s[j] == p[j]);
                    assert(s[j].0 == s[s.len() - 1].0);
                }
            }
            lemma_map_of_push(kp, s.last().0, s.last().1);
        }
    }
}

/// Keeping every entry keeps the sequence.
pub proof fn lemma_kept_all<T>(s: Seq<T>, keep: Seq<bool>)
    requires
        forall|i: int| 0 <= i < s.len() ==> #[trigger] keep[i],
    ensures
        kept(s, keep) == s,
    decreases s.len(),
{
    if s.len() > 0 {
        lemma_kept_all(s.drop_last(), keep);
        assert(keep[s.len() - 1]);
        assert(s.drop_last().push(s.last()) =~= s);
    }
}

/// Keeping no entry leaves nothing.
pub proof fn lemma_kept_none<T>(s: Seq<T>, keep: Seq<bool>)
    requires
        forall|i: int| 0 <= i < s.len() ==> !#[trigger] keep[i],
    ensures
        kept(s, keep).len() == 0,
    decreases s.len(),
{
    if s.len() > 0 {
        assert(!keep[s.len() - 1]);
        lemma_kept_none(s.drop_last(), keep);
    }
}

/// Keeping entries and then taking their keys is taking the keys and then keeping.
pub proof fn lemma_keys_of_kept<K, V>(s: Seq<(K, V)>, keep: Seq<bool>)
    ensures
        keys_of(kept(s, keep)) == kept(keys_of(s), keep),
    decreases s.len(),
{
    if s.len() > 0 {
        lemma_keys_of_kept(s.drop_last(), keep);
        assert(keys_of(s).drop_last() =~= keys_of(s.drop_last()));
        assert(keys_of(kept(s.drop_last(), keep).push(s.last())) =~= keys_of(kept(s.drop_last(), keep)).push(s.last().0));
    }
}

/// What `m` holds for `k`, if anything.
pub open spec fn lookup<K, V>(m: Map<K, V>, k: K) -> Option<V> {
    if m.contains_key(k) {
        Some(m[k])
    } else {
        None
    }
}

/// `m` after inserting each pair of `pairs` in turn; a later pair overwrites
/// an earlier one with the same key.
pub open spec fn insert_all<K, V>(m: Map<K, V>, pairs: Seq<(K, V)>) -> Map<K, V>
    decreases pairs.len(),
{
    if pairs.len() == 0 {
        m
    } else {
        insert_all(m, pairs.drop_last()).insert(pairs.last().0, pairs.last().1)
    }
}

/// Inserting pairs with distinct keys adds their map on top of `m`.
pub proof fn lemma_insert_all_distinct<K, V>(m: Map<K, V>, pairs: Seq<(K, V)>)
    requires
        keys_distinct(pairs),
    ensures
        insert_all(m, pairs) == m.union_prefer_right(map_of(pairs)),
    decreases pairs.len(),
{
    if pairs.len() == 0 {
        assert(m.union_prefer_right(map_of(pairs)) =~= m);
    } else {
        let p = pairs.drop_last();
        let (k, v) = pairs.last();
        assert(keys_distinct(p)) by {
            assert forall|i: int, j: int| 0 <= i < p.len() && 0 <= j < p.len() && i != j implies #[trigger] p[i].0 != #[trigger] p[j].0 by {
                assert(p[i] == pairs[i] && p[j] == pairs[j]);
            }
        }
        lemma_insert_all_distinct(m, p);
        assert(!has_key(p, k)) by {
            if has_key(p, k) {
                let j = choose|j: int| 0 <= j < p.len() && #[trigger] p[j].0 == k;
                assert(pairs[j] == p[j]);
                assert(pairs[j].0 == pairs[pairs.len() - 1].0);
            }
        }
        lemma_map_of_push(p, k, v);
        assert(p.push((k, v)) =~= pairs);
        assert(m.union_prefer_right(map_of(p)).insert(k, v) =~= m.union_prefer_right(map_of(p).insert(k, v)));
    }
}

/// Two sequences of pairs with distinct keys that hold the same pairs stand
/// for the same map.
pub proof fn lemma_map_of_same_pairs<K, V>(p: Seq<(K, V)>, q: Seq<(K, V)>)
    requires
        keys_distinct(p),
        keys_distinct(q),
        p.to_set() == q.to_set(),
    ensures
        map_of(p) == map_of(q),
{
    assert forall|k: K| #[trigger] map_of(p).contains_key(k) implies map_of(q).contains_key(k) && map_of(q)[k] == map_of(p)[k] by {
        let i = choose|i: int| 0 <= i < p.len() && #[trigger] p[i].0 == k;
        assert(p.to_set().contains(p[i]));
        assert(q.to_set().contains(p[i]));
        let j = choose|j: int| 0 <= j < q.len() && #[trigger] q[j] == p[i];
        lemma_map_of_entry(p, i);
        lemma_map_of_entry(q, j);
    }
    assert forall|k: K| #[trigger] map_of(q).contains_key(k) implies map_of(p).contains_key(k) by {
        let j = choose|j: int| 0 <= j < q.len() && #[trigger] q[j].0 == k;
        assert(q.to_set().contains(q[j]));
        assert(p.to_set().contains(q[j]));
        let i = choose|i: int| 0 <= i < p.len() && #[trigger] p[i] == q[j];
        assert(p[i].0 == k);
    }
    assert(map_of(p) =~= map_of(q));
}

/// The pairs after inserting `(k, v)`: where `k` is present its value is
/// replaced in place and the stored key kept; otherwise the pair is appended.
pub open spec fn insert_entry<K, V>(s: Seq<(K, V)>, k: K, v: V) -> Seq<(K, V)> {
    if has_key(s, k) {
        s.update(key_index(s, k), (s[key_index(s, k)].0, v))
    } else {
        s.push((k, v))
    }
}

/// The pairs after removing key `k`: the last pair moves into the freed slot;
/// nothing changes where `k` is absent.
pub open spec fn remove_entry<K, V>(s: Seq<(K, V)>, k: K) -> Seq<(K, V)> {
    if has_key(s, k) {
        s.update(key_index(s, k), s.last()).drop_last()
    } else {
        s
    }
}

/// The pairs after inserting each pair of `pairs` in turn, as `insert_entry` does.
pub open spec fn insert_all_entries<K, V>(s: Seq<(K, V)>, pairs: Seq<(K, V)>) -> Seq<(K, V)>
    decreases pairs.len(),
{
    if pairs.len() == 0 {
        s
    } else {
        insert_entry(insert_all_entries(s, pairs.drop_last()), pairs.last().0, pairs.last().1)
    }
}

/// Where the keys are distinct, an index holding `k` is the one `key_index` names.
pub proof fn lemma_key_index_distinct<K, V>(s: Seq<(K, V)>, i: int)
    requires
        keys_distinct(s),
        0 <= i < s.len(),
    ensures
        key_index(s, s[i].0) == i,
{
    assert(is_first_index(s, s[i].0, i));
    lemma_first_index(s, s[i].0, i);
    let m = key_index(s, s[i].0);
    if m != i {
        assert(s[m].0 == s[i].0);
    }
}

/// Inserting pairs with distinct keys, one by one, into nothing stores them
/// in their order.
pub proof fn lemma_insert_all_entries_distinct<K, V>(pairs: Seq<(K, V)>)
    requires
        keys_distinct(pairs),
    ensures
        insert_all_entries(Seq::<(K, V)>::empty(), pairs) == pairs,
    decreases pairs.len(),
{
    if pairs.len() > 0 {
        let p = pairs.drop_last();
        assert(keys_distinct(p)) by {
            assert forall|i: int, j: int| 0 <= i < p.len() && 0 <= j < p.len() && i != j implies #[trigger] p[i].0 != #[trigger] p[j].0 by {
                assert(p[i] == pairs[i] && p[j] == pairs[j]);
            }
        }
        lemma_insert_all_entries_distinct(p);
        assert(!has_key(p, pairs.last().0)) by {
            if has_key(p, pairs.last().0) {
                let j = choose|j: int| 0 <= j < p.len() && #[trigger] p[j].0 == pairs.last().0;
                assert(pairs[j] == p[j]);
                assert(pairs[j].0 == pairs[pairs.len() - 1].0);
            }
        }
        assert(p.push(pairs.last()) =~= pairs);
    }
}

/// The elements after adding each of `items` in turn: an item already
/// present is skipped, a new one is appended.
pub open spec fn add_all<T>(s: Seq<T>, items: Seq<T>) -> Seq<T>
    decreases items.len(),
{
    if items.len() == 0 {
        s
    } else {
        let p = add_all(s, items.drop_last());
        if p.contains(items.last()) {
            p
        } else {
            p.push(items.last())
        }
    }
}

} // verus!
