use vstd::prelude::*;
use vstd::set_lib::lemma_subset_equality;
use vstd::std_specs::cmp::PartialEqSpec;

use crate::map::LinearMap;
use crate::set::LinearSet;
use crate::model::{
    insert_all, insert_all_entries, keys_distinct, lemma_insert_all_entries_distinct, lemma_insert_all_distinct, lemma_map_of_entry, lemma_map_of_len,
    lemma_map_of_same_pairs, lookup, map_of,
};

verus! {

/// A well-formed map holds each key once, so its length is the number of
/// distinct keys it holds. Every operation that changes a map keeps it
/// well formed.
pub proof fn law_len_counts_keys<K, V>(m: &LinearMap<K, V>)
    requires
        m.wf(),
    ensures
        m@.dom().finite(),
        m@.dom().len() == m.entries().len(),
        forall|i: int, j: int|
            0 <= i < m.entries().len() && 0 <= j < m.entries().len() && i != j ==> #[trigger] m.entries()[i].0
                != #[trigger] m.entries()[j].0,
{
    m.lemma_view();
    lemma_map_of_len(m.entries());
}

/// After `insert(k, v)`, looking up `k` finds `v`; inserting `(k, v2)` next
/// hands back `v` and leaves `v2` under `k`.
pub proof fn law_insert_then_get<K, V>(m: Map<K, V>, k: K, v: V, v2: V)
    ensures
        lookup(m.insert(k, v), k) == Some(v),
        lookup(m.insert(k, v).insert(k, v2), k) == Some(v2),
{
}

/// Two well-formed maps compare equal exactly when they hold the same pairs,
/// whatever order the pairs are stored in.
pub proof fn law_eq_is_map_equality<K: Eq, V: PartialEq>(a: &LinearMap<K, V>, b: &LinearMap<K, V>)
    requires
        a.wf(),
        b.wf(),
    ensures
        a.eq_spec(b) <==> a@ == b@,
{
    a.lemma_view();
    b.lemma_view();
    let sa = a.entries();
    let sb = b.entries();
    lemma_map_of_len(sa);
    lemma_map_of_len(sb);
    if a.eq_spec(b) {
        assert(a@.dom().subset_of(b@.dom())) by {
            assert forall|k: K| a@.dom().contains(k) implies b@.dom().contains(k) by {
                let i = choose|i: int| 0 <= i < sa.len() && #[trigger] sa[i].0 == k;
                assert(map_of(sb).contains_key(sa[i].0));
            }
        }
        lemma_subset_equality(a@.dom(), b@.dom());
        assert forall|k: K| #[trigger] a@.contains_key(k) implies a@[k] == b@[k] by {
            let i = choose|i: int| 0 <= i < sa.len() && #[trigger] sa[i].0 == k;
            lemma_map_of_entry(sa, i);
        }
        assert(a@ =~= b@);
    }
    if a@ == b@ {
        assert forall|i: int| 0 <= i < sa.len() implies map_of(sb).contains_key(#[trigger] sa[i].0)
            && map_of(sb)[sa[i].0] == sa[i].1 by {
            lemma_map_of_entry(sa, i);
        }
    }
}

/// Inserting the same pairs, with distinct keys, in two different orders
/// gives the same map.
pub proof fn law_insert_order<K, V>(m: Map<K, V>, p: Seq<(K, V)>, q: Seq<(K, V)>)
    requires
        keys_distinct(p),
        keys_distinct(q),
        p.to_set() == q.to_set(),
    ensures
        insert_all(m, p) == insert_all(m, q),
{
    lemma_insert_all_distinct(m, p);
    lemma_insert_all_distinct(m, q);
    lemma_map_of_same_pairs(p, q);
}

/// Writing a map out as its pairs in storage order and reading them back by
/// inserting each in turn gives the same map, with its pairs in the same order.
pub proof fn law_round_trip<K, V>(m: &LinearMap<K, V>)
    requires
        m.wf(),
    ensures
        insert_all(Map::<K, V>::empty(), m.entries()) == m@,
        insert_all_entries(Seq::<(K, V)>::empty(), m.entries()) == m.entries(),
{
    m.lemma_view();
    lemma_insert_all_entries_distinct(m.entries());
    lemma_insert_all_distinct(Map::<K, V>::empty(), m.entries());
    assert(Map::<K, V>::empty().union_prefer_right(map_of(m.entries())) =~= map_of(m.entries()));
}

/// Two well-formed sets compare equal exactly when they hold the same
/// elements, whatever order the elements are stored in.
pub proof fn law_set_eq_is_set_equality<T: Eq>(a: &LinearSet<T>, b: &LinearSet<T>)
    requires
        a.wf(),
        b.wf(),
    ensures
        a.eq_spec(b) <==> a@ == b@,
{
    a.lemma_view();
    b.lemma_view();
    if a.eq_spec(b) {
        assert(a@.subset_of(b@)) by {
            assert forall|x: T| a@.contains(x) implies b@.contains(x) by {
                let i = choose|i: int| 0 <= i < a.elements().len() && #[trigger] a.elements()[i] == x;
            }
        }
        lemma_subset_equality(a@, b@);
    }
}

} // verus!
