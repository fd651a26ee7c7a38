use vstd::prelude::*;

use std::collections::BTreeMap;

verus! {

/// How often `k` occurs in `s`.
pub open spec fn occurrences(s: Seq<i64>, k: i64) -> nat
    decreases s.len(),
{
    if s.len() == 0 {
        0
    } else {
        occurrences(s.drop_last(), k) + (if s.last() == k { 1nat } else { 0nat })
    }
}

/// `occurrences` is the count of `k` in the multiset of `s`.
pub proof fn lemma_occurrences_count(s: Seq<i64>, k: i64)
    ensures
        occurrences(s, k) == s.to_multiset().count(k),
    decreases s.len(),
{
    broadcast use vstd::seq_lib::group_to_multiset_ensures;

    if s.len() == 0 {
        assert(s.to_multiset().len() == 0);
        assert(s.to_multiset() =~= vstd::multiset::Multiset::<i64>::empty());
    } else {
        lemma_occurrences_count(s.drop_last(), k);
        assert(s.drop_last().push(s.last()) =~= s);
    }
}

/// The histogram does not depend on the order of the keys: two sequences
/// holding the same keys equally often have the same occurrences.
pub proof fn lemma_histogram_order_free(a: Seq<i64>, b: Seq<i64>)
    requires
        a.to_multiset() == b.to_multiset(),
    ensures
        forall|k: i64| #[trigger] occurrences(a, k) == occurrences(b, k),
{
    assert forall|k: i64| #[trigger] occurrences(a, k) == occurrences(b, k) by {
        lemma_occurrences_count(a, k);
        lemma_occurrences_count(b, k);
    }
}

/// Keys of type `i64` are ordered as integers are.
pub open spec fn keys_ordered() -> bool {
    vstd::laws_cmp::obeys_cmp::<i64>()
}

proof fn lemma_keys_ordered()
    ensures
        keys_ordered(),
{
    broadcast use vstd::laws_cmp::group_laws_cmp;

}

/// Counts how often each key occurs: the map holds exactly the keys that
/// occur, each with its number of occurrences.
pub fn make_histogram(keys: &[i64]) -> (map: BTreeMap<i64, i64>)
    requires
        keys@.len() <= i64::MAX,
    ensures
        forall|k: i64| #[trigger] map@.contains_key(k) <==> occurrences(keys@, k) > 0,
        forall|k: i64| #[trigger] map@.contains_key(k) ==> map@[k] == occurrences(keys@, k),
        forall|k: i64| #[trigger] map@.contains_key(k) ==> map@[k] == keys@.to_multiset().count(k),
{
    proof {
        lemma_keys_ordered();
    }
    let mut map: BTreeMap<i64, i64> = BTreeMap::new();
    let n = keys.len();
    let mut i: usize = 0;
    while i < n
        invariant
            n == keys@.len(),
            n <= i64::MAX,
            keys_ordered(),
            0 <= i <= n,
            forall|k: i64| #[trigger] map@.contains_key(k) <==> occurrences(keys@.take(i as int), k) > 0,
            forall|k: i64| #[trigger] map@.contains_key(k) ==> map@[k] == occurrences(keys@.take(i as int), k),
            forall|k: i64| occurrences(keys@.take(i as int), k) <= i,
        decreases n - i,
    {
        let key = keys[i];
        let count: i64 = match map.get(&key) {
            Some(c) => *c,
            None => 0,
        };
        proof {
            let before = keys@.take(i as int);
            let after = keys@.take(i + 1);
            assert(after.drop_last() =~= before);
            assert(after.last() == key);
            assert(count == occurrences(before, key));
            assert forall|k: i64| occurrences(after, k) <= i + 1 by {
                assert(occurrences(after, k) == occurrences(before, k) + (if key == k { 1nat } else { 0nat }));
            }
        }
        map.insert(key, count + 1);
        i = i + 1;
    }
    assert(keys@.take(n as int) =~= keys@);
    assert forall|k: i64| #[trigger] map@.contains_key(k) implies map@[k] == keys@.to_multiset().count(k) by {
        lemma_occurrences_count(keys@, k);
    }
    map
}

} // verus!
