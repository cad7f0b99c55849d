//! A point-in-time plain view of a bounded LRU cache: the cache's keys in
//! traversal order, zipped positionally with its values in the same order,
//! as a hash map.

use vstd::prelude::*;

use std::collections::HashMap;

verus! {

broadcast use vstd::std_specs::hash::group_hash_axioms;

#[verifier::external_type_specification]
#[verifier::external_body]
#[verifier::reject_recursive_types(K)]
#[verifier::reject_recursive_types(V)]
pub struct ExSizedCache<K, V>(cached::SizedCache<K, V>);

/// The keys a sized cache holds, in its traversal order, most recently
/// used first.
pub uninterp spec fn cache_key_seq(c: cached::SizedCache<u64, u64>) -> Seq<u64>;

/// The values a sized cache holds, in the same traversal order as
/// [`cache_key_seq`]: the i-th value belongs to the i-th key.
pub uninterp spec fn cache_value_seq(c: cached::SizedCache<u64, u64>) -> Seq<u64>;

/// Relies on `cached::SizedCache::key_order`: it walks the cache's
/// recency list from most to least recently used and yields each entry's
/// key; a key is held at most once, since entries are looked up by key and
/// re-setting a key overwrites its entry in place.
#[verifier::external_body]
fn cache_keys(c: &cached::SizedCache<u64, u64>) -> (r: Vec<u64>)
    ensures
        r@ == cache_key_seq(*c),
        forall|i: int, j: int| 0 <= i < j < r@.len() ==> r@[i] != r@[j],
{
    c.key_order().cloned().collect()
}

/// Relies on `cached::SizedCache::value_order`: it walks the same recency
/// list as `key_order`, in the same order, and yields each entry's value,
/// so there are exactly as many values as keys.
#[verifier::external_body]
fn cache_values(c: &cached::SizedCache<u64, u64>) -> (r: Vec<u64>)
    ensures
        r@ == cache_value_seq(*c),
        r@.len() == cache_key_seq(*c).len(),
{
    c.value_order().cloned().collect()
}

/// The map that pairs the i-th of the first `n` keys with the i-th value;
/// a repeated key would keep its last pairing.
pub open spec fn zip_map_n(ks: Seq<u64>, vs: Seq<u64>, n: int) -> Map<u64, u64>
    decreases n,
{
    if n <= 0 {
        Map::<u64, u64>::empty()
    } else {
        zip_map_n(ks, vs, n - 1).insert(ks[n - 1], vs[n - 1])
    }
}

/// The snapshot of aligned key and value sequences: positional pairing,
/// truncated to the shorter sequence.
pub open spec fn spec_snapshot(ks: Seq<u64>, vs: Seq<u64>) -> Map<u64, u64> {
    zip_map_n(ks, vs, if ks.len() <= vs.len() { ks.len() as int } else { vs.len() as int })
}

proof fn lemma_zip_map_n_props(ks: Seq<u64>, vs: Seq<u64>, n: int)
    requires
        0 <= n <= ks.len(),
        n <= vs.len(),
        forall|i: int, j: int| 0 <= i < j < ks.len() ==> ks[i] != ks[j],
    ensures
        forall|i: int|
            0 <= i < n ==> zip_map_n(ks, vs, n).contains_key(#[trigger] ks[i]) && zip_map_n(
                ks,
                vs,
                n,
            )[ks[i]] == vs[i],
        forall|k: u64|
            zip_map_n(ks, vs, n).contains_key(k) ==> exists|i: int|
                0 <= i < n && #[trigger] ks[i] == k,
    decreases n,
{
    if n > 0 {
        lemma_zip_map_n_props(ks, vs, n - 1);
        assert(forall|i: int| 0 <= i < n - 1 ==> #[trigger] ks[i] != ks[n - 1]);
        assert forall|k: u64| zip_map_n(ks, vs, n).contains_key(k) implies exists|i: int|
            0 <= i < n && #[trigger] ks[i] == k by {
            if k == ks[n - 1] {
            } else {
                assert(zip_map_n(ks, vs, n - 1).contains_key(k));
            }
        }
    }
}

/// The snapshot pairs each key with the value at the same position: with
/// distinct keys and aligned sequences, the snapshot holds exactly the
/// keys, each mapped to its positional value.
pub proof fn lemma_snapshot_pairing(ks: Seq<u64>, vs: Seq<u64>)
    requires
        ks.len() == vs.len(),
        forall|i: int, j: int| 0 <= i < j < ks.len() ==> ks[i] != ks[j],
    ensures
        forall|i: int|
            0 <= i < ks.len() ==> spec_snapshot(ks, vs).contains_key(#[trigger] ks[i])
                && spec_snapshot(ks, vs)[ks[i]] == vs[i],
        spec_snapshot(ks, vs).dom() =~= ks.to_set(),
{
    lemma_zip_map_n_props(ks, vs, ks.len() as int);
    assert forall|k: u64| spec_snapshot(ks, vs).dom().contains(k) implies ks.to_set().contains(
        k,
    ) by {
        let i = choose|i: int| 0 <= i < ks.len() && #[trigger] ks[i] == k;
        assert(ks.contains(k));
    }
}

/// Convert a sized cache to a plain hash map, pairing the i-th key of the
/// cache's traversal order with the i-th value of the same order.
///
/// A pure read: the cache is not touched beyond walking its two
/// traversals.
pub fn cache_to_hashmap(cache: &cached::SizedCache<u64, u64>) -> (r: HashMap<u64, u64>)
    ensures
        r@ == spec_snapshot(cache_key_seq(*cache), cache_value_seq(*cache)),
{
    let ks = cache_keys(cache);
    let vs = cache_values(cache);
    let n = if ks.len() <= vs.len() {
        ks.len()
    } else {
        vs.len()
    };
    let mut m: HashMap<u64, u64> = HashMap::new();
    let mut i: usize = 0;
    while i < n
        invariant
            n <= ks@.len(),
            n <= vs@.len(),
            0 <= i <= n,
            m@ == zip_map_n(ks@, vs@, i as int),
        decreases n - i,
    {
        m.insert(ks[i], vs[i]);
        i = i + 1;
    }
    m
}

} // verus!
