//! Which key popping the front of the B+ tree takes, whatever the tree's
//! depth.
use vstd::prelude::*;
use crate::big_ordered_map::{
    descend_index, has_key_at_bound, lemma_lower_bound_props, lemma_lower_bound_range, lemma_search_path_last_stops,
    lemma_search_path_step, lower_bound_spec, value_at_bound, BigOrderedMap, SlotStore, TreeKey,
};
use crate::tree_add_law::{inner_ok, valid_searches};

verus! {

/// Whether the smallest leaf is the leftmost one: a leaf with entries where
/// the search for its first key ends, having taken the first entry of every
/// node on the way.
pub open spec fn leftmost_leaf<K: TreeKey, V>(m: BigOrderedMap<K, V>, s: SlotStore<K, V>) -> bool {
    let x = m.min_leaf();
    let n = m.node_at(s, x).unwrap();
    let k0 = n.entry_seq()[0].key;
    let q0 = m.key_search(s, k0).unwrap();
    &&& m.node_at(s, x) is Some && n.leaf_flag() && n.entry_seq().len() > 0
    &&& m.key_search(s, k0) is Some && q0.last() == x
    &&& forall|d: int| 0 <= d < q0.len() - 1 ==> descend_index(m.node_at(s, #[trigger] q0[d]).unwrap().entry_seq(), k0) == 0
}

proof fn lemma_front_walk<K: TreeKey, V>(m: BigOrderedMap<K, V>, s: SlotStore<K, V>, k: K, d: int)
    requires
        valid_searches(m, s),
        leftmost_leaf(m, s),
        m.map_view(s).contains_key(k),
        ({
            let k0 = m.node_at(s, m.min_leaf()).unwrap().entry_seq()[0].key;
            let q0 = m.key_search(s, k0).unwrap();
            let q = m.key_search(s, k).unwrap();
            &&& 0 <= d < q.len() && d < q0.len()
            &&& forall|e: int| 0 <= e <= d ==> #[trigger] q[e] == q0[e]
        }),
    ensures
        !k.key_lt(m.node_at(s, m.min_leaf()).unwrap().entry_seq()[0].key),
    decreases m.key_search(s, k).unwrap().len() - d,
{
    let x = m.min_leaf();
    let es0 = m.node_at(s, x).unwrap().entry_seq();
    let k0 = es0[0].key;
    let q0 = m.key_search(s, k0).unwrap();
    let q = m.key_search(s, k).unwrap();
    m.lemma_search_path_ends(s, k, 1, 20);
    m.lemma_search_path_ends(s, k0, 1, 20);
    K::lemma_key_lt_irreflexive(k);
    if d == q0.len() - 1 {
        // the search for k reaches the smallest leaf and stops there
        assert(q[d] == x);
        if d < q.len() - 1 {
            lemma_search_path_step(m, s, k, 1, 20, d);
        }
        assert(q.last() == x);
        let p = lower_bound_spec(es0, k);
        lemma_lower_bound_range(es0, k);
        assert(sorted_keys_of(m, s, k));
        assert(has_key_at_bound(es0, k));
        if p > 0 {
            assert(es0[0].key.key_lt(es0[p].key));
            if k.key_lt(k0) {
                K::lemma_key_lt_transitive(k, k0, k);
            }
        }
    } else {
        assert(inner_ok(m, s, k0, q0, d));
        let y = m.node_at(s, q0[d]).unwrap();
        let ye = y.entry_seq();
        let c = descend_index(ye, k);
        lemma_lower_bound_range(ye, k);
        lemma_lower_bound_props(ye, k);
        if d == q.len() - 1 {
            lemma_search_path_last_stops(m, s, k, 1, 20);
        }
        lemma_search_path_step(m, s, k, 1, 20, d);
        lemma_search_path_step(m, s, k0, 1, 20, d);
        if c == 0 {
            assert(q[d + 1] == q0[d + 1]);
            lemma_front_walk(m, s, k, d + 1);
        } else {
            lemma_lower_bound_range(ye, k0);
            lemma_lower_bound_props(ye, k0);
            assert(descend_index(ye, k0) == 0);
            assert(!ye[0].key.key_lt(k0));
            assert(ye[c - 1].key.key_lt(k));
            if c - 1 > 0 {
                assert(ye[0].key.key_lt(ye[c - 1].key));
                K::lemma_key_lt_transitive(ye[0].key, ye[c - 1].key, k);
            }
            assert(ye[0].key.key_lt(k));
            if k.key_lt(k0) {
                if ye[0].key != k0 {
                    K::lemma_key_lt_total(ye[0].key, k0);
                    K::lemma_key_lt_transitive(k, k0, ye[0].key);
                    K::lemma_key_lt_transitive(k, ye[0].key, k);
                } else {
                    K::lemma_key_lt_transitive(k, k0, k);
                }
            }
        }
    }
}

spec fn sorted_keys_of<K: TreeKey, V>(m: BigOrderedMap<K, V>, s: SlotStore<K, V>, k: K) -> bool {
    crate::big_ordered_map::sorted_keys(m.node_at(s, m.key_search(s, k).unwrap().last()).unwrap().entry_seq())
}

/// In a tree that every search reads as a B+ tree and whose smallest leaf
/// is its leftmost, the first key of the smallest leaf, the key that
/// popping the front takes, is the least key of the map.
pub proof fn lemma_front_key_least<K: TreeKey, V>(m: BigOrderedMap<K, V>, s: SlotStore<K, V>, k: K)
    requires
        valid_searches(m, s),
        leftmost_leaf(m, s),
        m.map_view(s).contains_key(k),
    ensures
        !k.key_lt(m.node_at(s, m.min_leaf()).unwrap().entry_seq()[0].key),
{
    let k0 = m.node_at(s, m.min_leaf()).unwrap().entry_seq()[0].key;
    m.lemma_search_path_ends(s, k, 1, 20);
    m.lemma_search_path_ends(s, k0, 1, 20);
    assert(m.key_search(s, k) is Some);
    lemma_front_walk(m, s, k, 0);
}

} // verus!
