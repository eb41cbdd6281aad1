//! What a read gives back after an add to the B+ tree, whatever the depth
//! that the add's split climbs to.
use vstd::prelude::*;
use crate::big_ordered_map::{
    descend_index, lemma_child_slot_index, lemma_lower_bound_char, lemma_lower_bound_props, lemma_lower_bound_range,
    lemma_search_path_last_stops, lemma_search_path_step, lower_bound_spec, points_to, same_search_view,
    sorted_keys, split_parent_entries, value_at_bound, BigOrderedMap, Child, Entry, SlotStore, StoredSlot, TreeKey,
    lemma_halves_descend, has_key_at_bound, upsert_entries, lemma_upsert_then_value, lemma_upsert_keeps_other,
    Link, TableWrite, stored_after, lemma_after_writes_at, lemma_after_writes_untouched, lemma_search_fuel,
    lemma_lower_bound_char as lbc, after_writes, grown_key_at, Node,
};

verus! {

/// The result of the search for `k` from slot `x` with `f` steps at most:
/// none where the search does not end, else the value that the node where
/// it ends holds for `k`, if any.
pub open spec fn sval<K: TreeKey, V>(m: BigOrderedMap<K, V>, s: SlotStore<K, V>, k: K, x: u64, f: nat) -> Option<
    Option<V>,
> {
    match m.search_path(s, k, x, f) {
        Some(q) => Some(value_at_bound(m.node_at(s, q.last()).unwrap().entry_seq(), k)),
        None => None,
    }
}

/// One step of such a search.
pub proof fn lemma_sval_unfold<K: TreeKey, V>(m: BigOrderedMap<K, V>, s: SlotStore<K, V>, k: K, x: u64, f: nat)
    ensures
        sval(m, s, k, x, f) == (if f == 0 {
            None
        } else {
            match m.node_at(s, x) {
                None => None,
                Some(n) => if n.leaf_flag() || n.entry_seq().len() == 0 {
                    Some(value_at_bound(n.entry_seq(), k))
                } else {
                    match n.entry_seq()[descend_index(n.entry_seq(), k)].value {
                        Child::Inner { node_index } => sval(m, s, k, node_index.slot_index, (f - 1) as nat),
                        Child::Leaf { .. } => Some(value_at_bound(n.entry_seq(), k)),
                    }
                },
            }
        }),
{
    if f > 0 {
        if let Some(n) = m.node_at(s, x) {
            if !(n.leaf_flag() || n.entry_seq().len() == 0) {
                if let Child::Inner { node_index } = n.entry_seq()[descend_index(n.entry_seq(), k)].value {
                    m.lemma_search_path_ends(s, k, node_index.slot_index, (f - 1) as nat);
                    if let Some(q) = m.search_path(s, k, node_index.slot_index, (f - 1) as nat) {
                        assert((seq![x] + q).last() == q.last());
                    }
                }
            }
        }
    }
}

/// A search that goes on along the old search for `k` from its depth `d`,
/// through slots that read alike for searches in both, ends alike.
pub proof fn lemma_sval_frame<K: TreeKey, V>(
    m0: BigOrderedMap<K, V>,
    s0: SlotStore<K, V>,
    m1: BigOrderedMap<K, V>,
    s1: SlotStore<K, V>,
    k: K,
    d: int,
    f: nat,
)
    requires
        m0.key_search(s0, k) is Some,
        0 <= d < m0.key_search(s0, k).unwrap().len(),
        forall|e: int|
            d <= e < m0.key_search(s0, k).unwrap().len() ==> same_search_view(
                #[trigger] m1.node_at(s1, m0.key_search(s0, k).unwrap()[e]),
                m0.node_at(s0, m0.key_search(s0, k).unwrap()[e]),
            ),
    ensures
        sval(m1, s1, k, m0.key_search(s0, k).unwrap()[d], f) == sval(
            m0,
            s0,
            k,
            m0.key_search(s0, k).unwrap()[d],
            f,
        ),
    decreases f,
{
    let q = m0.key_search(s0, k).unwrap();
    lemma_sval_unfold(m0, s0, k, q[d], f);
    lemma_sval_unfold(m1, s1, k, q[d], f);
    assert(same_search_view(m1.node_at(s1, q[d]), m0.node_at(s0, q[d])));
    if f > 0 && m0.node_at(s0, q[d]) is Some {
        let n = m0.node_at(s0, q[d]).unwrap();
        if !(n.leaf_flag() || n.entry_seq().len() == 0) && n.entry_seq()[descend_index(n.entry_seq(), k)].value is Inner {
            if d == q.len() - 1 {
                lemma_search_path_last_stops(m0, s0, k, 1, 20);
            }
            lemma_search_path_step(m0, s0, k, 1, 20, d);
            lemma_sval_frame(m0, s0, m1, s1, k, d + 1, (f - 1) as nat);
        }
    }
}


/// A parent's entries after its child in slot `right`, at `ci`, split into
/// a left part in slot `left` with largest key `lm` and a right part with
/// largest key `rm`: the entry's key becomes `rm` and the left part's entry
/// goes in just before it, the entries stay sorted, and a key goes to the
/// child it went to before, but for one that went to the split child: that
/// one goes to the left part where it is not above `lm`, else to the right.
pub proof fn lemma_split_route<K: TreeKey, V>(
    pe: Seq<Entry<K, Child<V>>>,
    ci: int,
    right: u64,
    rm: K,
    left: u64,
    lm: K,
    o: K,
)
    requires
        sorted_keys(pe),
        0 <= ci < pe.len(),
        points_to(pe[ci].value, right),
        forall|j: int| 0 <= j < ci ==> !points_to(#[trigger] pe[j].value, right),
        lm.key_lt(rm),
        ci == 0 || pe[ci - 1].key.key_lt(lm),
        ci == pe.len() - 1 || rm == pe[ci].key,
    ensures
        ({
            let np = split_parent_entries(pe, right, rm, left, lm);
            let dn = descend_index(np, o);
            let dold = descend_index(pe, o);
            &&& np == pe.update(ci, Entry { key: rm, value: pe[ci].value }).insert(
                ci,
                Entry { key: lm, value: Child::Inner { node_index: StoredSlot { slot_index: left } } },
            )
            &&& np.len() == pe.len() + 1
            &&& sorted_keys(np)
            &&& 0 <= dn < np.len()
            &&& dold != ci ==> np[dn].value == pe[dold].value
            &&& dold == ci && !lm.key_lt(o) ==> points_to(np[dn].value, left)
            &&& dold == ci && lm.key_lt(o) ==> np[dn].value == pe[ci].value
        }),
{
    lemma_child_slot_index(pe, right, ci);
    let u = pe.update(ci, Entry { key: rm, value: pe[ci].value });
    let le = Entry { key: lm, value: Child::Inner { node_index: StoredSlot { slot_index: left } } };
    K::lemma_key_lt_irreflexive(lm);
    K::lemma_key_lt_irreflexive(o);
    // where the left part's entry goes
    assert forall|j: int| 0 <= j < ci implies #[trigger] u[j].key.key_lt(lm) by {
        if j < ci - 1 {
            assert(pe[j].key.key_lt(pe[ci - 1].key));
            K::lemma_key_lt_transitive(pe[j].key, pe[ci - 1].key, lm);
        }
    }
    if u[ci].key.key_lt(lm) {
        K::lemma_key_lt_transitive(lm, rm, lm);
    }
    lemma_lower_bound_char(u, lm, ci);
    let np = u.insert(ci, le);
    assert(np == split_parent_entries(pe, right, rm, left, lm));
    // sorted
    assert forall|i: int, j: int| 0 <= i < j < np.len() implies #[trigger] np[i].key.key_lt(#[trigger] np[j].key) by {
        let ki = if i < ci {
            pe[i].key
        } else if i == ci {
            lm
        } else if i == ci + 1 {
            rm
        } else {
            pe[i - 1].key
        };
        let kj = if j < ci {
            pe[j].key
        } else if j == ci {
            lm
        } else if j == ci + 1 {
            rm
        } else {
            pe[j - 1].key
        };
        assert(np[i].key == ki && np[j].key == kj);
        if j < ci {
        } else if j == ci {
            if i < ci - 1 {
                assert(pe[i].key.key_lt(pe[ci - 1].key));
                K::lemma_key_lt_transitive(pe[i].key, pe[ci - 1].key, lm);
            }
        } else if j == ci + 1 {
            if i < ci {
                if i < ci - 1 {
                    assert(pe[i].key.key_lt(pe[ci - 1].key));
                    K::lemma_key_lt_transitive(pe[i].key, pe[ci - 1].key, lm);
                }
                K::lemma_key_lt_transitive(pe[i].key, lm, rm);
            }
        } else {
            assert(ci < pe.len() - 1);
            assert(pe[ci].key.key_lt(pe[j - 1].key));
            if i < ci {
                assert(pe[i].key.key_lt(pe[j - 1].key));
            } else if i == ci {
                K::lemma_key_lt_transitive(lm, rm, pe[j - 1].key);
            } else if i > ci + 1 {
                assert(pe[i - 1].key.key_lt(pe[j - 1].key));
            }
        }
    }
    // routing
    lemma_lower_bound_range(pe, o);
    lemma_lower_bound_props(pe, o);
    let p = lower_bound_spec(pe, o);
    let dold = descend_index(pe, o);
    if dold < ci {
        assert forall|j: int| 0 <= j < p implies #[trigger] np[j].key.key_lt(o) by {
            assert(np[j] == pe[j]);
        }
        assert(np[p] == pe[p]);
        lemma_lower_bound_char(np, o, p);
    } else if dold > ci {
        assert(pe[ci].key.key_lt(o));
        assert(lm.key_lt(o)) by {
            if ci < pe.len() - 1 {
                K::lemma_key_lt_transitive(lm, rm, o);
            } else {
                assert(false);
            }
        }
        assert(rm.key_lt(o));
        assert forall|j: int| 0 <= j < p + 1 implies #[trigger] np[j].key.key_lt(o) by {
            if j < ci {
                assert(np[j] == pe[j]);
            } else if j > ci + 1 {
                assert(np[j] == pe[j - 1]);
            }
        }
        if p < pe.len() {
            assert(np[p + 1] == pe[p]);
        } else {
            assert(np[np.len() - 1] == pe[pe.len() - 1]);
        }
        lemma_lower_bound_char(np, o, p + 1);
    } else {
        assert forall|j: int| 0 <= j < ci implies #[trigger] np[j].key.key_lt(o) by {
            assert(np[j] == pe[j]);
        }
        if !lm.key_lt(o) {
            lemma_lower_bound_char(np, o, ci);
        } else if !rm.key_lt(o) {
            lemma_lower_bound_char(np, o, ci + 1);
        } else {
            assert(ci == pe.len() - 1) by {
                if ci < pe.len() - 1 {
                    assert(p == ci);
                }
            }
            lemma_lower_bound_char(np, o, ci + 2);
        }
    }
}


/// A search's result after an add of `key` with `value`, from its result
/// before: where the search ended, it ends on `value` for `key`; any other
/// key's result is as before.
pub open spec fn tval<K, V>(o: Option<Option<V>>, k: K, key: K, value: V) -> Option<Option<V>> {
    if k == key && o is Some {
        Some(Some(value))
    } else {
        o
    }
}

/// Whether the search for `k` goes the way of path `p` down to its depth
/// `i`.
pub open spec fn through<K: TreeKey, V>(m0: BigOrderedMap<K, V>, s0: SlotStore<K, V>, k: K, p: Seq<u64>, i: int) -> bool {
    &&& m0.key_search(s0, k) is Some
    &&& m0.key_search(s0, k).unwrap().len() > i
    &&& m0.key_search(s0, k).unwrap().take(i + 1) == p.take(i + 1)
}

/// In a node split at `t`, a key picks in the half it belongs to the entry
/// it picks in the whole node.
pub proof fn lemma_half_pick<K: TreeKey, C>(np: Seq<Entry<K, C>>, t: int, k: K, low: bool)
    requires
        sorted_keys(np),
        1 <= t < np.len(),
        low ==> !np[t - 1].key.key_lt(k),
        !low ==> np[t - 1].key.key_lt(k),
    ensures
        0 <= descend_index(np, k) < np.len(),
        ({
            let h = if low {
                np.take(t)
            } else {
                np.skip(t)
            };
            &&& h.len() > 0
            &&& 0 <= descend_index(h, k) < h.len()
            &&& h[descend_index(h, k)] == np[descend_index(np, k)]
        }),
{
    lemma_lower_bound_range(np, k);
    lemma_lower_bound_props(np, k);
    let e = lower_bound_spec(np, k);
    if e < np.len() {
        lemma_halves_descend(np, k, t, e);
    } else {
        assert(np[t - 1].key.key_lt(k));
        let h = np.skip(t);
        assert forall|j: int| 0 <= j < h.len() implies #[trigger] h[j].key.key_lt(k) by {
            assert(h[j] == np[j + t]);
        }
        lemma_lower_bound_char(h, k, h.len() as int);
        assert(h[h.len() - 1] == np[np.len() - 1]);
    }
}

/// In a node split at `t`, a key's value in the half it belongs to is its
/// value in the whole node.
pub proof fn lemma_half_value<K: TreeKey, V>(g: Seq<Entry<K, Child<V>>>, t: int, k: K, low: bool)
    requires
        sorted_keys(g),
        1 <= t < g.len(),
        low ==> !g[t - 1].key.key_lt(k),
        !low ==> g[t - 1].key.key_lt(k),
    ensures
        value_at_bound(
            if low {
                g.take(t)
            } else {
                g.skip(t)
            },
            k,
        ) == value_at_bound(g, k),
{
    lemma_lower_bound_range(g, k);
    lemma_lower_bound_props(g, k);
    K::lemma_key_lt_irreflexive(k);
    let e = lower_bound_spec(g, k);
    if low {
        let h = g.take(t);
        if e >= t {
            if e > t - 1 {
                assert(g[t - 1].key.key_lt(k));
            }
        }
        assert(e < t) by {
            if e >= t {
                assert(g[t - 1].key.key_lt(k));
            }
        }
        assert forall|j: int| 0 <= j < e implies #[trigger] h[j].key.key_lt(k) by {
            assert(h[j] == g[j]);
        }
        assert(h[e] == g[e]);
        lemma_lower_bound_char(h, k, e);
    } else {
        let h = g.skip(t);
        assert(e >= t) by {
            if e < t {
                if e < t - 1 {
                    assert(g[e].key.key_lt(g[t - 1].key));
                    K::lemma_key_lt_transitive(g[e].key, g[t - 1].key, k);
                }
            }
        }
        assert forall|j: int| 0 <= j < e - t implies #[trigger] h[j].key.key_lt(k) by {
            assert(h[j] == g[j + t]);
        }
        if e < g.len() {
            assert(h[e - t] == g[e]);
        }
        lemma_lower_bound_char(h, k, e - t);
    }
}

/// The leaf at the end of the add's path `p` split into a left half in slot
/// `left` and a right half in its own slot, the grown entries halved at
/// `t`: a search for any key in the half it belongs to reads the leaf as it
/// was, with `key` now on `value`.
pub proof fn lemma_leaf_halves_view<K: TreeKey, V>(
    m0: BigOrderedMap<K, V>,
    s0: SlotStore<K, V>,
    m1: BigOrderedMap<K, V>,
    s1: SlotStore<K, V>,
    key: K,
    value: V,
    ni: u64,
    left: u64,
    t: int,
    k: K,
    f: nat,
)
    requires
        m0.node_at(s0, ni) is Some,
        m0.node_at(s0, ni).unwrap().leaf_flag(),
        sorted_keys(m0.node_at(s0, ni).unwrap().entry_seq()),
        !has_key_at_bound(m0.node_at(s0, ni).unwrap().entry_seq(), key),
        ({
            let es = m0.node_at(s0, ni).unwrap().entry_seq();
            let g = es.insert(lower_bound_spec(es, key), Entry { key, value: Child::Leaf { value } });
            &&& 1 <= t < g.len()
            &&& m1.node_at(s1, left) matches Some(x) && x.leaf_flag() && x.entry_seq() == g.take(t)
            &&& m1.node_at(s1, ni) matches Some(x) && x.leaf_flag() && x.entry_seq() == g.skip(t)
        }),
    ensures
        ({
            let es = m0.node_at(s0, ni).unwrap().entry_seq();
            let g = es.insert(lower_bound_spec(es, key), Entry { key, value: Child::Leaf { value } });
            &&& !g[t - 1].key.key_lt(k) ==> sval(m1, s1, k, left, f) == tval(sval(m0, s0, k, ni, f), k, key, value)
            &&& g[t - 1].key.key_lt(k) ==> sval(m1, s1, k, ni, f) == tval(sval(m0, s0, k, ni, f), k, key, value)
        }),
{
    let es = m0.node_at(s0, ni).unwrap().entry_seq();
    let g = es.insert(lower_bound_spec(es, key), Entry { key, value: Child::Leaf { value } });
    assert(g == upsert_entries(es, key, Child::Leaf { value }));
    lemma_upsert_keeps_sorted_local(es, key, value);
    lemma_sval_unfold(m0, s0, k, ni, f);
    lemma_sval_unfold(m1, s1, k, left, f);
    lemma_sval_unfold(m1, s1, k, ni, f);
    let low = !g[t - 1].key.key_lt(k);
    lemma_half_value(g, t, k, low);
    if k == key {
        lemma_upsert_then_value(es, key, value);
    } else {
        lemma_upsert_keeps_other(es, key, Child::Leaf { value }, k);
    }
}

proof fn lemma_upsert_keeps_sorted_local<K: TreeKey, V>(es: Seq<Entry<K, Child<V>>>, key: K, value: V)
    requires
        sorted_keys(es),
    ensures
        sorted_keys(upsert_entries(es, key, Child::Leaf { value })),
{
    crate::big_ordered_map::lemma_upsert_keeps_sorted(es, key, Child::Leaf { value });
}


/// The parent at depth `i` of the add's path `p` after its child split
/// into a left part in slot `left` (largest key `lm`) and a right part in
/// the child's slot (largest key `rm`): a node in slot `xn` holding the
/// parent's new entries, or the half of them (split at `t`) that a key
/// belongs to, reads for every key whose search passes the parent as the
/// parent did, with `key` now on `value`, given that the split parts do so
/// for the keys they take, and that the search for the key, where it leaves
/// the path, reads alike in both from there on.
pub proof fn lemma_split_node_view<K: TreeKey, V>(
    m0: BigOrderedMap<K, V>,
    s0: SlotStore<K, V>,
    m1: BigOrderedMap<K, V>,
    s1: SlotStore<K, V>,
    key: K,
    value: V,
    p: Seq<u64>,
    i: int,
    lm: K,
    left: u64,
    rm: K,
    xn: u64,
    ne: Seq<Entry<K, Child<V>>>,
    t: int,
    mode: int,
    k: K,
    f: nat,
)
    requires
        m0.key_search(s0, key) == Some(p),
        0 <= i < p.len() - 1,
        0 <= mode <= 2,
        m0.node_at(s0, p[i]) is Some,
        ({
            let pe = m0.node_at(s0, p[i]).unwrap().entry_seq();
            let ci = descend_index(pe, key);
            let np = split_parent_entries(pe, p[i + 1], rm, left, lm);
            &&& sorted_keys(pe)
            &&& forall|j: int| 0 <= j < pe.len() ==> (#[trigger] pe[j]).value is Inner
            &&& forall|j: int| 0 <= j < pe.len() && j != ci ==> !points_to((#[trigger] pe[j]).value, p[i + 1])
            &&& lm.key_lt(rm)
            &&& ci == 0 || pe[ci - 1].key.key_lt(lm)
            &&& ci == pe.len() - 1 || rm == pe[ci].key
            &&& mode == 0 ==> ne == np
            &&& mode == 1 ==> ne == np.take(t) && 1 <= t < np.len() && !np[t - 1].key.key_lt(k)
            &&& mode == 2 ==> ne == np.skip(t) && 1 <= t < np.len() && np[t - 1].key.key_lt(k)
        }),
        m1.node_at(s1, xn) matches Some(x) && !x.leaf_flag() && x.entry_seq() == ne,
        through(m0, s0, k, p, i),
        forall|k2: K, f2: nat|
            through(m0, s0, k2, p, i + 1) && !lm.key_lt(k2) ==> #[trigger] sval(m1, s1, k2, left, f2) == tval(
                sval(m0, s0, k2, p[i + 1], f2),
                k2,
                key,
                value,
            ),
        forall|k2: K, f2: nat|
            through(m0, s0, k2, p, i + 1) && lm.key_lt(k2) ==> #[trigger] sval(m1, s1, k2, p[i + 1], f2) == tval(
                sval(m0, s0, k2, p[i + 1], f2),
                k2,
                key,
                value,
            ),
        m0.key_search(s0, k).unwrap().len() > i + 1 && m0.key_search(s0, k).unwrap()[i + 1] != p[i + 1] ==> forall|
            e: int,
        |
            i + 1 <= e < m0.key_search(s0, k).unwrap().len() ==> same_search_view(
                #[trigger] m1.node_at(s1, m0.key_search(s0, k).unwrap()[e]),
                m0.node_at(s0, m0.key_search(s0, k).unwrap()[e]),
            ),
    ensures
        sval(m1, s1, k, xn, f) == tval(sval(m0, s0, k, p[i], f), k, key, value),
{
    let q = m0.key_search(s0, k).unwrap();
    let on = m0.node_at(s0, p[i]).unwrap();
    let pe = on.entry_seq();
    let ci = descend_index(pe, key);
    let np = split_parent_entries(pe, p[i + 1], rm, left, lm);
    assert(q[i] == p[i]) by {
        assert(q.take(i + 1)[i] == p.take(i + 1)[i]);
    }
    lemma_sval_unfold(m0, s0, k, p[i], f);
    lemma_sval_unfold(m1, s1, k, xn, f);
    if f > 0 {
        lemma_search_path_step(m0, s0, key, 1, 20, i);
        assert(!on.leaf_flag() && pe.len() > 0);
        lemma_lower_bound_range(pe, k);
        lemma_lower_bound_range(pe, key);
        let dold = descend_index(pe, k);
        if i == q.len() - 1 {
            lemma_search_path_last_stops(m0, s0, k, 1, 20);
            assert(pe[dold].value is Inner);
        }
        lemma_search_path_step(m0, s0, k, 1, 20, i);
        lemma_split_route(pe, ci, p[i + 1], rm, left, lm, k);
        let dn = descend_index(np, k);
        if mode == 1 {
            lemma_half_pick(np, t, k, true);
        } else if mode == 2 {
            lemma_half_pick(np, t, k, false);
        }
        assert(ne.len() > 0 && ne[descend_index(ne, k)] == np[dn]);
        let c = pe[dold].value->node_index.slot_index;
        assert(c == q[i + 1]);
        if dold != ci {
            assert(c != p[i + 1]);
            lemma_sval_frame(m0, s0, m1, s1, k, i + 1, (f - 1) as nat);
            assert(k != key);
        } else {
            assert(q[i + 1] == p[i + 1]);
            assert(q.take(i + 2) =~= p.take(i + 2)) by {
                assert forall|j: int| 0 <= j < i + 2 implies #[trigger] q.take(i + 2)[j] == p.take(i + 2)[j] by {
                    if j < i + 1 {
                        assert(q.take(i + 1)[j] == p.take(i + 1)[j]);
                    }
                }
            }
            assert(through(m0, s0, k, p, i + 1));
            if !lm.key_lt(k) {
                assert(sval(m1, s1, k, left, (f - 1) as nat) == tval(
                    sval(m0, s0, k, p[i + 1], (f - 1) as nat),
                    k,
                    key,
                    value,
                ));
            } else {
                assert(sval(m1, s1, k, p[i + 1], (f - 1) as nat) == tval(
                    sval(m0, s0, k, p[i + 1], (f - 1) as nat),
                    k,
                    key,
                    value,
                ));
            }
        }
    }
}


/// Whether every slot that a search for any key visits is one of path
/// `p`'s only at the same depth and after the same slots as on `p`.
pub open spec fn path_unique<K: TreeKey, V>(m0: BigOrderedMap<K, V>, s0: SlotStore<K, V>, p: Seq<u64>) -> bool {
    forall|k: K, d: int, j: int|
        m0.key_search(s0, k) is Some && 0 <= d < m0.key_search(s0, k).unwrap().len() && 0 <= j < p.len()
            && #[trigger] m0.key_search(s0, k).unwrap()[d] == #[trigger] p[j] ==> d == j && m0.key_search(
            s0,
            k,
        ).unwrap().take(d + 1) == p.take(d + 1)
}

/// Whether every slot that a search visits off path `p` reads alike for
/// searches in the map before and after.
pub open spec fn frame_outside<K: TreeKey, V>(
    m0: BigOrderedMap<K, V>,
    s0: SlotStore<K, V>,
    m1: BigOrderedMap<K, V>,
    s1: SlotStore<K, V>,
    p: Seq<u64>,
) -> bool {
    forall|k: K, d: int|
        m0.key_search(s0, k) is Some && 0 <= d < m0.key_search(s0, k).unwrap().len() && (forall|j: int|
            0 <= j < p.len() ==> m0.key_search(s0, k).unwrap()[d] != #[trigger] p[j]) ==> same_search_view(
            #[trigger] m1.node_at(s1, m0.key_search(s0, k).unwrap()[d]),
            m0.node_at(s0, m0.key_search(s0, k).unwrap()[d]),
        )
}

/// A search that leaves path `p` below its depth `i` reads alike in both
/// maps from there on.
pub proof fn lemma_off_path_frame<K: TreeKey, V>(
    m0: BigOrderedMap<K, V>,
    s0: SlotStore<K, V>,
    m1: BigOrderedMap<K, V>,
    s1: SlotStore<K, V>,
    p: Seq<u64>,
    k: K,
    i: int,
)
    requires
        path_unique(m0, s0, p),
        frame_outside(m0, s0, m1, s1, p),
        0 <= i,
        i + 1 < p.len(),
        through(m0, s0, k, p, i),
    ensures
        m0.key_search(s0, k).unwrap().len() > i + 1 && m0.key_search(s0, k).unwrap()[i + 1] != p[i + 1] ==> forall|
            e: int,
        |
            i + 1 <= e < m0.key_search(s0, k).unwrap().len() ==> same_search_view(
                #[trigger] m1.node_at(s1, m0.key_search(s0, k).unwrap()[e]),
                m0.node_at(s0, m0.key_search(s0, k).unwrap()[e]),
            ),
{
    let q = m0.key_search(s0, k).unwrap();
    if q.len() > i + 1 && q[i + 1] != p[i + 1] {
        assert forall|e: int| i + 1 <= e < q.len() implies same_search_view(
            #[trigger] m1.node_at(s1, q[e]),
            m0.node_at(s0, q[e]),
        ) by {
            assert forall|j: int| 0 <= j < p.len() implies q[e] != #[trigger] p[j] by {
                if q[e] == p[j] {
                    assert(q.take(e + 1) == p.take(e + 1));
                    assert(q.take(e + 1)[i + 1] == p.take(e + 1)[i + 1]);
                }
            }
        }
    }
}

/// A node on the add's path that reads alike before and after reads for
/// every key whose search passes it as it did, with `key` now on `value`,
/// given its child on the path does.
pub proof fn lemma_same_node_view<K: TreeKey, V>(
    m0: BigOrderedMap<K, V>,
    s0: SlotStore<K, V>,
    m1: BigOrderedMap<K, V>,
    s1: SlotStore<K, V>,
    key: K,
    value: V,
    p: Seq<u64>,
    i: int,
    k: K,
    f: nat,
)
    requires
        m0.key_search(s0, key) == Some(p),
        0 <= i < p.len() - 1,
        same_search_view(m1.node_at(s1, p[i]), m0.node_at(s0, p[i])),
        through(m0, s0, k, p, i),
        forall|k2: K, f2: nat|
            through(m0, s0, k2, p, i + 1) ==> #[trigger] sval(m1, s1, k2, p[i + 1], f2) == tval(
                sval(m0, s0, k2, p[i + 1], f2),
                k2,
                key,
                value,
            ),
        m0.key_search(s0, k).unwrap().len() > i + 1 && m0.key_search(s0, k).unwrap()[i + 1] != p[i + 1] ==> forall|
            e: int,
        |
            i + 1 <= e < m0.key_search(s0, k).unwrap().len() ==> same_search_view(
                #[trigger] m1.node_at(s1, m0.key_search(s0, k).unwrap()[e]),
                m0.node_at(s0, m0.key_search(s0, k).unwrap()[e]),
            ),
    ensures
        sval(m1, s1, k, p[i], f) == tval(sval(m0, s0, k, p[i], f), k, key, value),
{
    let q = m0.key_search(s0, k).unwrap();
    assert(q[i] == p[i]) by {
        assert(q.take(i + 1)[i] == p.take(i + 1)[i]);
    }
    lemma_sval_unfold(m0, s0, k, p[i], f);
    lemma_sval_unfold(m1, s1, k, p[i], f);
    if f > 0 {
        lemma_search_path_step(m0, s0, key, 1, 20, i);
        let pe = m0.node_at(s0, p[i]).unwrap().entry_seq();
        lemma_lower_bound_range(pe, k);
        lemma_lower_bound_range(pe, key);
        let dold = descend_index(pe, k);
        if pe[dold].value is Inner {
            if i == q.len() - 1 {
                lemma_search_path_last_stops(m0, s0, k, 1, 20);
            }
            lemma_search_path_step(m0, s0, k, 1, 20, i);
            let c = pe[dold].value->node_index.slot_index;
            if c == p[i + 1] {
                assert(q.take(i + 2) =~= p.take(i + 2)) by {
                    assert forall|j: int| 0 <= j < i + 2 implies #[trigger] q.take(i + 2)[j] == p.take(i + 2)[j] by {
                        if j < i + 1 {
                            assert(q.take(i + 1)[j] == p.take(i + 1)[j]);
                        }
                    }
                }
                assert(through(m0, s0, k, p, i + 1));
                assert(sval(m1, s1, k, p[i + 1], (f - 1) as nat) == tval(
                    sval(m0, s0, k, p[i + 1], (f - 1) as nat),
                    k,
                    key,
                    value,
                ));
            } else {
                lemma_sval_frame(m0, s0, m1, s1, k, i + 1, (f - 1) as nat);
                assert(k != key);
            }
        } else {
            assert(k != key);
        }
    }
}

/// Going up from depth `i` of the add's path through nodes that read alike
/// before and after: a search from the root reads as before, with `key`
/// now on `value`, given the node at depth `i` does for the keys that pass
/// it.
pub proof fn lemma_up_the_path<K: TreeKey, V>(
    m0: BigOrderedMap<K, V>,
    s0: SlotStore<K, V>,
    m1: BigOrderedMap<K, V>,
    s1: SlotStore<K, V>,
    key: K,
    value: V,
    p: Seq<u64>,
    i: int,
)
    requires
        m0.key_search(s0, key) == Some(p),
        0 <= i < p.len(),
        path_unique(m0, s0, p),
        frame_outside(m0, s0, m1, s1, p),
        forall|j: int| 0 <= j < i ==> same_search_view(m1.node_at(s1, #[trigger] p[j]), m0.node_at(s0, p[j])),
        forall|k2: K, f2: nat|
            through(m0, s0, k2, p, i) ==> #[trigger] sval(m1, s1, k2, p[i], f2) == tval(
                sval(m0, s0, k2, p[i], f2),
                k2,
                key,
                value,
            ),
    ensures
        forall|k2: K, f2: nat|
            m0.key_search(s0, k2) is Some ==> #[trigger] sval(m1, s1, k2, 1, f2) == tval(
                sval(m0, s0, k2, 1, f2),
                k2,
                key,
                value,
            ),
    decreases i,
{
    m0.lemma_search_path_ends(s0, key, 1, 20);
    if i > 0 {
        assert forall|k2: K, f2: nat| through(m0, s0, k2, p, i - 1) implies #[trigger] sval(
            m1,
            s1,
            k2,
            p[i - 1],
            f2,
        ) == tval(sval(m0, s0, k2, p[i - 1], f2), k2, key, value) by {
            lemma_off_path_frame(m0, s0, m1, s1, p, k2, i - 1);
            lemma_same_node_view(m0, s0, m1, s1, key, value, p, i - 1, k2, f2);
        }
        lemma_up_the_path(m0, s0, m1, s1, key, value, p, i - 1);
    } else {
        assert forall|k2: K, f2: nat| m0.key_search(s0, k2) is Some implies #[trigger] sval(m1, s1, k2, 1, f2) == tval(
            sval(m0, s0, k2, 1, f2),
            k2,
            key,
            value,
        ) by {
            m0.lemma_search_path_ends(s0, k2, 1, 20);
            assert(m0.key_search(s0, k2).unwrap().take(1) =~= p.take(1));
            assert(through(m0, s0, k2, p, 0));
        }
    }
}


/// Whether a write leaves its slot as the map before reads it for
/// searches: the node's kind and entries as they were.
pub open spec fn preserving<K, V>(m0: BigOrderedMap<K, V>, s0: SlotStore<K, V>, wr: TableWrite<K, V>) -> bool {
    &&& wr.data matches Link::Occupied { value: nd }
    &&& m0.node_at(s0, wr.slot_index) is Some
    &&& wr.data->value.leaf_flag() == m0.node_at(s0, wr.slot_index).unwrap().leaf_flag()
    &&& wr.data->value.entry_seq() == m0.node_at(s0, wr.slot_index).unwrap().entry_seq()
}

/// Whether slot `x` is one of `path`'s.
pub open spec fn on_path(path: Seq<u64>, x: u64) -> bool {
    exists|e: int| 0 <= e < path.len() && #[trigger] path[e] == x
}

/// Whether slot `x` is the previous node of a node on `path`.
pub open spec fn prev_on_path<K, V>(m0: BigOrderedMap<K, V>, s0: SlotStore<K, V>, path: Seq<u64>, x: u64) -> bool {
    exists|e: int| 0 <= e < path.len() && m0.node_at(s0, #[trigger] path[e]).unwrap().prev_link() == x
}

/// The slots that a cascade of splits writes: slots of its path, fresh
/// slots from `nf` on, and previous nodes of its path's nodes, written as
/// they were but for their link to the next node.
pub proof fn lemma_cascade_slots<K: TreeKey, V>(
    m0: BigOrderedMap<K, V>,
    s0: SlotStore<K, V>,
    path: Seq<u64>,
    lm: K,
    left: u64,
    right: u64,
    rm: K,
    nf: u64,
    dirty: Set<u64>,
    after: BigOrderedMap<K, V>,
    w: Seq<TableWrite<K, V>>,
)
    requires
        m0.split_cascade_ok(s0, path, lm, left, right, rm, nf, dirty),
        m0.cascade_writes(s0, path, lm, left, right, rm, nf, after, w),
        nf + path.len() + 1 <= u64::MAX,
    ensures
        forall|j: int|
            0 <= j < w.len() ==> on_path(path, #[trigger] w[j].slot_index) || w[j].slot_index >= nf || (prev_on_path(
                m0,
                s0,
                path,
                w[j].slot_index,
            ) && preserving(m0, s0, w[j])),
    decreases path.len(),
{
    let i = path.len() - 1;
    let pi = path.last();
    let pn = m0.node_at(s0, pi).unwrap();
    let np = split_parent_entries(pn.entry_seq(), right, rm, left, lm);
    let t2 = (m0.inner_degree() + 1) / 2;
    let pp = pn.prev_link();
    let k: int = if pp != 0 {
        1
    } else {
        0
    };
    assert(path[i] == pi);
    if np.len() > m0.inner_degree() && pi != 1 {
        let rest = w.skip(k + 2);
        let d2 = if pp != 0 {
            dirty.insert(pp)
        } else {
            dirty
        };
        lemma_cascade_slots(m0, s0, path.drop_last(), np[t2 - 1].key, nf, pi, np.last().key, (nf + 1) as u64, d2, after, rest);
        assert forall|j: int| 0 <= j < w.len() implies on_path(path, #[trigger] w[j].slot_index) || w[j].slot_index
            >= nf || (prev_on_path(m0, s0, path, w[j].slot_index) && preserving(m0, s0, w[j])) by {
            if j < k {
                assert(w[j].slot_index == pp);
                assert(m0.node_at(s0, path[i]).unwrap().prev_link() == w[j].slot_index);
                assert(prev_on_path(m0, s0, path, w[j].slot_index));
                assert(m0.node_at(s0, pp) is Some);
                assert(preserving(m0, s0, w[j]));
            } else if j == k {
            } else if j == k + 1 {
                assert(path[i] == w[j].slot_index);
            } else {
                let jj = j - k - 2;
                assert(rest[jj] == w[j]);
                let x = w[j].slot_index;
                assert(on_path(path.drop_last(), rest[jj].slot_index) || rest[jj].slot_index >= nf + 1 || (
                prev_on_path(m0, s0, path.drop_last(), rest[jj].slot_index) && preserving(m0, s0, rest[jj])));
                if on_path(path.drop_last(), x) {
                    let e = choose|e: int| 0 <= e < path.drop_last().len() && #[trigger] path.drop_last()[e] == x;
                    assert(path[e] == x);
                } else if x >= nf + 1 {
                } else {
                    assert(prev_on_path(m0, s0, path.drop_last(), x));
                    let e = choose|e: int|
                        0 <= e < path.drop_last().len() && m0.node_at(s0, #[trigger] path.drop_last()[e]).unwrap().prev_link() == x;
                    assert(path.drop_last()[e] == path[e]);
                    assert(m0.node_at(s0, path[e]).unwrap().prev_link() == x);
                }
            }
        }
    } else {
        assert forall|j: int| 0 <= j < w.len() implies on_path(path, #[trigger] w[j].slot_index) || w[j].slot_index
            >= nf || (prev_on_path(m0, s0, path, w[j].slot_index) && preserving(m0, s0, w[j])) by {
            if np.len() <= m0.inner_degree() {
                assert(path[i] == w[j].slot_index);
            }
        }
    }
}

/// What the map after reads in a slot no write touches.
pub proof fn lemma_untouched_slot<K: TreeKey, V>(
    m0: BigOrderedMap<K, V>,
    s0: SlotStore<K, V>,
    m1: BigOrderedMap<K, V>,
    s1: SlotStore<K, V>,
    w: Seq<TableWrite<K, V>>,
    x: u64,
)
    requires
        m0.at_rest(),
        m1.at_rest(),
        stored_after(s0, w, s1),
        x != 1,
        forall|j: int| 0 <= j < w.len() ==> (#[trigger] w[j]).slot_index != x,
    ensures
        same_search_view(m1.node_at(s1, x), m0.node_at(s0, x)),
{
    lemma_after_writes_untouched(w, x, s0.content(x));
    assert(s1.content(x) == s0.content(x));
    assert(m0.cache().content(x) is None);
    assert(m1.cache().content(x) is None);
}

/// What the map after reads in a slot whose last write is known.
pub proof fn lemma_written_slot<K: TreeKey, V>(
    m1: BigOrderedMap<K, V>,
    s0: SlotStore<K, V>,
    s1: SlotStore<K, V>,
    w: Seq<TableWrite<K, V>>,
    j: int,
    x: u64,
    flag: bool,
    es: Seq<Entry<K, Child<V>>>,
    is_new: bool,
    a: u64,
    b: u64,
)
    requires
        m1.at_rest(),
        stored_after(s0, w, s1),
        x != 1,
        0 <= j < w.len(),
        BigOrderedMap::<K, V>::writes_node(w[j], x, is_new, (flag, es, a, b)),
        forall|jj: int| j < jj < w.len() ==> (#[trigger] w[jj]).slot_index != x,
    ensures
        m1.node_at(s1, x) matches Some(n) && n.leaf_flag() == flag && n.entry_seq() == es,
{
    lemma_after_writes_at(w, x, s0.content(x), j);
    assert(s1.content(x) == Some(w[j].data));
    assert(m1.cache().content(x) is None);
}

/// A root of two entries sends a key to the first child where the key is
/// not above the first key, else to the second.
pub proof fn lemma_root_two_view<K: TreeKey, V>(
    m1: BigOrderedMap<K, V>,
    s1: SlotStore<K, V>,
    ka: K,
    a: u64,
    kb: K,
    b: u64,
    k: K,
    f: nat,
)
    requires
        m1.node_at(s1, 1) matches Some(x) && !x.leaf_flag() && x.entry_seq() == seq![
            Entry::<K, Child<V>> { key: ka, value: Child::Inner { node_index: StoredSlot { slot_index: a } } },
            Entry::<K, Child<V>> { key: kb, value: Child::Inner { node_index: StoredSlot { slot_index: b } } },
        ],
    ensures
        sval(m1, s1, k, 1, f + 1) == (if !ka.key_lt(k) {
            sval(m1, s1, k, a, f)
        } else {
            sval(m1, s1, k, b, f)
        }),
{
    let es = m1.node_at(s1, 1).unwrap().entry_seq();
    lemma_sval_unfold(m1, s1, k, 1, f + 1);
    if !ka.key_lt(k) {
        lbc(es, k, 0);
    } else if !kb.key_lt(k) {
        lbc(es, k, 1);
    } else {
        lbc(es, k, 2);
    }
}


/// The conditions on the nodes that a split passes up `path` that make
/// every search read as before: each parent reads as an inner node with
/// sorted keys, all its entries child nodes and only the one the added
/// key's search follows pointing to the split child; the left part's
/// largest key is below the right part's and above the parent's key before
/// the child; the right part's largest key is the child's key in the
/// parent unless the child is the parent's last; and so on up where the
/// parent splits in turn.
pub open spec fn cascade_routes<K: TreeKey, V>(
    m0: BigOrderedMap<K, V>,
    s0: SlotStore<K, V>,
    key: K,
    path: Seq<u64>,
    lm: K,
    left: u64,
    right: u64,
    rm: K,
    nf: u64,
) -> bool
    decreases path.len(),
{
    if path.len() == 0 {
        false
    } else {
        let pi = path.last();
        let pn = m0.node_at(s0, pi).unwrap();
        let pe = pn.entry_seq();
        let ci = descend_index(pe, key);
        let np = split_parent_entries(pe, right, rm, left, lm);
        let t2 = (m0.inner_degree() + 1) / 2;
        &&& m0.node_at(s0, pi) is Some && !pn.leaf_flag()
        &&& sorted_keys(pe)
        &&& forall|j: int| 0 <= j < pe.len() ==> (#[trigger] pe[j]).value is Inner
        &&& forall|j: int| 0 <= j < pe.len() && j != ci ==> !points_to((#[trigger] pe[j]).value, right)
        &&& lm.key_lt(rm)
        &&& ci == 0 || pe[ci - 1].key.key_lt(lm)
        &&& ci == pe.len() - 1 || rm == pe[ci].key
        &&& np.len() > m0.inner_degree() && pi != 1 ==> cascade_routes(
            m0,
            s0,
            key,
            path.drop_last(),
            np[t2 - 1].key,
            nf,
            pi,
            np.last().key,
            (nf + 1) as u64,
        )
    }
}

/// Whether slot `x` is one of `p`'s at depth `depth` or below.
pub open spec fn deep_on_path(p: Seq<u64>, depth: int, x: u64) -> bool {
    exists|e: int| depth <= e < p.len() && #[trigger] p[e] == x
}

/// Whether the previous node of each node on `p` is a slot below `nf0` off
/// `p`.
pub open spec fn prevs_off_path<K, V>(m0: BigOrderedMap<K, V>, s0: SlotStore<K, V>, p: Seq<u64>, nf0: u64) -> bool {
    forall|e: int, j: int|
        0 <= e < p.len() && 0 <= j < p.len() ==> m0.node_at(s0, #[trigger] p[e]).unwrap().prev_link() < nf0
            && m0.node_at(s0, p[e]).unwrap().prev_link() != #[trigger] p[j]
}

/// Whether every search ends within nineteen steps.
pub open spec fn searches_short<K: TreeKey, V>(m0: BigOrderedMap<K, V>, s0: SlotStore<K, V>) -> bool {
    forall|k: K| #[trigger] m0.key_search(s0, k) is Some ==> m0.key_search(s0, k).unwrap().len() <= 19
}

/// A split passed up `path`, the writes of the levels below at the front
/// of `w` and this level's on from `wo`: once stored, every search from the
/// root reads as before, with `key` now on `value`, given the split child's
/// parts do for the keys they take.
#[verifier::spinoff_prover]
#[verifier::rlimit(100)]
pub proof fn lemma_cascade_view<K: TreeKey, V>(
    m0: BigOrderedMap<K, V>,
    s0: SlotStore<K, V>,
    m1: BigOrderedMap<K, V>,
    s1: SlotStore<K, V>,
    w: Seq<TableWrite<K, V>>,
    wo: int,
    key: K,
    value: V,
    p: Seq<u64>,
    path: Seq<u64>,
    lm: K,
    left: u64,
    right: u64,
    rm: K,
    nf: u64,
    dirty: Set<u64>,
    nf0: u64,
)
    requires
        m0.key_search(s0, key) == Some(p),
        1 <= path.len() < p.len(),
        path == p.take(path.len() as int),
        right == p[path.len() as int],
        m0.at_rest(),
        m1.at_rest(),
        stored_after(s0, w, s1),
        0 <= wo <= w.len(),
        m0.cascade_writes(s0, path, lm, left, right, rm, nf, m1, w.skip(wo)),
        m0.split_cascade_ok(s0, path, lm, left, right, rm, nf, dirty),
        cascade_routes(m0, s0, key, path, lm, left, right, rm, nf),
        nf0 <= nf,
        nf + path.len() + 1 <= u64::MAX,
        forall|e: int| 0 <= e < p.len() ==> #[trigger] p[e] < nf0,
        prevs_off_path(m0, s0, p, nf0),
        path_unique(m0, s0, p),
        frame_outside(m0, s0, m1, s1, p),
        searches_short(m0, s0),
        forall|j: int|
            0 <= j < wo ==> deep_on_path(p, path.len() as int, #[trigger] w[j].slot_index) || w[j].slot_index >= nf0
                || prev_on_path(m0, s0, p, w[j].slot_index),
        forall|k2: K, f2: nat|
            through(m0, s0, k2, p, path.len() as int) && !lm.key_lt(k2) ==> #[trigger] sval(m1, s1, k2, left, f2)
                == tval(sval(m0, s0, k2, right, f2), k2, key, value),
        forall|k2: K, f2: nat|
            through(m0, s0, k2, p, path.len() as int) && lm.key_lt(k2) ==> #[trigger] sval(m1, s1, k2, right, f2)
                == tval(sval(m0, s0, k2, right, f2), k2, key, value),
    ensures
        forall|k2: K|
            #[trigger] m0.key_search(s0, k2) is Some ==> sval(m1, s1, k2, 1, 20) == tval(
                sval(m0, s0, k2, 1, 20),
                k2,
                key,
                value,
            ),
    decreases path.len(),
{
    let i = path.len() - 1;
    let pi = path.last();
    assert(path[i] == p[i]);
    let pn = m0.node_at(s0, pi).unwrap();
    let pe = pn.entry_seq();
    let np = split_parent_entries(pe, right, rm, left, lm);
    let t2 = (m0.inner_degree() + 1) / 2;
    let pp = pn.prev_link();
    let kk: int = if pp != 0 {
        1
    } else {
        0
    };
    let w2 = w.skip(wo);
    assert forall|j: int| 0 <= j < w2.len() implies #[trigger] w2[j] == w[wo + j] by {}
    // distinct slots of the path
    assert forall|e: int, j: int| 0 <= e < p.len() && 0 <= j < p.len() && #[trigger] p[e] == #[trigger] p[j] implies e
        == j by {
        m0.lemma_search_path_ends(s0, key, 1, 20);
    }
    if np.len() <= m0.inner_degree() {
        if pi == 1 {
            assert(i == 0) by {
                m0.lemma_search_path_ends(s0, key, 1, 20);
                assert(p[0] == 1);
            }
            assert(m1.node_at(s1, 1) == Some(m1.root_node()));
            assert forall|k2: K, f2: nat| through(m0, s0, k2, p, 0) implies #[trigger] sval(m1, s1, k2, p[0], f2)
                == tval(sval(m0, s0, k2, p[0], f2), k2, key, value) by {
                lemma_off_path_frame(m0, s0, m1, s1, p, k2, 0);
                lemma_split_node_view(m0, s0, m1, s1, key, value, p, 0, lm, left, rm, 1, np, 0, 0, k2, f2);
            }
            lemma_up_the_path(m0, s0, m1, s1, key, value, p, 0);
        } else {
            assert(w.len() == wo + 1);
            lemma_written_slot(m1, s0, s1, w, wo, pi, false, np, false, pn.prev_link(), pn.next_link());
            assert forall|j: int| 0 <= j < i implies same_search_view(m1.node_at(s1, #[trigger] p[j]), m0.node_at(s0, p[j])) by {
                if p[j] == 1 {
                    assert(m1.node_at(s1, 1) == Some(m1.root_node()));
                } else {
                    assert forall|jj: int| 0 <= jj < w.len() implies (#[trigger] w[jj]).slot_index != p[j] by {
                        if jj < wo {
                            let x = w[jj].slot_index;
                            if deep_on_path(p, path.len() as int, x) {
                                let e = choose|e: int| path.len() <= e < p.len() && #[trigger] p[e] == x;
                                assert(p[e] != p[j]);
                            } else if x >= nf0 {
                            } else {
                                let e = choose|e: int|
                                    0 <= e < p.len() && m0.node_at(s0, #[trigger] p[e]).unwrap().prev_link() == x;
                                assert(m0.node_at(s0, p[e]).unwrap().prev_link() != p[j]);
                            }
                        } else {
                            assert(jj == wo);
                            assert(w[jj].slot_index == p[i]);
                        }
                    }
                    lemma_untouched_slot(m0, s0, m1, s1, w, p[j]);
                }
            }
            assert forall|k2: K, f2: nat| through(m0, s0, k2, p, i) implies #[trigger] sval(m1, s1, k2, p[i], f2)
                == tval(sval(m0, s0, k2, p[i], f2), k2, key, value) by {
                lemma_off_path_frame(m0, s0, m1, s1, p, k2, i);
                lemma_split_node_view(m0, s0, m1, s1, key, value, p, i, lm, left, rm, pi, np, 0, 0, k2, f2);
            }
            lemma_up_the_path(m0, s0, m1, s1, key, value, p, i);
        }
    } else if pi == 1 {
        assert(i == 0) by {
            m0.lemma_search_path_ends(s0, key, 1, 20);
            assert(p[0] == 1);
        }
        assert(w.len() == wo + 2);
        let a = (nf + 1) as u64;
        lemma_written_slot(m1, s0, s1, w, wo, a, false, np.take(t2), true, 0u64, nf);
        lemma_written_slot(m1, s0, s1, w, wo + 1, nf, false, np.skip(t2), true, a, 0u64);
        assert(m1.node_at(s1, 1) == Some(m1.root_node()));
        assert forall|k2: K| #[trigger] m0.key_search(s0, k2) is Some implies sval(m1, s1, k2, 1, 20) == tval(
            sval(m0, s0, k2, 1, 20),
            k2,
            key,
            value,
        ) by {
            m0.lemma_search_path_ends(s0, k2, 1, 20);
            m0.lemma_search_path_ends(s0, key, 1, 20);
            assert(m0.key_search(s0, k2).unwrap().take(1) =~= p.take(1));
            lemma_off_path_frame(m0, s0, m1, s1, p, k2, 0);
            if !np[t2 - 1].key.key_lt(k2) {
                lemma_split_node_view(m0, s0, m1, s1, key, value, p, 0, lm, left, rm, a, np.take(t2), t2, 1, k2, 19);
            } else {
                lemma_split_node_view(m0, s0, m1, s1, key, value, p, 0, lm, left, rm, nf, np.skip(t2), t2, 2, k2, 19);
            }
            lemma_root_two_view(m1, s1, np[t2 - 1].key, a, np.last().key, nf, k2, 19);
            lemma_search_fuel(m0, s0, k2, 1, 20, 19);
        }
    } else {
        let rest = w.skip(wo + kk + 2);
        assert(rest =~= w2.skip(kk + 2));
        let d2 = if pp != 0 {
            dirty.insert(pp)
        } else {
            dirty
        };
        let lm2 = np[t2 - 1].key;
        let rm2 = np.last().key;
        let a = nf;
        lemma_cascade_slots(m0, s0, path.drop_last(), lm2, nf, pi, rm2, (nf + 1) as u64, d2, m1, rest);
        assert forall|jj: int| wo + kk < jj < w.len() implies (#[trigger] w[jj]).slot_index != a by {
            if jj > wo + kk + 1 {
                assert(rest[jj - wo - kk - 2] == w[jj]);
                let x = rest[jj - wo - kk - 2].slot_index;
                if on_path(path.drop_last(), x) {
                    let e = choose|e: int| 0 <= e < path.drop_last().len() && #[trigger] path.drop_last()[e] == x;
                    assert(path.drop_last()[e] == p[e]);
                } else if x >= nf + 1 {
                } else {
                    let e = choose|e: int|
                        0 <= e < path.drop_last().len() && m0.node_at(s0, #[trigger] path.drop_last()[e]).unwrap().prev_link() == x;
                    assert(path.drop_last()[e] == p[e]);
                    assert(m0.node_at(s0, p[e]).unwrap().prev_link() < nf0);
                }
            }
        }
        assert forall|jj: int| wo + kk + 1 < jj < w.len() implies (#[trigger] w[jj]).slot_index != pi by {
            assert(rest[jj - wo - kk - 2] == w[jj]);
            let x = rest[jj - wo - kk - 2].slot_index;
            if on_path(path.drop_last(), x) {
                let e = choose|e: int| 0 <= e < path.drop_last().len() && #[trigger] path.drop_last()[e] == x;
                assert(path.drop_last()[e] == p[e]);
                assert(p[e] != p[i]);
            } else if x >= nf + 1 {
            } else {
                let e = choose|e: int|
                    0 <= e < path.drop_last().len() && m0.node_at(s0, #[trigger] path.drop_last()[e]).unwrap().prev_link() == x;
                assert(path.drop_last()[e] == p[e]);
                assert(m0.node_at(s0, p[e]).unwrap().prev_link() != p[i]);
            }
        }
        lemma_written_slot(m1, s0, s1, w, wo + kk, a, false, np.take(t2), true, pp, pi);
        lemma_written_slot(m1, s0, s1, w, wo + kk + 1, pi, false, np.skip(t2), false, a, pn.next_link());
        assert forall|k2: K, f2: nat| through(m0, s0, k2, p, i) && !lm2.key_lt(k2) implies #[trigger] sval(
            m1,
            s1,
            k2,
            a,
            f2,
        ) == tval(sval(m0, s0, k2, pi, f2), k2, key, value) by {
            lemma_off_path_frame(m0, s0, m1, s1, p, k2, i);
            lemma_split_node_view(m0, s0, m1, s1, key, value, p, i, lm, left, rm, a, np.take(t2), t2, 1, k2, f2);
        }
        assert forall|k2: K, f2: nat| through(m0, s0, k2, p, i) && lm2.key_lt(k2) implies #[trigger] sval(
            m1,
            s1,
            k2,
            pi,
            f2,
        ) == tval(sval(m0, s0, k2, pi, f2), k2, key, value) by {
            lemma_off_path_frame(m0, s0, m1, s1, p, k2, i);
            lemma_split_node_view(m0, s0, m1, s1, key, value, p, i, lm, left, rm, pi, np.skip(t2), t2, 2, k2, f2);
        }
        let wo2 = wo + kk + 2;
        assert forall|j: int| 0 <= j < wo2 implies deep_on_path(p, i, #[trigger] w[j].slot_index) || w[j].slot_index
            >= nf0 || prev_on_path(m0, s0, p, w[j].slot_index) by {
            if j < wo {
                if deep_on_path(p, path.len() as int, w[j].slot_index) {
                    let e = choose|e: int| path.len() <= e < p.len() && #[trigger] p[e] == w[j].slot_index;
                    assert(p[e] == w[j].slot_index);
                }
            } else if j < wo + kk {
                assert(w2[j - wo] == w[j]);
                assert(m0.node_at(s0, p[i]).unwrap().prev_link() == w[j].slot_index);
            } else if j == wo + kk {
            } else {
                assert(p[i] == w[j].slot_index);
            }
        }
        assert(path.drop_last() == p.take(i));
        lemma_cascade_view(
            m0,
            s0,
            m1,
            s1,
            w,
            wo2,
            key,
            value,
            p,
            path.drop_last(),
            lm2,
            a,
            pi,
            rm2,
            (nf + 1) as u64,
            d2,
            nf0,
        );
    }
}


/// The node a slot's content holds, if it holds one.
pub open spec fn link_node<K, V>(l: Option<Link<Node<K, V>>>) -> Option<Node<K, V>> {
    match l {
        Some(Link::Occupied { value }) => Some(value),
        _ => None,
    }
}

/// Writes to slot `x` that each leave it as the map before reads it leave
/// it so, whatever their number.
pub proof fn lemma_after_writes_preserving<K: TreeKey, V>(
    m0: BigOrderedMap<K, V>,
    s0: SlotStore<K, V>,
    w: Seq<TableWrite<K, V>>,
    x: u64,
)
    requires
        forall|j: int| 0 <= j < w.len() && (#[trigger] w[j]).slot_index == x ==> preserving(m0, s0, w[j]),
        m0.node_at(s0, x) == link_node(s0.content(x)),
    ensures
        same_search_view(link_node(after_writes(w, x, s0.content(x))), m0.node_at(s0, x)),
    decreases w.len(),
{
    if w.len() > 0 {
        assert(w.last() == w[w.len() - 1]);
        if w.last().slot_index != x {
            assert forall|j: int| 0 <= j < w.drop_last().len() && (#[trigger] w.drop_last()[j]).slot_index == x implies preserving(
                m0,
                s0,
                w.drop_last()[j],
            ) by {
                assert(w.drop_last()[j] == w[j]);
            }
            lemma_after_writes_preserving(m0, s0, w.drop_last(), x);
        }
    }
}

/// Whether the node at depth `d` of search path `q` for `k` is an inner
/// node as a B+ tree has it: sorted keys, at least one entry, every entry a
/// child node and no two the same, and its entry that the search follows
/// keyed by the largest key of that child, which has entries.
pub open spec fn inner_ok<K: TreeKey, V>(m: BigOrderedMap<K, V>, s: SlotStore<K, V>, k: K, q: Seq<u64>, d: int) -> bool {
    let x = m.node_at(s, q[d]).unwrap();
    let es = x.entry_seq();
    let y = m.node_at(s, q[d + 1]).unwrap();
    &&& !x.leaf_flag() && sorted_keys(es) && es.len() > 0
    &&& forall|j: int| 0 <= j < es.len() ==> (#[trigger] es[j]).value is Inner
    &&& forall|j1: int, j2: int|
        0 <= j1 < es.len() && 0 <= j2 < es.len() && j1 != j2 ==> (#[trigger] es[j1]).value != (#[trigger] es[j2]).value
    &&& y.entry_seq().len() > 0
    &&& es[descend_index(es, k)].key == y.entry_seq().last().key
}

/// The key before the entry that the search for `k` follows at depth `d`
/// of its path `q`, where there is one.
pub open spec fn key_before<K: TreeKey, V>(m: BigOrderedMap<K, V>, s: SlotStore<K, V>, k: K, q: Seq<u64>, d: int) -> K {
    let es = m.node_at(s, q[d]).unwrap().entry_seq();
    es[descend_index(es, k) - 1].key
}

/// Whether every search of the tree reads it as a B+ tree: each search ends
/// within nineteen steps; each inner node it passes is as `inner_ok` says;
/// the node it ends at has sorted keys; and every key of a node below a
/// node it passes is above the key before the entry it follows there.
pub open spec fn valid_searches<K: TreeKey, V>(m: BigOrderedMap<K, V>, s: SlotStore<K, V>) -> bool {
    &&& forall|k: K| #[trigger] m.key_search(s, k) is Some && m.key_search(s, k).unwrap().len() <= 19
    &&& forall|k: K, d: int|
        0 <= d < m.key_search(s, k).unwrap().len() - 1 ==> #[trigger] inner_ok(m, s, k, m.key_search(s, k).unwrap(), d)
    &&& forall|k: K|
        sorted_keys(m.node_at(s, #[trigger] m.key_search(s, k).unwrap().last()).unwrap().entry_seq())
    &&& forall|k: K, d1: int, d2: int, j: int|
        #![trigger key_before(m, s, k, m.key_search(s, k).unwrap(), d1), m.node_at(s, m.key_search(s, k).unwrap()[d2]).unwrap().entry_seq()[j]]
        0 <= d1 < d2 < m.key_search(s, k).unwrap().len() && descend_index(
            m.node_at(s, m.key_search(s, k).unwrap()[d1]).unwrap().entry_seq(),
            k,
        ) > 0 && 0 <= j < m.node_at(s, m.key_search(s, k).unwrap()[d2]).unwrap().entry_seq().len() ==> key_before(
            m,
            s,
            k,
            m.key_search(s, k).unwrap(),
            d1,
        ).key_lt(m.node_at(s, m.key_search(s, k).unwrap()[d2]).unwrap().entry_seq()[j].key)
}

/// The larger of `key` and the largest key of the node in slot `x`.
pub open spec fn max_with<K: TreeKey, V>(m: BigOrderedMap<K, V>, s: SlotStore<K, V>, x: u64, key: K) -> K {
    let l = m.node_at(s, x).unwrap().entry_seq().last().key;
    if !l.key_lt(key) {
        l
    } else {
        key
    }
}

/// Whether every key of `e` is `key` or a key of a node on `p` at depth
/// `depth` or below.
pub open spec fn keys_from<K: TreeKey, V>(
    m: BigOrderedMap<K, V>,
    s: SlotStore<K, V>,
    p: Seq<u64>,
    depth: int,
    key: K,
    e: Seq<Entry<K, Child<V>>>,
) -> bool {
    forall|idx: int|
        0 <= idx < e.len() ==> (#[trigger] e[idx]).key == key || exists|j: int, i2: int|
            depth <= j < p.len() && 0 <= i2 < m.node_at(s, p[j]).unwrap().entry_seq().len() && #[trigger] m.node_at(
                s,
                p[j],
            ).unwrap().entry_seq()[i2].key == e[idx].key
}

/// In a tree whose searches read it as a B+ tree, a split passed up the
/// add's path meets the conditions `cascade_routes` asks: the split child's
/// grown entries `e`, halved at `t`, sorted, with keys from the path below,
/// their largest the larger of `key` and the child's largest key.
#[verifier::spinoff_prover]
#[verifier::rlimit(60)]
pub proof fn lemma_valid_routes<K: TreeKey, V>(
    m0: BigOrderedMap<K, V>,
    s0: SlotStore<K, V>,
    key: K,
    p: Seq<u64>,
    path: Seq<u64>,
    lm: K,
    left: u64,
    right: u64,
    rm: K,
    nf: u64,
    dirty: Set<u64>,
    e: Seq<Entry<K, Child<V>>>,
    t: int,
)
    requires
        valid_searches(m0, s0),
        m0.key_search(s0, key) == Some(p),
        1 <= path.len() < p.len(),
        path == p.take(path.len() as int),
        right == p[path.len() as int],
        m0.split_cascade_ok(s0, path, lm, left, right, rm, nf, dirty),
        sorted_keys(e),
        1 <= t < e.len(),
        lm == e[t - 1].key,
        rm == e.last().key,
        keys_from(m0, s0, p, path.len() as int, key, e),
        rm == max_with(m0, s0, right, key),
    ensures
        cascade_routes(m0, s0, key, path, lm, left, right, rm, nf),
    decreases path.len(),
{
    let i = path.len() - 1;
    let pi = path.last();
    assert(path[i] == p[i]);
    let pn = m0.node_at(s0, pi).unwrap();
    let pe = pn.entry_seq();
    let c = descend_index(pe, key);
    let np = split_parent_entries(pe, right, rm, left, lm);
    let t2 = (m0.inner_degree() + 1) / 2;
    assert(p[i] == p[i]);
    assert(inner_ok(m0, s0, key, p, i));
    lemma_search_path_step(m0, s0, key, 1, 20, i);
    lemma_lower_bound_range(pe, key);
    lemma_lower_bound_props(pe, key);
    // only the entry followed points to the split child
    assert forall|j: int| 0 <= j < pe.len() && j != c implies !points_to((#[trigger] pe[j]).value, right) by {
        assert(pe[j].value != pe[c].value);
    }
    // the halves' largest keys
    assert(e[t - 1].key.key_lt(e[e.len() - 1].key));
    // the left half's largest key is above the key before
    if c > 0 {
        assert(pe[c - 1].key.key_lt(key));
        assert(pe[c - 1].key.key_lt(lm)) by {
            if e[t - 1].key != key {
                let (j, i2) = choose|j: int, i2: int|
                    path.len() <= j < p.len() && 0 <= i2 < m0.node_at(s0, p[j]).unwrap().entry_seq().len()
                        && #[trigger] m0.node_at(s0, p[j]).unwrap().entry_seq()[i2].key == e[t - 1].key;
                assert(key_before(m0, s0, key, p, i) == pe[c - 1].key);
                assert(key_before(m0, s0, key, p, i).key_lt(m0.node_at(s0, p[j]).unwrap().entry_seq()[i2].key));
            }
        }
    }
    // the right half's largest key is the child's key unless the child is last
    if c < pe.len() - 1 {
        assert(!pe[c].key.key_lt(key));
        assert(pe[c].key == m0.node_at(s0, p[i + 1]).unwrap().entry_seq().last().key);
    }
    if np.len() > m0.inner_degree() && pi != 1 {
        lemma_split_route(pe, c, right, rm, left, lm, key);
        let pp = pn.prev_link();
        let d2 = if pp != 0 {
            dirty.insert(pp)
        } else {
            dirty
        };
        assert(np.len() == pe.len() + 1);
        // the parent's grown entries' keys come from the path
        assert forall|idx: int| 0 <= idx < np.len() implies (#[trigger] np[idx]).key == key || exists|j: int, i2: int|
            i <= j < p.len() && 0 <= i2 < m0.node_at(s0, p[j]).unwrap().entry_seq().len() && #[trigger] m0.node_at(
                s0,
                p[j],
            ).unwrap().entry_seq()[i2].key == np[idx].key by {
            if idx < c {
                assert(np[idx] == pe[idx]);
                assert(m0.node_at(s0, p[i]).unwrap().entry_seq()[idx].key == np[idx].key);
            } else if idx > c + 1 {
                assert(np[idx] == pe[idx - 1]);
                assert(m0.node_at(s0, p[i]).unwrap().entry_seq()[idx - 1].key == np[idx].key);
            } else {
                let src = if idx == c {
                    t - 1
                } else {
                    e.len() - 1
                };
                assert(np[idx].key == e[src].key);
                if e[src].key != key {
                    let (j, i2) = choose|j: int, i2: int|
                        path.len() <= j < p.len() && 0 <= i2 < m0.node_at(s0, p[j]).unwrap().entry_seq().len()
                            && #[trigger] m0.node_at(s0, p[j]).unwrap().entry_seq()[i2].key == e[src].key;
                    assert(m0.node_at(s0, p[j]).unwrap().entry_seq()[i2].key == np[idx].key);
                }
            }
        }
        // the parent's grown largest key
        if c == pe.len() - 1 {
            assert(np.last() == np[c + 1]);
        } else {
            assert(np.last() == pe.last());
            assert(pe[c].key.key_lt(pe[pe.len() - 1].key));
            if pe.last().key.key_lt(key) {
                K::lemma_key_lt_transitive(pe[c].key, pe.last().key, key);
            }
        }
        assert(path.drop_last() == p.take(i));
        lemma_valid_routes(
            m0,
            s0,
            key,
            p,
            path.drop_last(),
            np[t2 - 1].key,
            nf,
            pi,
            np.last().key,
            (nf + 1) as u64,
            d2,
            np,
            t2,
        );
    }
}

/// Whether an add of `key` goes through a tree that every search reads as
/// a B+ tree (`valid_searches`), on slots all below the next fresh one, no
/// slot reached two ways from the add's path, and the previous nodes of
/// the path's nodes off it.
pub open spec fn deep_add_ok<K: TreeKey, V>(m0: BigOrderedMap<K, V>, s0: SlotStore<K, V>, key: K) -> bool {
    let p = m0.key_search(s0, key).unwrap();
    let nf0 = m0.allocator().next_fresh();
    &&& valid_searches(m0, s0)
    &&& forall|k: K, d: int|
        0 <= d < m0.key_search(s0, k).unwrap().len() ==> #[trigger] m0.key_search(s0, k).unwrap()[d] < nf0
    &&& path_unique(m0, s0, p)
    &&& prevs_off_path(m0, s0, p, nf0)
}

/// The value that the map holds for `k` is what the search for it from
/// the root ends on.
pub proof fn lemma_map_view_sval<K: TreeKey, V>(m: BigOrderedMap<K, V>, s: SlotStore<K, V>, k: K)
    ensures
        m.map_view(s).contains_key(k) <==> sval(m, s, k, 1, 20) matches Some(Some(_)),
        m.map_view(s).contains_key(k) ==> sval(m, s, k, 1, 20) == Some(Some(m.map_view(s)[k])),
{
    m.lemma_search_path_ends(s, k, 1, 20);
}

/// An add that splits its leaf, however far up the path the split goes:
/// once its writes are stored, the map is the one before with `key` on
/// `value`, where the tree is in the shape the add relies on.
#[verifier::spinoff_prover]
#[verifier::rlimit(60)]
pub proof fn lemma_deep_add_view<K: TreeKey, V>(
    m0: BigOrderedMap<K, V>,
    s0: SlotStore<K, V>,
    key: K,
    value: V,
    m1: BigOrderedMap<K, V>,
    w: Seq<TableWrite<K, V>>,
    s1: SlotStore<K, V>,
)
    requires
        m0.at_rest(),
        m1.at_rest(),
        m0.key_search(s0, key) is Some,
        m0.leaf_split_goes_through(s0, m0.key_search(s0, key).unwrap(), key),
        !has_key_at_bound(m0.search_end(s0, key).unwrap().entry_seq(), key),
        deep_add_ok(m0, s0, key),
        m0.leaf_split_writes(s0, m0.key_search(s0, key).unwrap(), key, Child::Leaf { value }, m1, w),
        stored_after(s0, w, s1),
    ensures
        m1.map_view(s1) == m0.map_view(s0).insert(key, value),
{
    let p = m0.key_search(s0, key).unwrap();
    let n = p.len() - 1;
    let ni = p[n];
    let leaf = m0.node_at(s0, ni).unwrap();
    let es = leaf.entry_seq();
    let g = es.insert(lower_bound_spec(es, key), Entry { key, value: Child::Leaf { value } });
    let t = (m0.leaf_degree() + 1) / 2;
    let prev = leaf.prev_link();
    let nf0 = m0.allocator().next_fresh();
    let kk: int = if prev != 0 {
        1
    } else {
        0
    };
    let dirty = if prev != 0 {
        Set::<u64>::empty().insert(prev)
    } else {
        Set::<u64>::empty()
    };
    let path = p.drop_last();
    let lm = grown_key_at(es, key, t - 1);
    let rm = grown_key_at(es, key, es.len() as int);
    let rest = w.skip(kk + 2);
    m0.lemma_search_path_ends(s0, key, 1, 20);
    assert(p.last() == ni);
    lemma_lower_bound_range(es, key);
    lemma_lower_bound_props(es, key);
    assert(g[t - 1].key == lm);
    // the split passes up the path as a B+ tree allows
    assert(sorted_keys(es));
    assert(g == upsert_entries(es, key, Child::Leaf { value }));
    lemma_upsert_keeps_sorted_local(es, key, value);
    assert(rm == g.last().key);
    assert(rm == max_with(m0, s0, ni, key)) by {
        K::lemma_key_lt_irreflexive(key);
        if lower_bound_spec(es, key) < es.len() {
            assert(!es[lower_bound_spec(es, key)].key.key_lt(key));
            if lower_bound_spec(es, key) < es.len() - 1 {
                assert(es[lower_bound_spec(es, key)].key.key_lt(es[es.len() - 1].key));
                if es.last().key.key_lt(key) {
                    K::lemma_key_lt_transitive(es[lower_bound_spec(es, key)].key, es.last().key, key);
                }
            }
        } else {
            assert(es[es.len() - 1].key.key_lt(key));
        }
    }
    assert forall|idx: int| 0 <= idx < g.len() implies (#[trigger] g[idx]).key == key || exists|j: int, i2: int|
        n <= j < p.len() && 0 <= i2 < m0.node_at(s0, p[j]).unwrap().entry_seq().len() && #[trigger] m0.node_at(
            s0,
            p[j],
        ).unwrap().entry_seq()[i2].key == g[idx].key by {
        let pos = lower_bound_spec(es, key);
        if idx < pos {
            assert(m0.node_at(s0, p[n]).unwrap().entry_seq()[idx].key == g[idx].key);
        } else if idx > pos {
            assert(m0.node_at(s0, p[n]).unwrap().entry_seq()[idx - 1].key == g[idx].key);
        }
    }
    lemma_valid_routes(m0, s0, key, p, path, lm, nf0, ni, rm, (nf0 + 1) as u64, dirty, g, t);
    assert(path == p.take(n));
    assert(m0.search_end(s0, key) == Some(leaf));
    // distinct slots of the path
    assert forall|e: int, j: int| 0 <= e < p.len() && 0 <= j < p.len() && #[trigger] p[e] == #[trigger] p[j] implies e
        == j by {}
    assert(forall|e: int| 0 <= e < p.len() ==> #[trigger] p[e] < nf0);
    // the slots the writes touch
    lemma_cascade_slots(m0, s0, path, lm, nf0, ni, rm, (nf0 + 1) as u64, dirty, m1, rest);
    assert forall|j: int| 0 <= j < rest.len() implies #[trigger] rest[j] == w[j + kk + 2] by {}
    assert(prev != 0 ==> m0.node_at(s0, p[n]).unwrap().prev_link() == prev);
    // the writes off the path leave their slots as searches read them
    assert forall|k: K, d: int|
        m0.key_search(s0, k) is Some && 0 <= d < m0.key_search(s0, k).unwrap().len() && (forall|j: int|
            0 <= j < p.len() ==> m0.key_search(s0, k).unwrap()[d] != #[trigger] p[j]) implies same_search_view(
        #[trigger] m1.node_at(s1, m0.key_search(s0, k).unwrap()[d]),
        m0.node_at(s0, m0.key_search(s0, k).unwrap()[d]),
    ) by {
        let x = m0.key_search(s0, k).unwrap()[d];
        assert(x < nf0);
        m0.lemma_search_path_ends(s0, k, 1, 20);
        assert(x != 1) by {
            if x == 1 {
                assert(p[0] == 1);
            }
        }
        assert(m0.cache().content(x) is None);
        assert(m1.cache().content(x) is None);
        assert forall|j: int| 0 <= j < w.len() && (#[trigger] w[j]).slot_index == x implies preserving(m0, s0, w[j]) by {
            if j < kk {
                assert(w[j].slot_index == prev);
            } else if j == kk {
            } else if j == kk + 1 {
                assert(w[j].slot_index == p[n]);
            } else {
                let jj = j - kk - 2;
                assert(rest[jj] == w[j]);
                assert(on_path(path, rest[jj].slot_index) || rest[jj].slot_index >= nf0 + 1 || (prev_on_path(
                    m0,
                    s0,
                    path,
                    rest[jj].slot_index,
                ) && preserving(m0, s0, rest[jj])));
                if on_path(path, x) {
                    let e = choose|e: int| 0 <= e < path.len() && #[trigger] path[e] == x;
                    assert(path[e] == p[e]);
                }
            }
        }
        lemma_after_writes_preserving(m0, s0, w, x);
        assert(s1.content(x) == after_writes(w, x, s0.content(x)));
    }
    assert(frame_outside(m0, s0, m1, s1, p));
    // the leaf's two halves
    assert forall|jj: int| kk < jj < w.len() implies (#[trigger] w[jj]).slot_index != nf0 by {
        if jj > kk + 1 {
            let x = rest[jj - kk - 2].slot_index;
            assert(rest[jj - kk - 2] == w[jj]);
            if on_path(path, x) {
                let e = choose|e: int| 0 <= e < path.len() && #[trigger] path[e] == x;
                assert(path[e] == p[e]);
            } else if x >= nf0 + 1 {
            } else {
                let e = choose|e: int| 0 <= e < path.len() && m0.node_at(s0, #[trigger] path[e]).unwrap().prev_link() == x;
                assert(path[e] == p[e]);
            }
        } else {
            assert(w[jj].slot_index == p[n]);
        }
    }
    assert forall|jj: int| kk + 1 < jj < w.len() implies (#[trigger] w[jj]).slot_index != ni by {
        let x = rest[jj - kk - 2].slot_index;
        assert(rest[jj - kk - 2] == w[jj]);
        if on_path(path, x) {
            let e = choose|e: int| 0 <= e < path.len() && #[trigger] path[e] == x;
            assert(path[e] == p[e]);
            assert(p[e] != p[n]);
        } else if x >= nf0 + 1 {
        } else {
            let e = choose|e: int| 0 <= e < path.len() && m0.node_at(s0, #[trigger] path[e]).unwrap().prev_link() == x;
            assert(path[e] == p[e]);
            assert(m0.node_at(s0, p[e]).unwrap().prev_link() != p[n]);
        }
    }
    lemma_written_slot(m1, s0, s1, w, kk, nf0, true, g.take(t), true, prev, ni);
    lemma_written_slot(m1, s0, s1, w, kk + 1, ni, true, g.skip(t), false, nf0, leaf.next_link());
    assert forall|k2: K, f2: nat| through(m0, s0, k2, p, n) && !lm.key_lt(k2) implies #[trigger] sval(
        m1,
        s1,
        k2,
        nf0,
        f2,
    ) == tval(sval(m0, s0, k2, ni, f2), k2, key, value) by {
        lemma_leaf_halves_view(m0, s0, m1, s1, key, value, ni, nf0, t, k2, f2);
    }
    assert forall|k2: K, f2: nat| through(m0, s0, k2, p, n) && lm.key_lt(k2) implies #[trigger] sval(
        m1,
        s1,
        k2,
        ni,
        f2,
    ) == tval(sval(m0, s0, k2, ni, f2), k2, key, value) by {
        lemma_leaf_halves_view(m0, s0, m1, s1, key, value, ni, nf0, t, k2, f2);
    }
    assert forall|j: int| 0 <= j < kk + 2 implies deep_on_path(p, n, #[trigger] w[j].slot_index) || w[j].slot_index
        >= nf0 || prev_on_path(m0, s0, p, w[j].slot_index) by {
        if j < kk {
            assert(m0.node_at(s0, p[n]).unwrap().prev_link() == w[j].slot_index);
        } else if j == kk + 1 {
            assert(p[n] == w[j].slot_index);
        }
    }
    assert(searches_short(m0, s0));
    lemma_cascade_view(m0, s0, m1, s1, w, kk + 2, key, value, p, path, lm, nf0, ni, rm, (nf0 + 1) as u64, dirty, nf0);
    // the map, key by key
    assert forall|k: K| #[trigger] m1.map_view(s1).dom().contains(k) == m0.map_view(s0).insert(key, value).dom().contains(
        k,
    ) && (m1.map_view(s1).dom().contains(k) ==> m1.map_view(s1)[k] == m0.map_view(s0).insert(key, value)[k]) by {
        assert(m0.key_search(s0, k) is Some);
        lemma_map_view_sval(m0, s0, k);
        lemma_map_view_sval(m1, s1, k);
        if k == key {
            m0.lemma_search_path_ends(s0, k, 1, 20);
        }
    }
    assert(m1.map_view(s1) =~= m0.map_view(s0).insert(key, value));
}

} // verus!
