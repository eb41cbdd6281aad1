//! An ordered map kept in memory as a vector of entries sorted by key, no
//! key twice.
use vstd::prelude::*;
use crate::big_ordered_map::{
    find_key, has_key_at_bound, lemma_lower_bound_range,
    lemma_remove_keeps_other_entry, lemma_remove_then_absent, lemma_sorted_find, lemma_upsert_keeps_other_entry,
    lemma_upsert_keeps_sorted, lemma_upsert_then_entry, lower_bound_spec, remove_entries, sorted_keys,
    upsert_entries, Entry, TreeKey,
};

verus! {

/// The handle of a storage table.
pub type TableHandle = u64;

/// An ordered map from `K` to `V`.
#[derive(Debug)]
pub struct BigOrderedMap<K, V> {
    entries: Vec<Entry<K, V>>,
}

/// The map that a sorted sequence of entries stands for.
pub open spec fn entries_view<K: TreeKey, V>(s: Seq<Entry<K, V>>) -> Map<K, V> {
    Map::new(|k: K| has_key_at_bound(s, k), |k: K| s[lower_bound_spec(s, k)].value)
}

proof fn lemma_view_upsert<K: TreeKey, V>(s: Seq<Entry<K, V>>, key: K, v: V)
    requires
        sorted_keys(s),
    ensures
        entries_view(upsert_entries(s, key, v)) =~= entries_view(s).insert(key, v),
        sorted_keys(upsert_entries(s, key, v)),
{
    lemma_upsert_keeps_sorted(s, key, v);
    lemma_upsert_then_entry(s, key, v);
    let t = upsert_entries(s, key, v);
    assert forall|k: K| #[trigger] entries_view(t).contains_key(k) == entries_view(s).insert(key, v).contains_key(k)
        && (entries_view(t).contains_key(k) ==> entries_view(t)[k] == entries_view(s).insert(key, v)[k]) by {
        if k != key {
            lemma_upsert_keeps_other_entry(s, key, v, k);
        }
    }
}

proof fn lemma_view_remove<K: TreeKey, V>(s: Seq<Entry<K, V>>, key: K)
    requires
        sorted_keys(s),
    ensures
        entries_view(remove_entries(s, key)) =~= entries_view(s).remove(key),
        sorted_keys(remove_entries(s, key)),
{
    lemma_remove_then_absent(s, key);
    let t = remove_entries(s, key);
    assert forall|k: K| #[trigger] entries_view(t).contains_key(k) == entries_view(s).remove(key).contains_key(k)
        && (entries_view(t).contains_key(k) ==> entries_view(t)[k] == entries_view(s).remove(key)[k]) by {
        if k != key {
            lemma_remove_keeps_other_entry(s, key, k);
        }
    }
}

fn entry_value_mut<K, V>(e: &mut Entry<K, V>) -> (r: &mut V)
    ensures
        *r == old(e).value,
        *final(e) == (Entry { key: old(e).key, value: *final(r) }),
{
    &mut e.value
}

impl<K: TreeKey, V> BigOrderedMap<K, V> {
    /// The entries, in key order.
    pub closed spec fn entry_seq(&self) -> Seq<Entry<K, V>> {
        self.entries@
    }

    /// The entries rise strictly by key.
    pub open spec fn wf(&self) -> bool {
        sorted_keys(self.entry_seq())
    }

    /// The map the entries stand for.
    pub open spec fn view(&self) -> Map<K, V> {
        entries_view(self.entry_seq())
    }

    /// An empty map.
    pub fn new() -> (r: Self)
        ensures
            r.wf(),
            r@ == Map::<K, V>::empty(),
            r.entry_seq().len() == 0,
    {
        let r = BigOrderedMap { entries: Vec::new() };
        assert(r@ =~= Map::<K, V>::empty());
        r
    }

    /// Whether the map is empty.
    pub fn is_empty(&self) -> (r: bool)
        requires
            self.wf(),
        ensures
            r == (self@ == Map::<K, V>::empty()),
            r == (self.entry_seq().len() == 0),
    {
        proof {
            if self.entries@.len() == 0 {
                assert(self@ =~= Map::<K, V>::empty());
            } else {
                let k = self.entries@[0].key;
                lemma_sorted_find(self.entries@, k);
                assert(self@.contains_key(k));
            }
        }
        self.entries.len() == 0
    }

    /// Whether `key` is in the map.
    pub fn contains(&self, key: &K) -> (r: bool)
        ensures
            r == self@.contains_key(*key),
    {
        find_key(&self.entries, key).is_ok()
    }

    /// Maps `key` to `value`, in place of what it mapped to.
    pub fn add(&mut self, key: K, value: V)
        requires
            old(self).wf(),
        ensures
            final(self).wf(),
            final(self)@ == old(self)@.insert(key, value),
            final(self).entry_seq() == upsert_entries(old(self).entry_seq(), key, value),
    {
        proof {
            lemma_view_upsert(self.entries@, key, value);
        }
        match find_key(&self.entries, &key) {
            Ok(pos) => {
                self.entries.set(pos, Entry { key, value });
            },
            Err(pos) => {
                self.entries.insert(pos, Entry { key, value });
            },
        }
    }

    /// Takes the value of `key` out of the map; `key` must be there.
    pub fn remove(&mut self, key: &K) -> (r: V)
        requires
            old(self).wf(),
            old(self)@.contains_key(*key),
        ensures
            final(self).wf(),
            r == old(self)@[*key],
            final(self)@ == old(self)@.remove(*key),
            final(self).entry_seq() == remove_entries(old(self).entry_seq(), *key),
    {
        proof {
            lemma_view_remove(self.entries@, *key);
            lemma_lower_bound_range(self.entries@, *key);
        }
        let pos = match find_key(&self.entries, key) {
            Ok(p) => p,
            Err(p) => p,
        };
        let e = self.entries.remove(pos);
        e.value
    }

    /// Takes the value of `key` out of the map, where it is there.
    pub fn remove_or_none(&mut self, key: &K) -> (r: Option<V>)
        requires
            old(self).wf(),
        ensures
            final(self).wf(),
            r == (if old(self)@.contains_key(*key) {
                Some(old(self)@[*key])
            } else {
                None
            }),
            final(self)@ == old(self)@.remove(*key),
    {
        proof {
            lemma_view_remove(self.entries@, *key);
        }
        match find_key(&self.entries, key) {
            Ok(pos) => {
                let e = self.entries.remove(pos);
                Some(e.value)
            },
            Err(_) => {
                assert(remove_entries(self.entries@, *key) == self.entries@);
                None
            },
        }
    }

    /// The value of `key`, where it is there.
    pub fn get(&self, key: &K) -> (r: Option<V>)
        where
            V: Copy,
        ensures
            r == (if self@.contains_key(*key) {
                Some(self@[*key])
            } else {
                None
            }),
    {
        match find_key(&self.entries, key) {
            Ok(pos) => Some(self.entries[pos].value),
            Err(_) => None,
        }
    }

    /// The value of `key`; `key` must be there.
    pub fn borrow(&self, key: &K) -> (r: &V)
        requires
            self@.contains_key(*key),
        ensures
            *r == self@[*key],
    {
        proof {
            lemma_lower_bound_range(self.entries@, *key);
        }
        let pos = match find_key(&self.entries, key) {
            Ok(p) => p,
            Err(p) => p,
        };
        &self.entries[pos].value
    }

    /// A mutable borrow of the value of `key`; `key` must be there.
    pub fn borrow_mut(&mut self, key: &K) -> (r: &mut V)
        requires
            old(self).wf(),
            old(self)@.contains_key(*key),
        ensures
            *r == old(self)@[*key],
            final(self).wf(),
            final(self)@ == old(self)@.insert(*key, *final(r)),
    {
        proof {
            lemma_lower_bound_range(self.entries@, *key);
        }
        let pos = match find_key(&self.entries, key) {
            Ok(p) => p,
            Err(p) => p,
        };
        let ghost s = self.entries@;
        assert(s[pos as int].key == *key);
        proof {
            assert forall|v: V| true implies #[trigger] entries_view(
                s.update(pos as int, Entry { key: *key, value: v }),
            ) == entries_view(s).insert(*key, v) && sorted_keys(
                s.update(pos as int, Entry { key: *key, value: v }),
            ) by {
                lemma_view_upsert(s, *key, v);
                assert(upsert_entries(s, *key, v) == s.update(pos as int, Entry { key: *key, value: v }));
            }
        }
        entry_value_mut(&mut self.entries[pos])
    }

    /// The entry of the smallest key; the map must not be empty.
    pub fn borrow_front(&self) -> (r: (&K, &V))
        requires
            self.wf(),
            self.entry_seq().len() > 0,
        ensures
            *r.0 == self.entry_seq()[0].key,
            *r.1 == self.entry_seq()[0].value,
            self@.contains_key(*r.0),
            self@[*r.0] == *r.1,
            forall|k: K| #[trigger] self@.contains_key(k) ==> k == *r.0 || r.0.key_lt(k),
    {
        proof {
            let s = self.entries@;
            lemma_sorted_find(s, s[0].key);
            crate::big_ordered_map::lemma_sorted_index_is_bound_pub(s, s[0].key, 0);
            assert forall|k: K| #[trigger] self@.contains_key(k) implies k == s[0].key || s[0].key.key_lt(k) by {
                lemma_lower_bound_range(s, k);
                let i = lower_bound_spec(s, k);
                if i > 0 {
                    assert(s[0].key.key_lt(s[i].key));
                }
            }
        }
        let e = &self.entries[0];
        (&e.key, &e.value)
    }

    /// The entry of the largest key; the map must not be empty.
    pub fn borrow_back(&self) -> (r: (&K, &V))
        requires
            self.wf(),
            self.entry_seq().len() > 0,
        ensures
            *r.0 == self.entry_seq().last().key,
            *r.1 == self.entry_seq().last().value,
            self@.contains_key(*r.0),
            self@[*r.0] == *r.1,
            forall|k: K| #[trigger] self@.contains_key(k) ==> k == *r.0 || k.key_lt(*r.0),
    {
        proof {
            let s = self.entries@;
            let n = s.len() - 1;
            lemma_sorted_find(s, s[n].key);
            crate::big_ordered_map::lemma_sorted_index_is_bound_pub(s, s[n].key, n);
            assert forall|k: K| #[trigger] self@.contains_key(k) implies k == s[n].key || k.key_lt(s[n].key) by {
                lemma_lower_bound_range(s, k);
                let i = lower_bound_spec(s, k);
                if i < n {
                    assert(s[i].key.key_lt(s[n].key));
                }
            }
        }
        let e = &self.entries[self.entries.len() - 1];
        (&e.key, &e.value)
    }

    /// Maps `key` to `value`; what it mapped to before comes back.
    pub fn upsert(&mut self, key: K, value: V) -> (r: Option<V>)
        requires
            old(self).wf(),
        ensures
            final(self).wf(),
            final(self)@ == old(self)@.insert(key, value),
            r == (if old(self)@.contains_key(key) {
                Some(old(self)@[key])
            } else {
                None
            }),
    {
        proof {
            lemma_view_upsert(self.entries@, key, value);
        }
        match find_key(&self.entries, &key) {
            Ok(pos) => {
                let ghost s = self.entries@;
                let old_entry = self.entries.remove(pos);
                self.entries.insert(pos, Entry { key, value });
                assert(self.entries@ =~= s.update(pos as int, Entry { key, value }));
                Some(old_entry.value)
            },
            Err(pos) => {
                self.entries.insert(pos, Entry { key, value });
                None
            },
        }
    }

    /// Applies `f` to the value of `key`, where it is there; whether it was
    /// comes back. The other keys keep their values.
    pub fn modify_if_present<F: FnOnce(&mut V)>(&mut self, key: &K, f: F) -> (r: bool)
        requires
            old(self).wf(),
            forall|v: &mut V| f.requires((v,)),
        ensures
            final(self).wf(),
            r == old(self)@.contains_key(*key),
            final(self)@.dom() == old(self)@.dom(),
            forall|k: K| k != *key && #[trigger] old(self)@.contains_key(k) ==> final(self)@[k] == old(self)@[k],
    {
        if self.contains(key) {
            let v = self.borrow_mut(key);
            f(v);
            true
        } else {
            false
        }
    }

    /// Applies `f` to the value of `key` and hands back what it returns,
    /// where `key` is there.
    pub fn modify_if_present_and_return<F: FnOnce(&mut V) -> V>(&mut self, key: &K, f: F) -> (r: Option<V>)
        requires
            old(self).wf(),
            forall|v: &mut V| f.requires((v,)),
        ensures
            final(self).wf(),
            r is Some == old(self)@.contains_key(*key),
            final(self)@.dom() == old(self)@.dom(),
            forall|k: K| k != *key && #[trigger] old(self)@.contains_key(k) ==> final(self)@[k] == old(self)@[k],
    {
        if self.contains(key) {
            let v = self.borrow_mut(key);
            let result = f(v);
            Some(result)
        } else {
            None
        }
    }

    /// Applies `f` to the value of `key` and hands back what it returns;
    /// `key` must be there.
    pub fn modify_and_return<F: FnOnce(&mut V) -> V>(&mut self, key: &K, f: F) -> (r: V)
        requires
            old(self).wf(),
            old(self)@.contains_key(*key),
            forall|v: &mut V| f.requires((v,)),
        ensures
            final(self).wf(),
            final(self)@.dom() == old(self)@.dom(),
            forall|k: K| k != *key && #[trigger] old(self)@.contains_key(k) ==> final(self)@[k] == old(self)@[k],
    {
        let v = self.borrow_mut(key);
        f(v)
    }

    /// `f` applied to the value of `key`, where it is there.
    pub fn get_and_map<R, F: FnOnce(&V) -> R>(&self, key: &K, f: F) -> (r: Option<R>)
        requires
            forall|v: &V| f.requires((v,)),
        ensures
            r is Some == self@.contains_key(*key),
            r matches Some(x) ==> f.ensures((&self@[*key],), x),
    {
        match find_key(&self.entries, key) {
            Ok(pos) => Some(f(&self.entries[pos].value)),
            Err(_) => None,
        }
    }

    /// The keys, in order.
    pub fn keys(&self) -> (r: Vec<K>)
        ensures
            r@.len() == self.entry_seq().len(),
            forall|i: int| 0 <= i < r@.len() ==> #[trigger] r@[i] == self.entry_seq()[i].key,
    {
        let mut out: Vec<K> = Vec::new();
        let mut i: usize = 0;
        while i < self.entries.len()
            invariant
                i <= self.entries@.len(),
                out@.len() == i,
                forall|j: int| 0 <= j < i ==> #[trigger] out@[j] == self.entries@[j].key,
            decreases self.entries@.len() - i,
        {
            out.push(self.entries[i].key);
            i += 1;
        }
        out
    }

    /// The number of entries.
    pub fn len(&self) -> (r: usize)
        ensures
            r == self.entry_seq().len(),
    {
        self.entries.len()
    }
}

impl<K: TreeKey, V> BigOrderedMap<K, V> {
    /// Consumes the map, handing each value to `f` in key order.
    pub fn destroy<F: FnMut(V)>(self, f: F)
        requires
            forall|v: V| f.requires((v,)),
    {
        let mut f = f;
        let mut entries = self.entries;
        while entries.len() > 0
            invariant
                forall|v: V| f.requires((v,)),
            decreases entries@.len(),
        {
            let e = entries.remove(0);
            f(e.value);
        }
    }
}

impl<K: TreeKey, V> Default for BigOrderedMap<K, V> {
    fn default() -> (r: Self)
        ensures
            r.wf(),
            r@ == Map::<K, V>::empty(),
    {
        Self::new()
    }
}

/// A new empty map.
pub fn new_default_big_ordered_map<K: TreeKey, V>() -> (r: BigOrderedMap<K, V>)
    ensures
        r.wf(),
        r@ == Map::<K, V>::empty(),
{
    BigOrderedMap::new()
}

} // verus!
