//! A map keyed by 32-byte account addresses, kept as a vector of entries
//! with no key twice.
use vstd::prelude::*;

verus! {

/// Whether two addresses are equal, byte by byte.
pub fn addr_eq(a: &[u8; 32], b: &[u8; 32]) -> (r: bool)
    ensures
        r == (*a == *b),
{
    let mut i: usize = 0;
    while i < 32
        invariant
            0 <= i <= 32,
            forall|j: int| 0 <= j < i ==> a@[j] == b@[j],
        decreases 32 - i,
    {
        if a[i] != b[i] {
            return false;
        }
        i += 1;
    }
    assert(a@ =~= b@);
    proof { lemma_addr_ext(*a, *b); }
    true
}

/// Two addresses with the same bytes are the same address.
pub proof fn lemma_addr_ext(a: [u8; 32], b: [u8; 32])
    requires
        a@ == b@,
    ensures
        a == b,
{
}

/// Whether every byte of the address is zero.
pub open spec fn is_zero_addr(a: [u8; 32]) -> bool {
    forall|i: int| 0 <= i < 32 ==> a@[i] == 0
}

/// The all-zero address.
pub open spec fn zero_addr_spec() -> [u8; 32] {
    choose|a: [u8; 32]| is_zero_addr(a)
}

/// There is one all-zero address.
pub proof fn lemma_zero_addr_unique(a: [u8; 32])
    requires
        is_zero_addr(a),
    ensures
        a == zero_addr_spec(),
{
    let z = zero_addr_spec();
    assert(is_zero_addr(z));
    assert(a@ =~= z@);
    lemma_addr_ext(a, z);
}

/// The all-zero address.
pub fn zero_addr() -> (r: [u8; 32])
    ensures
        is_zero_addr(r),
        r == zero_addr_spec(),
{
    let r = [0u8; 32];
    assert(r@.len() == 32);
    proof {
        lemma_zero_addr_unique(r);
    }
    r
}

/// No two entries share a key.
pub open spec fn unique_keys<V>(s: Seq<([u8; 32], V)>) -> bool {
    forall|i: int, j: int|
        0 <= i < s.len() && 0 <= j < s.len() && i != j ==> s[i].0 != s[j].0
}

/// Whether some entry has key `k`.
pub open spec fn has_key<V>(s: Seq<([u8; 32], V)>, k: [u8; 32]) -> bool {
    exists|i: int| 0 <= i < s.len() && s[i].0 == k
}

/// The position of an entry with key `k`.
pub open spec fn key_index<V>(s: Seq<([u8; 32], V)>, k: [u8; 32]) -> int {
    choose|i: int| 0 <= i < s.len() && s[i].0 == k
}

/// The map that the entries describe.
pub open spec fn entries_map<V>(s: Seq<([u8; 32], V)>) -> Map<[u8; 32], V> {
    Map::new(|k: [u8; 32]| has_key(s, k), |k: [u8; 32]| s[key_index(s, k)].1)
}

pub proof fn lemma_key_index<V>(s: Seq<([u8; 32], V)>, i: int)
    requires
        unique_keys(s),
        0 <= i < s.len(),
    ensures
        has_key(s, s[i].0),
        key_index(s, s[i].0) == i,
        entries_map(s).contains_key(s[i].0),
        entries_map(s)[s[i].0] == s[i].1,
{
    assert(has_key(s, s[i].0));
}

/// A map from addresses to values.
#[derive(Debug)]
pub struct AddrMap<V> {
    entries: Vec<([u8; 32], V)>,
}

impl<V> AddrMap<V> {
    pub closed spec fn entries(&self) -> Seq<([u8; 32], V)> {
        self.entries@
    }

    /// The map's contents.
    pub closed spec fn view(&self) -> Map<[u8; 32], V> {
        entries_map(self.entries@)
    }

    /// No key occurs twice.
    pub closed spec fn wf(&self) -> bool {
        unique_keys(self.entries@)
    }

    pub fn new() -> (r: Self)
        ensures
            r.wf(),
            r.view() == Map::<[u8; 32], V>::empty(),
            r.len_spec() == 0,
    {
        let r = AddrMap { entries: Vec::new() };
        assert(r.view() =~= Map::<[u8; 32], V>::empty());
        r
    }

    /// The number of keys.
    pub closed spec fn len_spec(&self) -> nat {
        self.entries@.len()
    }

    pub proof fn lemma_len_is_dom_len(&self)
        requires
            self.wf(),
        ensures
            self.view().dom().finite(),
            self.view().dom().len() == self.len_spec(),
    {
        lemma_entries_dom(self.entries@);
    }

    pub fn len(&self) -> (r: usize)
        ensures
            r == self.len_spec(),
    {
        self.entries.len()
    }

    /// The key of the `i`-th entry, in storage order.
    pub closed spec fn key_at_spec(&self, i: int) -> [u8; 32] {
        self.entries@[i].0
    }

    pub fn key_at(&self, i: usize) -> (r: [u8; 32])
        requires
            i < self.len_spec(),
        ensures
            r == self.key_at_spec(i as int),
    {
        self.entries[i].0
    }

    pub fn value_at(&self, i: usize) -> (r: &V)
        requires
            self.wf(),
            i < self.len_spec(),
        ensures
            self.view().contains_key(self.key_at_spec(i as int)),
            *r == self.view()[self.key_at_spec(i as int)],
    {
        proof {
            lemma_key_index(self.entries@, i as int);
        }
        &self.entries[i].1
    }

    /// Every key is stored at some position.
    pub proof fn lemma_key_positions(&self)
        requires
            self.wf(),
        ensures
            forall|k: [u8; 32]|
                self.view().contains_key(k) <==> exists|i: int|
                    0 <= i < self.len_spec() && #[trigger] self.key_at_spec(i) == k,
            forall|i: int|
                0 <= i < self.len_spec() ==> self.view().contains_key(
                    #[trigger] self.key_at_spec(i),
                ),
    {
        assert forall|i: int| 0 <= i < self.len_spec() implies self.view().contains_key(
            #[trigger] self.key_at_spec(i),
        ) by {
            lemma_key_index(self.entries@, i);
        }
        assert forall|k: [u8; 32]| self.view().contains_key(k) implies exists|i: int|
            0 <= i < self.len_spec() && #[trigger] self.key_at_spec(i) == k by {
            let j = choose|j: int| 0 <= j < self.entries@.len() && self.entries@[j].0 == k;
            assert(self.key_at_spec(j) == k);
        }
    }

    fn find(&self, k: &[u8; 32]) -> (r: Option<usize>)
        requires
            self.wf(),
        ensures
            r is None <==> !self.view().contains_key(*k),
            r matches Some(i) ==> i < self.entries@.len() && self.entries@[i as int].0 == *k,
    {
        let mut i: usize = 0;
        while i < self.entries.len()
            invariant
                i <= self.entries@.len(),
                forall|j: int| 0 <= j < i ==> self.entries@[j].0 != *k,
            decreases self.entries@.len() - i,
        {
            if addr_eq(&self.entries[i].0, k) {
                return Some(i);
            }
            i += 1;
        }
        None
    }

    /// The position of `k`, if it is a key.
    pub fn index_of(&self, k: &[u8; 32]) -> (r: Option<usize>)
        requires
            self.wf(),
        ensures
            r is None <==> !self.view().contains_key(*k),
            r matches Some(i) ==> i < self.len_spec() && self.key_at_spec(i as int) == *k,
    {
        self.find(k)
    }

    /// The value at position `i`, to be changed in place.
    pub fn value_at_mut(&mut self, i: usize) -> (r: &mut V)
        requires
            old(self).wf(),
            i < old(self).len_spec(),
        ensures
            *r == old(self).view()[old(self).key_at_spec(i as int)],
            final(self).wf(),
            final(self).len_spec() == old(self).len_spec(),
            forall|j: int| 0 <= j < old(self).len_spec() ==> #[trigger] final(self).key_at_spec(j) == old(self).key_at_spec(j),
            final(self).view() == old(self).view().insert(old(self).key_at_spec(i as int), *final(r)),
    {
        proof {
            lemma_key_index(self.entries@, i as int);
        }
        let ghost old_entries = self.entries@;
        let r = &mut self.entries[i].1;
        proof {
            lemma_update_view(old_entries, i as int, *final(r));
        }
        r
    }

    pub fn contains_key(&self, k: &[u8; 32]) -> (r: bool)
        requires
            self.wf(),
        ensures
            r == self.view().contains_key(*k),
    {
        self.find(k).is_some()
    }

    pub fn get(&self, k: &[u8; 32]) -> (r: Option<&V>)
        requires
            self.wf(),
        ensures
            r is None <==> !self.view().contains_key(*k),
            r matches Some(v) ==> *v == self.view()[*k],
    {
        match self.find(k) {
            Some(i) => {
                proof {
                    lemma_key_index(self.entries@, i as int);
                }
                Some(&self.entries[i].1)
            },
            None => None,
        }
    }

    /// Sets the value of `k`, returning the value it replaced.
    pub fn insert(&mut self, k: [u8; 32], v: V) -> (r: Option<V>)
        requires
            old(self).wf(),
        ensures
            final(self).wf(),
            final(self).view() == old(self).view().insert(k, v),
            old(self).view().contains_key(k) ==> r == Some(old(self).view()[k]),
            !old(self).view().contains_key(k) ==> r is None,
    {
        let ghost old_entries = self.entries@;
        match self.find(&k) {
            Some(i) => {
                proof {
                    lemma_key_index(old_entries, i as int);
                }
                let (_, old_v) = self.entries.remove(i);
                self.entries.insert(i, (k, v));
                proof {
                    let s = self.entries@;
                    assert(s =~= old_entries.update(i as int, (k, v)));
                    assert(unique_keys(s));
                    assert forall|key: [u8; 32]| #[trigger]
                        entries_map(s).contains_key(key) == old(self).view().insert(
                            k,
                            v,
                        ).contains_key(key) by {
                        if has_key(s, key) {
                            let j = choose|j: int| 0 <= j < s.len() && s[j].0 == key;
                            if j != i {
                                assert(old_entries[j].0 == key);
                            }
                        }
                        if has_key(old_entries, key) {
                            let j = choose|j: int|
                                0 <= j < old_entries.len() && old_entries[j].0 == key;
                            assert(s[j].0 == key);
                        }
                    }
                    assert forall|key: [u8; 32]| #[trigger]
                        entries_map(s).contains_key(key) implies entries_map(s)[key] == old(self).view().insert(k, v)[key] by {
                        let j = choose|j: int| 0 <= j < s.len() && s[j].0 == key;
                        lemma_key_index(s, j);
                        if j != i {
                            lemma_key_index(old_entries, j);
                        }
                    }
                    assert(entries_map(s) =~= old(self).view().insert(k, v));
                }
                Some(old_v)
            },
            None => {
                self.entries.push((k, v));
                proof {
                    let s = self.entries@;
                    assert(s == old_entries.push((k, v)));
                    assert(unique_keys(s));
                    let n = old_entries.len() as int;
                    assert forall|key: [u8; 32]| #[trigger]
                        entries_map(s).contains_key(key) == old(self).view().insert(
                            k,
                            v,
                        ).contains_key(key) by {
                        if has_key(s, key) {
                            let j = choose|j: int| 0 <= j < s.len() && s[j].0 == key;
                            if j != n {
                                assert(old_entries[j].0 == key);
                            }
                        }
                        if has_key(old_entries, key) {
                            let j = choose|j: int|
                                0 <= j < old_entries.len() && old_entries[j].0 == key;
                            assert(s[j].0 == key);
                        }
                        if key == k {
                            assert(s[n].0 == key);
                        }
                    }
                    assert forall|key: [u8; 32]| #[trigger]
                        entries_map(s).contains_key(key) implies entries_map(s)[key] == old(self).view().insert(k, v)[key] by {
                        let j = choose|j: int| 0 <= j < s.len() && s[j].0 == key;
                        lemma_key_index(s, j);
                        if j != n {
                            lemma_key_index(old_entries, j);
                        }
                    }
                    assert(entries_map(s) =~= old(self).view().insert(k, v));
                }
                None
            },
        }
    }

    /// Removes `k`, returning its value.
    pub fn remove(&mut self, k: &[u8; 32]) -> (r: Option<V>)
        requires
            old(self).wf(),
        ensures
            final(self).wf(),
            final(self).view() == old(self).view().remove(*k),
            old(self).view().contains_key(*k) ==> r == Some(old(self).view()[*k]),
            !old(self).view().contains_key(*k) ==> r is None,
    {
        let ghost old_entries = self.entries@;
        match self.find(k) {
            Some(i) => {
                proof {
                    lemma_key_index(old_entries, i as int);
                }
                let (_, v) = self.entries.remove(i);
                proof {
                    let s = self.entries@;
                    assert(s == old_entries.remove(i as int));
                    assert forall|a: int, b: int|
                        0 <= a < s.len() && 0 <= b < s.len() && a != b implies s[a].0 != s[b].0 by {
                        let a0 = if a < i { a } else { a + 1 };
                        let b0 = if b < i { b } else { b + 1 };
                        assert(s[a] == old_entries[a0]);
                        assert(s[b] == old_entries[b0]);
                    }
                    assert forall|key: [u8; 32]| #[trigger]
                        entries_map(s).contains_key(key) == old(self).view().remove(
                            *k,
                        ).contains_key(key) by {
                        if has_key(s, key) {
                            let j = choose|j: int| 0 <= j < s.len() && s[j].0 == key;
                            let j0 = if j < i { j } else { j + 1 };
                            assert(old_entries[j0].0 == key);
                        }
                        if has_key(old_entries, key) && key != *k {
                            let j = choose|j: int|
                                0 <= j < old_entries.len() && old_entries[j].0 == key;
                            assert(j != i);
                            let j1 = if j < i { j } else { j - 1 };
                            assert(s[j1].0 == key);
                        }
                    }
                    assert forall|key: [u8; 32]| #[trigger]
                        entries_map(s).contains_key(key) implies entries_map(s)[key] == old(self).view().remove(*k)[key] by {
                        let j = choose|j: int| 0 <= j < s.len() && s[j].0 == key;
                        lemma_key_index(s, j);
                        let j0 = if j < i { j } else { j + 1 };
                        lemma_key_index(old_entries, j0);
                    }
                    assert(entries_map(s) =~= old(self).view().remove(*k));
                }
                Some(v)
            },
            None => {
                assert(old(self).view() =~= old(self).view().remove(*k));
                None
            },
        }
    }
}

proof fn lemma_update_view<V>(s: Seq<([u8; 32], V)>, i: int, v: V)
    requires
        unique_keys(s),
        0 <= i < s.len(),
    ensures
        unique_keys(s.update(i, (s[i].0, v))),
        entries_map(s.update(i, (s[i].0, v))) == entries_map(s).insert(s[i].0, v),
{
    let t = s.update(i, (s[i].0, v));
    let k = s[i].0;
    assert(unique_keys(t));
    assert forall|key: [u8; 32]| #[trigger]
        entries_map(t).contains_key(key) == entries_map(s).insert(k, v).contains_key(key) by {
        if has_key(t, key) {
            let j = choose|j: int| 0 <= j < t.len() && t[j].0 == key;
            assert(s[j].0 == key);
        }
        if has_key(s, key) {
            let j = choose|j: int| 0 <= j < s.len() && s[j].0 == key;
            assert(t[j].0 == key);
        }
    }
    assert forall|key: [u8; 32]| #[trigger]
        entries_map(t).contains_key(key) implies entries_map(t)[key] == entries_map(s).insert(k, v)[key] by {
        let j = choose|j: int| 0 <= j < t.len() && t[j].0 == key;
        lemma_key_index(t, j);
        if j != i {
            lemma_key_index(s, j);
        }
    }
    assert(entries_map(t) =~= entries_map(s).insert(k, v));
}

proof fn lemma_entries_dom<V>(s: Seq<([u8; 32], V)>)
    requires
        unique_keys(s),
    ensures
        entries_map(s).dom().finite(),
        entries_map(s).dom().len() == s.len(),
    decreases s.len(),
{
    if s.len() == 0 {
        assert(entries_map(s).dom() =~= Set::<[u8; 32]>::empty());
    } else {
        let t = s.drop_last();
        assert(unique_keys(t));
        lemma_entries_dom(t);
        let k = s.last().0;
        assert(!has_key(t, k)) by {
            if has_key(t, k) {
                let j = choose|j: int| 0 <= j < t.len() && t[j].0 == k;
                assert(s[j].0 == s[s.len() - 1].0);
            }
        }
        assert(entries_map(s).dom() =~= entries_map(t).dom().insert(k)) by {
            assert forall|key: [u8; 32]|
                entries_map(s).dom().contains(key) == entries_map(t).dom().insert(k).contains(
                    key,
                ) by {
                if has_key(s, key) {
                    let j = choose|j: int| 0 <= j < s.len() && s[j].0 == key;
                    if j < t.len() {
                        assert(t[j].0 == key);
                    }
                }
                if has_key(t, key) {
                    let j = choose|j: int| 0 <= j < t.len() && t[j].0 == key;
                    assert(s[j].0 == key);
                }
                if key == k {
                    assert(s[s.len() - 1].0 == key);
                }
            }
        }
    }
}

} // verus!
