//! The B+ tree map that the on-chain state keeps its ordered collections
//! in. The root node is held inline; the other nodes live in numbered
//! storage slots, which a [`SlotStore`] holds here as decoded nodes, and
//! every operation hands back the slot writes it makes.
use vstd::prelude::*;
use crate::addr_map::{addr_eq, lemma_addr_ext};
use crate::pending_order_tracker::{addr_lt, lemma_lex_asym, lemma_lex_total, lemma_lex_trans, lex_lt};

verus! {

/// The result of comparing two keys.
#[derive(Clone, Copy, Debug, PartialEq, Eq)]
pub enum KeyOrder {
    Less,
    Equal,
    Greater,
}

/// A key of the tree: a strict total order with a three-way comparison.
pub trait TreeKey: Copy + Sized {
    spec fn key_lt(self, other: Self) -> bool;

    proof fn lemma_key_lt_irreflexive(a: Self)
        ensures
            !a.key_lt(a),
    ;

    proof fn lemma_key_lt_transitive(a: Self, b: Self, c: Self)
        requires
            a.key_lt(b),
            b.key_lt(c),
        ensures
            a.key_lt(c),
    ;

    proof fn lemma_key_lt_total(a: Self, b: Self)
        ensures
            a.key_lt(b) || a == b || b.key_lt(a),
    ;

    fn compare_to(&self, other: &Self) -> (r: KeyOrder)
        ensures
            (match r {
                KeyOrder::Less => self.key_lt(*other),
                KeyOrder::Equal => *self == *other,
                KeyOrder::Greater => other.key_lt(*self),
            }),
    ;
}

impl TreeKey for u64 {
    open spec fn key_lt(self, other: Self) -> bool {
        self < other
    }

    proof fn lemma_key_lt_irreflexive(a: Self) {
    }

    proof fn lemma_key_lt_transitive(a: Self, b: Self, c: Self) {
    }

    proof fn lemma_key_lt_total(a: Self, b: Self) {
    }

    fn compare_to(&self, other: &Self) -> (r: KeyOrder) {
        if *self < *other {
            KeyOrder::Less
        } else if *self == *other {
            KeyOrder::Equal
        } else {
            KeyOrder::Greater
        }
    }
}

impl TreeKey for u128 {
    open spec fn key_lt(self, other: Self) -> bool {
        self < other
    }

    proof fn lemma_key_lt_irreflexive(a: Self) {
    }

    proof fn lemma_key_lt_transitive(a: Self, b: Self, c: Self) {
    }

    proof fn lemma_key_lt_total(a: Self, b: Self) {
    }

    fn compare_to(&self, other: &Self) -> (r: KeyOrder) {
        if *self < *other {
            KeyOrder::Less
        } else if *self == *other {
            KeyOrder::Equal
        } else {
            KeyOrder::Greater
        }
    }
}

impl TreeKey for [u8; 32] {
    open spec fn key_lt(self, other: Self) -> bool {
        lex_lt(self@, other@)
    }

    proof fn lemma_key_lt_irreflexive(a: Self) {
        if lex_lt(a@, a@) {
            lemma_lex_asym(a@, a@);
        }
    }

    proof fn lemma_key_lt_transitive(a: Self, b: Self, c: Self) {
        lemma_lex_trans(a@, b@, c@);
    }

    proof fn lemma_key_lt_total(a: Self, b: Self) {
        if a@ == b@ {
            lemma_addr_ext(a, b);
        } else {
            lemma_lex_total(a@, b@);
        }
    }

    fn compare_to(&self, other: &Self) -> (r: KeyOrder) {
        if addr_lt(self, other) {
            KeyOrder::Less
        } else if addr_eq(self, other) {
            KeyOrder::Equal
        } else {
            proof {
                Self::lemma_key_lt_total(*self, *other);
            }
            KeyOrder::Greater
        }
    }
}

/// The slot of a node in the node table.
#[derive(Clone, Copy, Debug)]
pub struct StoredSlot {
    pub slot_index: u64,
}

/// What an entry of a node points to: a child node in a slot, or a value.
#[derive(Clone, Copy, Debug)]
pub enum Child<V> {
    Inner { node_index: StoredSlot },
    Leaf { value: V },
}

/// One key and what it maps to.
#[derive(Clone, Copy, Debug)]
pub struct Entry<K, V> {
    pub key: K,
    pub value: V,
}

/// The entries of a node, kept in key order.
#[derive(Clone, Debug)]
pub enum OrderedMap<K, V> {
    SortedVectorMap { entries: Vec<Entry<K, V>> },
}

/// A node of the tree: a leaf holds values, an inner node holds child
/// slots keyed by the largest key below them; `prev` and `next` link the
/// nodes of one level (0 where there is none).
#[derive(Clone, Debug)]
pub enum Node<K, V> {
    V1 { is_leaf: bool, children: OrderedMap<K, Child<V>>, prev: u64, next: u64 },
}

/// The content of a storage slot: a node, or a free slot in the reuse chain.
#[derive(Clone, Debug)]
pub enum Link<T> {
    Occupied { value: T },
    Vacant { next: u64 },
}

/// The handle of the table that holds the node slots.
#[derive(Clone, Copy, Debug)]
pub struct TableHandle {
    pub handle: [u8; 32],
}

/// The node table and the number of slots in it.
#[derive(Clone, Copy, Debug)]
pub struct TableWithLength {
    pub inner: TableHandle,
    pub length: u64,
}

/// Hands out node slots, fresh ones or those freed before when reuse is on.
#[derive(Debug)]
pub enum StorageSlotsAllocator<T> {
    V1 {
        slots: Option<TableWithLength>,
        new_slot_index: u64,
        should_reuse: bool,
        reuse_head_index: u64,
        reuse_spare_count: u32,
        _phantom: std::marker::PhantomData<T>,
    },
}

/// A write of one slot that an operation asks for.
#[derive(Clone, Debug)]
pub struct TableWrite<K, V> {
    pub slot_index: u64,
    pub data: Link<Node<K, V>>,
    pub is_new: bool,
}

/// The ordered map: an inline root, the slot allocator, the slots of the
/// smallest and largest leaves, the degrees, and the slots written during
/// the operation under way.
pub enum BigOrderedMap<K, V> {
    BPlusTreeMap {
        root: Node<K, V>,
        nodes: StorageSlotsAllocator<Node<K, V>>,
        min_leaf_index: u64,
        max_leaf_index: u64,
        constant_kv_size: bool,
        inner_max_degree: u16,
        leaf_max_degree: u16,
        write_cache: SlotStore<K, V>,
    },
}

/// Why a tree operation could not go on.
#[derive(Clone, Copy, Debug, PartialEq, Eq)]
pub enum TreeError {
    /// The slot holds nothing.
    SlotNotFound(u64),
    /// The slot is a free slot, not a node.
    SlotVacant(u64),
    /// The walk from the root went deeper than any tree can be.
    MaxDepthExceeded,
    /// No path to a leaf was found.
    EmptyPath,
    /// A value was looked for where a child node stands.
    ExpectedLeafChild,
    /// A child node was looked for where a value stands.
    ExpectedInnerChild,
    /// The parent holds no entry for the child being removed.
    InnerKeyNotFound,
    /// A node lacks the entries or the links that the tree's shape owes it.
    MalformedTree,
}

impl<K, V> Node<K, V> {
    pub open spec fn leaf_flag(self) -> bool {
        match self {
            Node::V1 { is_leaf, .. } => is_leaf,
        }
    }

    pub open spec fn entry_seq(self) -> Seq<Entry<K, Child<V>>> {
        match self {
            Node::V1 { children: OrderedMap::SortedVectorMap { entries }, .. } => entries@,
        }
    }

    pub open spec fn prev_link(self) -> u64 {
        match self {
            Node::V1 { prev, .. } => prev,
        }
    }

    pub open spec fn next_link(self) -> u64 {
        match self {
            Node::V1 { next, .. } => next,
        }
    }
}

impl<T> StorageSlotsAllocator<T> {
    pub open spec fn next_fresh(self) -> u64 {
        match self {
            StorageSlotsAllocator::V1 { new_slot_index, .. } => new_slot_index,
        }
    }

    pub open spec fn table(self) -> Option<TableWithLength> {
        match self {
            StorageSlotsAllocator::V1 { slots, .. } => slots,
        }
    }

    pub open spec fn reuses(self) -> bool {
        match self {
            StorageSlotsAllocator::V1 { should_reuse, .. } => should_reuse,
        }
    }

    pub open spec fn reuse_head(self) -> u64 {
        match self {
            StorageSlotsAllocator::V1 { reuse_head_index, .. } => reuse_head_index,
        }
    }

    /// Whether the next `n` slots handed out are fresh ones, none of them
    /// slot 0 or the root's slot 1, and counting them overflows nothing.
    pub open spec fn hands_out_fresh(self, n: nat) -> bool {
        &&& !self.reuses() || self.reuse_head() == 0
        &&& 2 <= self.next_fresh()
        &&& self.next_fresh() + n <= u64::MAX
        &&& self.table() matches Some(t) ==> t.length + n <= u64::MAX
    }

    pub open spec fn spare_count(self) -> u32 {
        match self {
            StorageSlotsAllocator::V1 { reuse_spare_count, .. } => reuse_spare_count,
        }
    }
}

/// The node table with one slot less counted, where it counts any.
pub open spec fn table_less_one(t: Option<TableWithLength>) -> Option<TableWithLength> {
    match t {
        Some(tw) => Some(
            TableWithLength {
                inner: tw.inner,
                length: if tw.length > 0 {
                    (tw.length - 1) as u64
                } else {
                    0
                },
            },
        ),
        None => None,
    }
}

/// Whether the keys of `s` rise strictly.
pub open spec fn sorted_keys<K: TreeKey, C>(s: Seq<Entry<K, C>>) -> bool {
    forall|i: int, j: int| 0 <= i < j < s.len() ==> #[trigger] s[i].key.key_lt(#[trigger] s[j].key)
}

/// The number of leading entries of `s` whose keys are below `key`: where
/// `key` stands or would be put in a sorted `s`.
pub open spec fn lower_bound_spec<K: TreeKey, C>(s: Seq<Entry<K, C>>, key: K) -> int
    decreases s.len(),
{
    if s.len() == 0 {
        0
    } else if s[0].key.key_lt(key) {
        1 + lower_bound_spec(s.drop_first(), key)
    } else {
        0
    }
}

/// Whether `key` stands at its lower bound in `s`.
pub open spec fn has_key_at_bound<K: TreeKey, C>(s: Seq<Entry<K, C>>, key: K) -> bool {
    let p = lower_bound_spec(s, key);
    p < s.len() && s[p].key == key
}

pub proof fn lemma_lower_bound_char<K: TreeKey, C>(s: Seq<Entry<K, C>>, key: K, p: int)
    requires
        0 <= p <= s.len(),
        forall|j: int| 0 <= j < p ==> #[trigger] s[j].key.key_lt(key),
        p < s.len() ==> !s[p].key.key_lt(key),
    ensures
        lower_bound_spec(s, key) == p,
    decreases s.len(),
{
    if s.len() > 0 && p > 0 {
        assert(s[0].key.key_lt(key));
        assert forall|j: int| 0 <= j < p - 1 implies #[trigger] s.drop_first()[j].key.key_lt(key) by {
            assert(s.drop_first()[j] == s[j + 1]);
        }
        if p - 1 < s.drop_first().len() {
            assert(s.drop_first()[p - 1] == s[p]);
        }
        lemma_lower_bound_char(s.drop_first(), key, p - 1);
    }
}

/// The lower bound lies within the sequence.
pub proof fn lemma_lower_bound_range<K: TreeKey, C>(s: Seq<Entry<K, C>>, key: K)
    ensures
        0 <= lower_bound_spec(s, key) <= s.len(),
    decreases s.len(),
{
    if s.len() > 0 && s[0].key.key_lt(key) {
        lemma_lower_bound_range(s.drop_first(), key);
    }
}

/// In a sorted sequence the key stands at its lower bound exactly when it
/// stands anywhere.
pub proof fn lemma_sorted_find<K: TreeKey, C>(s: Seq<Entry<K, C>>, key: K)
    requires
        sorted_keys(s),
    ensures
        has_key_at_bound(s, key) <==> exists|i: int| 0 <= i < s.len() && #[trigger] s[i].key == key,
{
    lemma_lower_bound_range(s, key);
    let p = lower_bound_spec(s, key);
    if exists|i: int| 0 <= i < s.len() && #[trigger] s[i].key == key {
        let i = choose|i: int| 0 <= i < s.len() && #[trigger] s[i].key == key;
        lemma_lower_bound_props(s, key);
        if i < p {
            assert(s[i].key.key_lt(key));
            K::lemma_key_lt_irreflexive(key);
        } else if i > p {
            assert(s[p].key.key_lt(s[i].key));
            if s[p].key != key {
                K::lemma_key_lt_total(s[p].key, key);
            }
        }
    }
}

/// Every entry before the lower bound is below the key, and the entry at
/// it is not.
pub proof fn lemma_lower_bound_props<K: TreeKey, C>(s: Seq<Entry<K, C>>, key: K)
    ensures
        forall|j: int| 0 <= j < lower_bound_spec(s, key) ==> #[trigger] s[j].key.key_lt(key),
        lower_bound_spec(s, key) < s.len() ==> !s[lower_bound_spec(s, key)].key.key_lt(key),
    decreases s.len(),
{
    if s.len() > 0 && s[0].key.key_lt(key) {
        lemma_lower_bound_props(s.drop_first(), key);
        lemma_lower_bound_range(s.drop_first(), key);
        assert(lower_bound_spec(s, key) == 1 + lower_bound_spec(s.drop_first(), key));
        assert forall|j: int| 0 <= j < lower_bound_spec(s, key) implies #[trigger] s[j].key.key_lt(
            key,
        ) by {
            if j > 0 {
                assert(s[j] == s.drop_first()[j - 1]);
                assert(s.drop_first()[j - 1].key.key_lt(key));
            }
        }
        lemma_lower_bound_range(s.drop_first(), key);
        if lower_bound_spec(s, key) < s.len() {
            assert(s[lower_bound_spec(s, key)] == s.drop_first()[lower_bound_spec(s.drop_first(), key)]);
        }
    }
}

/// The first position whose key is not below `key`.
pub(crate) fn lower_bound<K: TreeKey, C>(entries: &Vec<Entry<K, C>>, key: &K) -> (r: usize)
    ensures
        r == lower_bound_spec(entries@, *key),
        r <= entries@.len(),
{
    let mut i: usize = 0;
    while i < entries.len()
        invariant
            i <= entries@.len(),
            forall|j: int| 0 <= j < i ==> #[trigger] entries@[j].key.key_lt(*key),
        decreases entries@.len() - i,
    {
        match entries[i].key.compare_to(key) {
            KeyOrder::Less => {},
            _ => {
                proof {
                    if entries@[i as int].key.key_lt(*key) {
                        K::lemma_key_lt_irreflexive(*key);
                        if entries@[i as int].key != *key {
                            K::lemma_key_lt_transitive(*key, entries@[i as int].key, *key);
                        }
                    }
                    lemma_lower_bound_char(entries@, *key, i as int);
                }
                return i;
            },
        }
        i += 1;
    }
    proof {
        lemma_lower_bound_char(entries@, *key, i as int);
    }
    i
}

/// Where `key` stands (`Ok`) or would be put (`Err`), judged at its lower
/// bound.
pub(crate) fn find_key<K: TreeKey, C>(entries: &Vec<Entry<K, C>>, key: &K) -> (r: Result<usize, usize>)
    ensures
        has_key_at_bound(entries@, *key) <==> r is Ok,
        (match r {
            Ok(p) => p == lower_bound_spec(entries@, *key) && p < entries@.len(),
            Err(p) => p == lower_bound_spec(entries@, *key) && p <= entries@.len(),
        }),
{
    let p = lower_bound(entries, key);
    if p < entries.len() {
        match entries[p].key.compare_to(key) {
            KeyOrder::Equal => {
                return Ok(p);
            },
            _ => {
                proof {
                    if entries@[p as int].key == *key {
                        K::lemma_key_lt_irreflexive(*key);
                    }
                }
            },
        }
    }
    Err(p)
}

/// Whether two keys are the same.
fn same_key<K: TreeKey>(a: &K, b: &K) -> (r: bool)
    ensures
        r == (*a == *b),
{
    match a.compare_to(b) {
        KeyOrder::Equal => true,
        _ => {
            proof {
                if *a == *b {
                    K::lemma_key_lt_irreflexive(*a);
                }
            }
            false
        },
    }
}

/// Whether `a` is below `b`.
fn key_less<K: TreeKey>(a: &K, b: &K) -> (r: bool)
    ensures
        r == a.key_lt(*b),
{
    match a.compare_to(b) {
        KeyOrder::Less => true,
        KeyOrder::Equal => {
            proof {
                K::lemma_key_lt_irreflexive(*a);
            }
            false
        },
        KeyOrder::Greater => {
            proof {
                if a.key_lt(*b) {
                    K::lemma_key_lt_transitive(*a, *b, *a);
                    K::lemma_key_lt_irreflexive(*a);
                }
            }
            false
        },
    }
}


impl<K, V> BigOrderedMap<K, V> {
    pub open spec fn root_node(self) -> Node<K, V> {
        match self {
            BigOrderedMap::BPlusTreeMap { root, .. } => root,
        }
    }

    pub open spec fn allocator(self) -> StorageSlotsAllocator<Node<K, V>> {
        match self {
            BigOrderedMap::BPlusTreeMap { nodes, .. } => nodes,
        }
    }

    pub open spec fn min_leaf(self) -> u64 {
        match self {
            BigOrderedMap::BPlusTreeMap { min_leaf_index, .. } => min_leaf_index,
        }
    }

    pub open spec fn max_leaf(self) -> u64 {
        match self {
            BigOrderedMap::BPlusTreeMap { max_leaf_index, .. } => max_leaf_index,
        }
    }

    pub open spec fn inner_degree(self) -> u16 {
        match self {
            BigOrderedMap::BPlusTreeMap { inner_max_degree, .. } => inner_max_degree,
        }
    }

    pub open spec fn leaf_degree(self) -> u16 {
        match self {
            BigOrderedMap::BPlusTreeMap { leaf_max_degree, .. } => leaf_max_degree,
        }
    }

    pub open spec fn cache(self) -> SlotStore<K, V> {
        match self {
            BigOrderedMap::BPlusTreeMap { write_cache, .. } => write_cache,
        }
    }

    /// The entries of the root node.
    pub open spec fn root_entries(self) -> Seq<Entry<K, Child<V>>> {
        self.root_node().entry_seq()
    }

    /// The same map with another root node.
    pub open spec fn with_root(self, r: Node<K, V>) -> Self {
        match self {
            BigOrderedMap::BPlusTreeMap {
                root: _,
                nodes,
                min_leaf_index,
                max_leaf_index,
                constant_kv_size,
                inner_max_degree,
                leaf_max_degree,
                write_cache,
            } => BigOrderedMap::BPlusTreeMap {
                root: r,
                nodes,
                min_leaf_index,
                max_leaf_index,
                constant_kv_size,
                inner_max_degree,
                leaf_max_degree,
                write_cache,
            },
        }
    }

    /// `self` differs from `old` at most in the entries of the root.
    pub open spec fn only_root_entries_changed(self, old: Self) -> bool {
        &&& self.root_node().leaf_flag() == old.root_node().leaf_flag()
        &&& self.root_node().prev_link() == old.root_node().prev_link()
        &&& self.root_node().next_link() == old.root_node().next_link()
        &&& self.with_root(old.root_node()) == old
    }
}

/// Whether an entry holds a value.
pub open spec fn is_leaf_entry<K, V>(e: Entry<K, Child<V>>) -> bool {
    e.value is Leaf
}

/// The number of entries of `s` that point to child nodes.
pub open spec fn inner_count<K, V>(s: Seq<Entry<K, Child<V>>>) -> nat
    decreases s.len(),
{
    if s.len() == 0 {
        0
    } else {
        (if s.last().value is Inner {
            1nat
        } else {
            0nat
        }) + inner_count(s.drop_last())
    }
}

impl<K: TreeKey, V> BigOrderedMap<K, V> {
    /// Whether the root holds no entry.
    pub fn is_empty(&self) -> (r: bool)
        ensures
            r == (self.root_entries().len() == 0),
    {
        match self {
            BigOrderedMap::BPlusTreeMap { root, .. } => match root {
                Node::V1 { children, .. } => match children {
                    OrderedMap::SortedVectorMap { entries } => entries.len() == 0,
                },
            },
        }
    }

    /// The number of entries in the root node (of the whole map only while
    /// the root is a leaf).
    pub fn root_entry_count(&self) -> (r: usize)
        ensures
            r == self.root_entries().len(),
    {
        match self {
            BigOrderedMap::BPlusTreeMap { root, .. } => match root {
                Node::V1 { children, .. } => match children {
                    OrderedMap::SortedVectorMap { entries } => entries.len(),
                },
            },
        }
    }

    /// The key of the first entry of the root.
    pub fn first_key(&self) -> (r: Option<&K>)
        ensures
            self.root_entries().len() == 0 ==> r is None,
            self.root_entries().len() > 0 ==> (r matches Some(k) && *k == self.root_entries()[0].key),
    {
        match self {
            BigOrderedMap::BPlusTreeMap { root, .. } => match root {
                Node::V1 { children, .. } => match children {
                    OrderedMap::SortedVectorMap { entries } => {
                        if entries.len() == 0 {
                            None
                        } else {
                            Some(&entries[0].key)
                        }
                    },
                },
            },
        }
    }

    /// Takes the first entry of the root out where it holds a value.
    pub fn pop_front_leaf(&mut self) -> (r: Option<(K, V)>)
        ensures
            final(self).only_root_entries_changed(*old(self)),
            ({
                let es = old(self).root_entries();
                if es.len() > 0 && es[0].value is Leaf {
                    r == Some((es[0].key, es[0].value->value)) && final(self).root_entries()
                        == es.drop_first()
                } else {
                    r is None && final(self).root_entries() == es
                }
            }),
    {
        match self {
            BigOrderedMap::BPlusTreeMap { root, .. } => match root {
                Node::V1 { children, .. } => match children {
                    OrderedMap::SortedVectorMap { entries } => {
                        if entries.len() == 0 {
                            return None;
                        }
                        if let Child::Inner { .. } = &entries[0].value {
                            return None;
                        }
                        let e = entries.remove(0);
                        match e.value {
                            Child::Leaf { value } => Some((e.key, value)),
                            Child::Inner { .. } => {
                                proof {
                                    assert(false);
                                }
                                None
                            },
                        }
                    },
                },
            },
        }
    }

    /// Adds an entry to the root at the place its key sorts to.
    pub fn add_leaf(&mut self, key: K, value: V)
        ensures
            final(self).only_root_entries_changed(*old(self)),
            final(self).root_entries() == old(self).root_entries().insert(
                lower_bound_spec(old(self).root_entries(), key),
                Entry { key, value: Child::Leaf { value } },
            ),
    {
        match self {
            BigOrderedMap::BPlusTreeMap { root, .. } => match root {
                Node::V1 { children, .. } => match children {
                    OrderedMap::SortedVectorMap { entries } => {
                        let pos = lower_bound(entries, &key);
                        entries.insert(pos, Entry { key, value: Child::Leaf { value } });
                    },
                },
            },
        }
    }

    /// Removes the root entry of `key`; its value comes back where it held one.
    pub fn remove_leaf(&mut self, key: &K) -> (r: Option<V>)
        ensures
            final(self).only_root_entries_changed(*old(self)),
            ({
                let es = old(self).root_entries();
                let p = lower_bound_spec(es, *key);
                if has_key_at_bound(es, *key) {
                    final(self).root_entries() == es.remove(p) && r == (if es[p].value is Leaf {
                        Some(es[p].value->value)
                    } else {
                        None
                    })
                } else {
                    r is None && final(self).root_entries() == es
                }
            }),
    {
        match self {
            BigOrderedMap::BPlusTreeMap { root, .. } => match root {
                Node::V1 { children, .. } => match children {
                    OrderedMap::SortedVectorMap { entries } => {
                        match find_key(entries, key) {
                            Ok(pos) => {
                                let e = entries.remove(pos);
                                match e.value {
                                    Child::Leaf { value } => Some(value),
                                    Child::Inner { .. } => None,
                                }
                            },
                            Err(_) => None,
                        }
                    },
                },
            },
        }
    }

    /// Whether the root holds an entry of `key`.
    pub fn contains_key(&self, key: &K) -> (r: bool)
        ensures
            r == has_key_at_bound(self.root_entries(), *key),
    {
        match self {
            BigOrderedMap::BPlusTreeMap { root, .. } => match root {
                Node::V1 { children, .. } => match children {
                    OrderedMap::SortedVectorMap { entries } => find_key(entries, key).is_ok(),
                },
            },
        }
    }

    /// Whether the root is a leaf, the two degrees, the number of root
    /// entries and the next fresh slot.
    pub fn tree_info(&self) -> (r: (bool, u16, u16, usize, u64))
        ensures
            r == (
                self.root_node().leaf_flag(),
                self.leaf_degree(),
                self.inner_degree(),
                self.root_entries().len() as usize,
                self.allocator().next_fresh(),
            ),
    {
        match self {
            BigOrderedMap::BPlusTreeMap { root, nodes, leaf_max_degree, inner_max_degree, .. } => {
                match root {
                    Node::V1 { is_leaf, children, .. } => match children {
                        OrderedMap::SortedVectorMap { entries } => match nodes {
                            StorageSlotsAllocator::V1 { new_slot_index, .. } => (
                                *is_leaf,
                                *leaf_max_degree,
                                *inner_max_degree,
                                entries.len(),
                                *new_slot_index,
                            ),
                        },
                    },
                }
            },
        }
    }

    /// The first entry of the root, where it holds a value.
    pub fn borrow_front_leaf(&self) -> (r: Option<(&K, &V)>)
        ensures
            ({
                let es = self.root_entries();
                if es.len() > 0 && es[0].value is Leaf {
                    r matches Some(p) && *p.0 == es[0].key && *p.1 == es[0].value->value
                } else {
                    r is None
                }
            }),
    {
        match self {
            BigOrderedMap::BPlusTreeMap { root, .. } => match root {
                Node::V1 { children, .. } => match children {
                    OrderedMap::SortedVectorMap { entries } => {
                        if entries.len() == 0 {
                            return None;
                        }
                        let e = &entries[0];
                        match &e.value {
                            Child::Leaf { value } => Some((&e.key, value)),
                            Child::Inner { .. } => None,
                        }
                    },
                },
            },
        }
    }

    /// The last entry of the root, where it holds a value.
    pub fn borrow_back_leaf(&self) -> (r: Option<(&K, &V)>)
        ensures
            ({
                let es = self.root_entries();
                if es.len() > 0 && es.last().value is Leaf {
                    r matches Some(p) && *p.0 == es.last().key && *p.1 == es.last().value->value
                } else {
                    r is None
                }
            }),
    {
        match self {
            BigOrderedMap::BPlusTreeMap { root, .. } => match root {
                Node::V1 { children, .. } => match children {
                    OrderedMap::SortedVectorMap { entries } => {
                        if entries.len() == 0 {
                            return None;
                        }
                        let e = &entries[entries.len() - 1];
                        match &e.value {
                            Child::Leaf { value } => Some((&e.key, value)),
                            Child::Inner { .. } => None,
                        }
                    },
                },
            },
        }
    }

    /// Takes the last entry of the root out where it holds a value.
    pub fn pop_back_leaf(&mut self) -> (r: Option<(K, V)>)
        ensures
            final(self).only_root_entries_changed(*old(self)),
            ({
                let es = old(self).root_entries();
                if es.len() > 0 && es.last().value is Leaf {
                    r == Some((es.last().key, es.last().value->value)) && final(self).root_entries()
                        == es.drop_last()
                } else {
                    r is None && final(self).root_entries() == es
                }
            }),
    {
        match self {
            BigOrderedMap::BPlusTreeMap { root, .. } => match root {
                Node::V1 { children, .. } => match children {
                    OrderedMap::SortedVectorMap { entries } => {
                        if entries.len() == 0 {
                            return None;
                        }
                        let last_idx = entries.len() - 1;
                        if let Child::Inner { .. } = &entries[last_idx].value {
                            return None;
                        }
                        let e = entries.remove(last_idx);
                        match e.value {
                            Child::Leaf { value } => Some((e.key, value)),
                            Child::Inner { .. } => {
                                proof {
                                    assert(false);
                                }
                                None
                            },
                        }
                    },
                },
            },
        }
    }

    /// The value of `key` in the root, where its entry holds one.
    pub fn get_leaf(&self, key: &K) -> (r: Option<&V>)
        ensures
            ({
                let es = self.root_entries();
                let p = lower_bound_spec(es, *key);
                if has_key_at_bound(es, *key) && es[p].value is Leaf {
                    r matches Some(v) && *v == es[p].value->value
                } else {
                    r is None
                }
            }),
    {
        match self {
            BigOrderedMap::BPlusTreeMap { root, .. } => match root {
                Node::V1 { children, .. } => match children {
                    OrderedMap::SortedVectorMap { entries } => match find_key(entries, key) {
                        Ok(pos) => match &entries[pos].value {
                            Child::Leaf { value } => Some(value),
                            Child::Inner { .. } => None,
                        },
                        Err(_) => None,
                    },
                },
            },
        }
    }

    /// Whether the root holds any entry that points to a child node.
    pub fn has_inner_children(&self) -> (r: bool)
        ensures
            r == (exists|i: int| 0 <= i < self.root_entries().len() && #[trigger] self.root_entries()[i].value is Inner),
    {
        match self {
            BigOrderedMap::BPlusTreeMap { root, .. } => match root {
                Node::V1 { children, .. } => match children {
                    OrderedMap::SortedVectorMap { entries } => {
                        let mut i: usize = 0;
                        while i < entries.len()
                            invariant
                                i <= entries@.len(),
                                entries@ == self.root_entries(),
                                forall|j: int| 0 <= j < i ==> !(#[trigger] entries@[j].value is Inner),
                            decreases entries@.len() - i,
                        {
                            if let Child::Inner { .. } = &entries[i].value {
                                assert(self.root_entries()[i as int].value is Inner);
                                return true;
                            }
                            i += 1;
                        }
                        false
                    },
                },
            },
        }
    }

    /// The number of root entries that point to child nodes.
    pub fn count_inner_children(&self) -> (r: usize)
        ensures
            r == inner_count(self.root_entries()),
    {
        match self {
            BigOrderedMap::BPlusTreeMap { root, .. } => match root {
                Node::V1 { children, .. } => match children {
                    OrderedMap::SortedVectorMap { entries } => {
                        let mut i: usize = 0;
                        let mut n: usize = 0;
                        while i < entries.len()
                            invariant
                                i <= entries@.len(),
                                entries@ == self.root_entries(),
                                n == inner_count(entries@.take(i as int)),
                                n <= i,
                            decreases entries@.len() - i,
                        {
                            assert(entries@.take(i + 1).drop_last() =~= entries@.take(i as int));
                            if let Child::Inner { .. } = &entries[i].value {
                                n += 1;
                            }
                            i += 1;
                        }
                        assert(entries@.take(i as int) =~= entries@);
                        n
                    },
                },
            },
        }
    }

    /// The handle of the node table, where there is one.
    pub fn get_table_handle(&self) -> (r: Option<&TableHandle>)
        ensures
            self.allocator().table() is None ==> r is None,
            self.allocator().table() matches Some(t) ==> (r matches Some(h) && *h == t.inner),
    {
        match self {
            BigOrderedMap::BPlusTreeMap { nodes, .. } => match nodes {
                StorageSlotsAllocator::V1 { slots, .. } => match slots {
                    Some(twl) => Some(&twl.inner),
                    None => None,
                },
            },
        }
    }
}


impl<K: TreeKey, V> BigOrderedMap<K, V> {
    /// A mutable borrow of the value of `key` in the root, where its entry
    /// holds one.
    pub fn get_leaf_mut(&mut self, key: &K) -> (r: Option<&mut V>)
        ensures
            ({
                let es = old(self).root_entries();
                let p = lower_bound_spec(es, *key);
                has_key_at_bound(es, *key) && es[p].value is Leaf ==> (r matches Some(v) && *v
                    == es[p].value->value)
            }),
            ({
                let es = old(self).root_entries();
                let p = lower_bound_spec(es, *key);
                r matches Some(v) ==> final(self).root_entries() == es.update(
                    p,
                    Entry { key: es[p].key, value: Child::Leaf { value: *final(v) } },
                )
            }),
            r is Some ==> final(self).only_root_entries_changed(*old(self)),
            ({
                let es = old(self).root_entries();
                let p = lower_bound_spec(es, *key);
                !(has_key_at_bound(es, *key) && es[p].value is Leaf) ==> r is None && *final(self)
                    == *old(self)
            }),
    {
        match self {
            BigOrderedMap::BPlusTreeMap { root, .. } => match root {
                Node::V1 { children, .. } => match children {
                    OrderedMap::SortedVectorMap { entries } => match find_key(entries, key) {
                        Ok(pos) => {
                            if let Child::Inner { .. } = &entries[pos].value {
                                return None;
                            }
                            let e = &mut entries[pos];
                            match &mut e.value {
                                Child::Leaf { value } => Some(value),
                                Child::Inner { .. } => None,
                            }
                        },
                        Err(_) => None,
                    },
                },
            },
        }
    }

    /// Applies `f` to the value of the first root entry, where it holds one.
    pub fn modify_front_leaf<F: FnOnce(&mut V)>(&mut self, f: F) -> (r: bool)
        requires
            forall|v: &mut V| f.requires((v,)),
        ensures
            r == (old(self).root_entries().len() > 0 && old(self).root_entries()[0].value is Leaf),
            final(self).only_root_entries_changed(*old(self)),
            final(self).root_entries().len() == old(self).root_entries().len(),
            r ==> final(self).root_entries()[0].key == old(self).root_entries()[0].key
                && final(self).root_entries()[0].value is Leaf,
            forall|i: int|
                0 < i < old(self).root_entries().len() ==> #[trigger] final(self).root_entries()[i]
                    == old(self).root_entries()[i],
            !r ==> final(self).root_entries() == old(self).root_entries(),
    {
        match self {
            BigOrderedMap::BPlusTreeMap { root, .. } => match root {
                Node::V1 { children, .. } => match children {
                    OrderedMap::SortedVectorMap { entries } => {
                        if entries.len() == 0 {
                            return false;
                        }
                        let e = &mut entries[0];
                        match &mut e.value {
                            Child::Leaf { value } => {
                                f(value);
                                true
                            },
                            Child::Inner { .. } => false,
                        }
                    },
                },
            },
        }
    }
}


impl<K: TreeKey, V> BigOrderedMap<K, V> {
    /// Applies `f` to the value of the last root entry, where it holds one.
    pub fn modify_back_leaf<F: FnOnce(&mut V)>(&mut self, f: F) -> (r: bool)
        requires
            forall|v: &mut V| f.requires((v,)),
        ensures
            r == (old(self).root_entries().len() > 0 && old(self).root_entries().last().value is Leaf),
            final(self).only_root_entries_changed(*old(self)),
            final(self).root_entries().len() == old(self).root_entries().len(),
            r ==> final(self).root_entries().last().key == old(self).root_entries().last().key
                && final(self).root_entries().last().value is Leaf,
            forall|i: int|
                0 <= i < old(self).root_entries().len() - 1 ==> #[trigger] final(self).root_entries()[i]
                    == old(self).root_entries()[i],
            !r ==> final(self).root_entries() == old(self).root_entries(),
    {
        match self {
            BigOrderedMap::BPlusTreeMap { root, .. } => match root {
                Node::V1 { children, .. } => match children {
                    OrderedMap::SortedVectorMap { entries } => {
                        if entries.len() == 0 {
                            return false;
                        }
                        let last = entries.len() - 1;
                        let e = &mut entries[last];
                        match &mut e.value {
                            Child::Leaf { value } => {
                                f(value);
                                true
                            },
                            Child::Inner { .. } => false,
                        }
                    },
                },
            },
        }
    }

    /// Gives the map a node table where it has none; a fresh slot counter
    /// at 0 starts at 10. Whether a table was made comes back.
    pub fn init_table_if_needed(&mut self, handle: [u8; 32]) -> (r: bool)
        ensures
            r == (old(self).allocator().table() is None),
            r ==> final(self).allocator().table() == Some(
                TableWithLength { inner: TableHandle { handle }, length: 0 },
            ) && final(self).allocator().next_fresh() == (if old(self).allocator().next_fresh() == 0 {
                10
            } else {
                old(self).allocator().next_fresh()
            }),
            !r ==> *final(self) == *old(self),
            final(self).root_node() == old(self).root_node(),
            final(self).allocator().reuses() == old(self).allocator().reuses(),
            final(self).allocator().reuse_head() == old(self).allocator().reuse_head(),
            final(self).allocator().spare_count() == old(self).allocator().spare_count(),
            final(self).min_leaf() == old(self).min_leaf(),
            final(self).max_leaf() == old(self).max_leaf(),
            final(self).leaf_degree() == old(self).leaf_degree(),
            final(self).inner_degree() == old(self).inner_degree(),
    {
        match self {
            BigOrderedMap::BPlusTreeMap { nodes, .. } => match nodes {
                StorageSlotsAllocator::V1 { slots, new_slot_index, .. } => {
                    if slots.is_some() {
                        return false;
                    }
                    *slots = Some(TableWithLength { inner: TableHandle { handle }, length: 0 });
                    if *new_slot_index == 0 {
                        *new_slot_index = 10;
                    }
                    true
                },
            },
        }
    }
}


/// Slots and their contents, no slot twice: the node table as read from
/// storage, or the slots an operation has written so far.
pub struct SlotStore<K, V> {
    items: Vec<(u64, Link<Node<K, V>>)>,
}

/// The content of slot `idx` in `s`: that of its first item.
pub open spec fn slot_content<K, V>(s: Seq<(u64, Link<Node<K, V>>)>, idx: u64) -> Option<Link<Node<K, V>>>
    decreases s.len(),
{
    if s.len() == 0 {
        None
    } else if s[0].0 == idx {
        Some(s[0].1)
    } else {
        slot_content(s.drop_first(), idx)
    }
}

proof fn lemma_slot_content_skip<K, V>(s: Seq<(u64, Link<Node<K, V>>)>, idx: u64, i: int)
    requires
        0 <= i <= s.len(),
        forall|j: int| 0 <= j < i ==> s[j].0 != idx,
    ensures
        slot_content(s, idx) == slot_content(s.skip(i), idx),
    decreases i,
{
    if i > 0 {
        assert(s.skip(1) =~= s.drop_first());
        assert forall|j: int| 0 <= j < i - 1 implies s.drop_first()[j].0 != idx by {
            assert(s.drop_first()[j] == s[j + 1]);
        }
        lemma_slot_content_skip(s.drop_first(), idx, i - 1);
        assert(s.drop_first().skip(i - 1) =~= s.skip(i));
    } else {
        assert(s.skip(0) =~= s);
    }
}

proof fn lemma_slot_content_update<K, V>(
    s: Seq<(u64, Link<Node<K, V>>)>,
    i: int,
    link: Link<Node<K, V>>,
    other: u64,
)
    requires
        0 <= i < s.len(),
        s[i].0 != other,
    ensures
        slot_content(s.update(i, (s[i].0, link)), other) == slot_content(s, other),
    decreases s.len(),
{
    let u = s.update(i, (s[i].0, link));
    if i > 0 {
        assert(u[0] == s[0]);
        assert(u.drop_first() =~= s.drop_first().update(i - 1, (s[i].0, link)));
        lemma_slot_content_update(s.drop_first(), i - 1, link, other);
    } else {
        assert(u[0].0 == s[0].0);
        assert(u.drop_first() =~= s.drop_first());
    }
}

proof fn lemma_slot_content_push<K, V>(s: Seq<(u64, Link<Node<K, V>>)>, x: (u64, Link<Node<K, V>>), other: u64)
    ensures
        slot_content(s.push(x), other) == match slot_content(s, other) {
            Some(l) => Some(l),
            None => if x.0 == other {
                Some(x.1)
            } else {
                None
            },
        },
    decreases s.len(),
{
    if s.len() > 0 {
        assert(s.push(x)[0] == s[0]);
        assert(s.push(x).drop_first() =~= s.drop_first().push(x));
        lemma_slot_content_push(s.drop_first(), x, other);
    } else {
        assert(s.push(x)[0] == x);
        assert(s.push(x).drop_first() =~= s);
    }
}

/// What slot `idx` holds after `writes` are put in order into a store in
/// which it held `before`: the last write to it, else `before`.
pub open spec fn after_writes<K, V>(
    writes: Seq<TableWrite<K, V>>,
    idx: u64,
    before: Option<Link<Node<K, V>>>,
) -> Option<Link<Node<K, V>>>
    decreases writes.len(),
{
    if writes.len() == 0 {
        before
    } else if writes.last().slot_index == idx {
        Some(writes.last().data)
    } else {
        after_writes(writes.drop_last(), idx, before)
    }
}

impl<K, V> SlotStore<K, V> {
    pub closed spec fn item_seq(self) -> Seq<(u64, Link<Node<K, V>>)> {
        self.items@
    }

    /// What slot `idx` holds.
    pub open spec fn content(self, idx: u64) -> Option<Link<Node<K, V>>> {
        slot_content(self.item_seq(), idx)
    }

    /// An empty store.
    pub fn new() -> (r: Self)
        ensures
            forall|idx: u64| #[trigger] r.content(idx) is None,
            r.item_seq().len() == 0,
    {
        SlotStore { items: Vec::new() }
    }

    /// The number of slots held.
    pub fn len(&self) -> (r: usize)
        ensures
            r == self.item_seq().len(),
    {
        self.items.len()
    }

    fn position(&self, idx: u64) -> (r: Option<usize>)
        ensures
            match r {
                Some(i) => i < self.items@.len() && self.items@[i as int].0 == idx && self.content(idx)
                    == Some(self.items@[i as int].1) && forall|j: int|
                    0 <= j < i ==> #[trigger] self.items@[j].0 != idx,
                None => self.content(idx) is None && forall|j: int|
                    0 <= j < self.items@.len() ==> #[trigger] self.items@[j].0 != idx,
            },
    {
        let mut i: usize = 0;
        while i < self.items.len()
            invariant
                i <= self.items@.len(),
                forall|j: int| 0 <= j < i ==> #[trigger] self.items@[j].0 != idx,
            decreases self.items@.len() - i,
        {
            if self.items[i].0 == idx {
                proof {
                    lemma_slot_content_skip(self.items@, idx, i as int);
                }
                return Some(i);
            }
            i += 1;
        }
        proof {
            lemma_slot_content_skip(self.items@, idx, i as int);
        }
        None
    }

    /// What slot `idx` holds.
    pub fn get(&self, idx: u64) -> (r: Option<&Link<Node<K, V>>>)
        ensures
            match r {
                Some(l) => self.content(idx) == Some(*l),
                None => self.content(idx) is None,
            },
    {
        match self.position(idx) {
            Some(i) => Some(&self.items[i].1),
            None => None,
        }
    }

    /// Puts `link` into slot `idx`, in place of what it held.
    pub fn put(&mut self, idx: u64, link: Link<Node<K, V>>)
        ensures
            final(self).content(idx) == Some(link),
            forall|other: u64| other != idx ==> #[trigger] final(self).content(other) == old(self).content(other),
    {
        match self.position(idx) {
            Some(i) => {
                self.items.set(i, (idx, link));
                proof {
                    assert forall|other: u64| other != idx implies #[trigger] slot_content(self.items@, other)
                        == slot_content(old(self).items@, other) by {
                        assert(self.items@ =~= old(self).items@.update(i as int, (old(self).items@[i as int].0, link)));
                        lemma_slot_content_update(old(self).items@, i as int, link, other);
                    }
                    let s = self.items@;
                    assert forall|j: int| 0 <= j < i implies s[j].0 != idx by {
                        assert(s[j] == old(self).items@[j]);
                    }
                    lemma_slot_content_skip(s, idx, i as int);
                    assert(s.skip(i as int)[0] == s[i as int]);
                }
            },
            None => {
                self.items.push((idx, link));
                proof {
                    assert forall|other: u64| other != idx implies #[trigger] slot_content(self.items@, other)
                        == slot_content(old(self).items@, other) by {
                        lemma_slot_content_push(old(self).items@, (idx, link), other);
                    }
                    let s = self.items@;
                    assert forall|j: int| 0 <= j < old(self).items@.len() implies s[j].0 != idx by {
                        assert(s[j] == old(self).items@[j]);
                    }
                    lemma_slot_content_skip(s, idx, old(self).items@.len() as int);
                    assert(s.skip(old(self).items@.len() as int)[0] == s[old(self).items@.len() as int]);
                }
            },
        }
    }

    /// Empties the store.
    pub fn clear(&mut self)
        ensures
            forall|idx: u64| #[trigger] final(self).content(idx) is None,
            final(self).item_seq().len() == 0,
    {
        self.items = Vec::new();
    }

    /// Puts each write into its slot, in order.
    pub fn apply_writes(&mut self, writes: Vec<TableWrite<K, V>>)
        ensures
            forall|idx: u64| #[trigger] final(self).content(idx) == after_writes(writes@, idx, old(self).content(idx)),
    {
        let ghost all = writes@;
        let ghost start = *self;
        let ghost mut done: int = 0;
        let mut writes = writes;
        while writes.len() > 0
            invariant
                0 <= done <= all.len(),
                writes@ == all.skip(done),
                forall|idx: u64| #[trigger] self.content(idx) == after_writes(all.take(done), idx, start.content(idx)),
            decreases writes@.len(),
        {
            let w = writes.remove(0);
            proof {
                assert(all.skip(done)[0] == all[done]);
                assert(all.take(done + 1).drop_last() =~= all.take(done));
                assert(all.take(done + 1).last() == all[done]);
                assert(all.skip(done).drop_first() =~= all.skip(done + 1));
            }
            self.put(w.slot_index, w.data);
            proof {
                done = done + 1;
            }
        }
        proof {
            assert(all.take(done) =~= all);
        }
    }
}

/// A node's parts: whether it is a leaf, its entries, its neighbours.
pub open spec fn node_view<K, V>(n: Node<K, V>) -> (bool, Seq<Entry<K, Child<V>>>, u64, u64) {
    (n.leaf_flag(), n.entry_seq(), n.prev_link(), n.next_link())
}

fn node_parts<K, V>(n: Node<K, V>) -> (r: (bool, Vec<Entry<K, Child<V>>>, u64, u64))
    ensures
        r.0 == n.leaf_flag(),
        r.1@ == n.entry_seq(),
        r.2 == n.prev_link(),
        r.3 == n.next_link(),
{
    match n {
        Node::V1 { is_leaf, children, prev, next } => match children {
            OrderedMap::SortedVectorMap { entries } => (is_leaf, entries, prev, next),
        },
    }
}

fn make_node<K, V>(is_leaf: bool, entries: Vec<Entry<K, Child<V>>>, prev: u64, next: u64) -> (r: Node<K, V>)
    ensures
        r.leaf_flag() == is_leaf,
        r.entry_seq() == entries@,
        r.prev_link() == prev,
        r.next_link() == next,
{
    Node::V1 { is_leaf, children: OrderedMap::SortedVectorMap { entries }, prev, next }
}

fn node_entry_count<K, V>(n: &Node<K, V>) -> (r: usize)
    ensures
        r == n.entry_seq().len(),
{
    match n {
        Node::V1 { children, .. } => match children {
            OrderedMap::SortedVectorMap { entries } => entries.len(),
        },
    }
}

fn node_is_leaf<K, V>(n: &Node<K, V>) -> (r: bool)
    ensures
        r == n.leaf_flag(),
{
    match n {
        Node::V1 { is_leaf, .. } => *is_leaf,
    }
}

fn node_entry_at<K: Copy, V: Copy>(n: &Node<K, V>, i: usize) -> (r: Entry<K, Child<V>>)
    requires
        i < n.entry_seq().len(),
    ensures
        r == n.entry_seq()[i as int],
{
    match n {
        Node::V1 { children, .. } => match children {
            OrderedMap::SortedVectorMap { entries } => entries[i],
        },
    }
}

fn copy_entries<K: Copy, V: Copy>(entries: &Vec<Entry<K, Child<V>>>) -> (r: Vec<Entry<K, Child<V>>>)
    ensures
        r@ == entries@,
{
    let mut out: Vec<Entry<K, Child<V>>> = Vec::new();
    let mut i: usize = 0;
    while i < entries.len()
        invariant
            i <= entries@.len(),
            out@ == entries@.take(i as int),
        decreases entries@.len() - i,
    {
        out.push(entries[i]);
        i += 1;
        assert(out@ =~= entries@.take(i as int));
    }
    assert(entries@.take(i as int) =~= entries@);
    out
}

fn copy_node<K: Copy, V: Copy>(n: &Node<K, V>) -> (r: Node<K, V>)
    ensures
        node_view(r) == node_view(*n),
{
    match n {
        Node::V1 { is_leaf, children, prev, next } => match children {
            OrderedMap::SortedVectorMap { entries } => make_node(*is_leaf, copy_entries(entries), *prev, *next),
        },
    }
}

fn with_next<K, V>(n: Node<K, V>, next: u64) -> (r: Node<K, V>)
    ensures
        r.leaf_flag() == n.leaf_flag(),
        r.entry_seq() == n.entry_seq(),
        r.prev_link() == n.prev_link(),
        r.next_link() == next,
{
    let (is_leaf, entries, prev, _) = node_parts(n);
    make_node(is_leaf, entries, prev, next)
}

/// The degrees that a map with zero degrees takes on from the serialized
/// sizes of its first key and value: a target node of 4096 bytes, bounded
/// by the largest node (400 KiB over 5 KiB entries, halved for leaves) and
/// by 4096, and at least 4 for inner nodes and 3 for leaves.
pub open spec fn degrees_from_sizes(key_size: u64, value_size: u64) -> (int, int) {
    let entry_size = key_size + value_size;
    let inner_default = if 4096 < 409600int / 5120 { 4096 } else { 409600int / 5120 };
    let inner_target = 4096int / (if key_size > 1 { key_size as int } else { 1 });
    let inner_from = if inner_default < inner_target { inner_default } else { inner_target };
    let leaf_default = if 4096 < 409600int / 5120 / 2 { 4096 } else { 409600int / 5120 / 2 };
    let leaf_target = 4096int / (if entry_size > 1 { entry_size } else { 1 });
    let leaf_from = if leaf_default < leaf_target { leaf_default } else { leaf_target };
    (if inner_from > 4 { inner_from } else { 4 }, if leaf_from > 3 { leaf_from } else { 3 })
}

impl<K: TreeKey, V: Copy> BigOrderedMap<K, V> {
    /// Sets a zero degree from the serialized sizes of the first key and
    /// value; degrees already set stay.
    pub fn init_degrees_if_needed(&mut self, key_size: u64, value_size: u64)
        requires
            key_size + value_size <= u64::MAX,
        ensures
            final(self).root_node() == old(self).root_node(),
            final(self).allocator() == old(self).allocator(),
            final(self).min_leaf() == old(self).min_leaf(),
            final(self).max_leaf() == old(self).max_leaf(),
            final(self).inner_degree() == (if old(self).leaf_degree() != 0 && old(self).inner_degree()
                != 0 || old(self).inner_degree() != 0 {
                old(self).inner_degree() as int
            } else {
                degrees_from_sizes(key_size, value_size).0
            }),
            final(self).leaf_degree() == (if old(self).leaf_degree() != 0 {
                old(self).leaf_degree() as int
            } else {
                degrees_from_sizes(key_size, value_size).1
            }),
    {
        match self {
            BigOrderedMap::BPlusTreeMap { leaf_max_degree, inner_max_degree, .. } => {
                if *leaf_max_degree != 0 && *inner_max_degree != 0 {
                    return ;
                }
                let entry_size = key_size + value_size;
                if *inner_max_degree == 0 {
                    let default_max: u64 = if 4096 < 409600u64 / 5120 { 4096 } else { 409600u64 / 5120 };
                    let divisor: u64 = if key_size > 1 { key_size } else { 1 };
                    let target: u64 = 4096u64 / divisor;
                    let from_target = if default_max < target { default_max } else { target };
                    *inner_max_degree = if from_target > 4 { from_target as u16 } else { 4 };
                }
                if *leaf_max_degree == 0 {
                    let default_max: u64 = if 4096 < 409600u64 / 5120 / 2 { 4096 } else { 409600u64 / 5120 / 2 };
                    let divisor: u64 = if entry_size > 1 { entry_size } else { 1 };
                    let target: u64 = 4096u64 / divisor;
                    let from_target = if default_max < target { default_max } else { target };
                    *leaf_max_degree = if from_target > 3 { from_target as u16 } else { 3 };
                }
            },
        }
    }
}


/// `s` with `key` mapped to `c`: the entry of `key` replaced where it
/// stands at its lower bound, else a new entry put there.
pub open spec fn upsert_entries<K: TreeKey, C>(s: Seq<Entry<K, C>>, key: K, c: C) -> Seq<Entry<K, C>> {
    let p = lower_bound_spec(s, key);
    if has_key_at_bound(s, key) {
        s.update(p, Entry { key, value: c })
    } else {
        s.insert(p, Entry { key, value: c })
    }
}

/// No entry of `s` has a key below that of an entry before it.
pub open spec fn keys_nondecreasing<K: TreeKey, C>(s: Seq<Entry<K, C>>) -> bool {
    forall|a: int, b: int| 0 <= a < b < s.len() ==> !(#[trigger] s[b]).key.key_lt((#[trigger] s[a]).key)
}

proof fn lemma_swap_to_multiset<A>(s: Seq<A>, i: int, j: int)
    requires
        0 <= i < s.len(),
        0 <= j < s.len(),
    ensures
        s.update(i, s[j]).update(j, s[i]).to_multiset() == s.to_multiset(),
{
    broadcast use vstd::seq_lib::to_multiset_update;
    broadcast use vstd::seq_lib::to_multiset_contains;
    broadcast use vstd::multiset::group_multiset_axioms;

    let a = s[i];
    let b = s[j];
    let s1 = s.update(i, b);
    if i == j {
        assert(s1.update(j, a) =~= s);
    } else {
        assert(s.contains(a));
        assert(s.to_multiset().count(a) > 0);
        assert(s1.to_multiset() == s.to_multiset().insert(b).remove(a));
        assert(s1[j] == b);
        assert(s1.update(j, a).to_multiset() == s1.to_multiset().insert(a).remove(b));
        assert(s1.update(j, a).to_multiset() =~= s.to_multiset());
    }
}

/// Sorts the entries by key, keeping the order of equal keys.
fn sort_entries_by_key<K: TreeKey, V: Copy>(entries: &mut Vec<Entry<K, Child<V>>>)
    ensures
        final(entries)@.len() == old(entries)@.len(),
        final(entries)@.to_multiset() == old(entries)@.to_multiset(),
        keys_nondecreasing(final(entries)@),
        sorted_keys(old(entries)@) ==> final(entries)@ == old(entries)@,
{
    let ghost orig = entries@;
    let n = entries.len();
    let mut i: usize = 1;
    while i < n
        invariant
            entries@.len() == n,
            orig.len() == n,
            entries@.to_multiset() == orig.to_multiset(),
            1 <= i,
            n == 0 || i <= n,
            forall|a: int, b: int|
                0 <= a < b < i && b < n ==> !(#[trigger] entries@[b]).key.key_lt((#[trigger] entries@[a]).key),
            sorted_keys(orig) ==> entries@ == orig,
        decreases n - i,
    {
        let mut j = i;
        while j > 0
            invariant
                entries@.len() == n,
                orig.len() == n,
                entries@.to_multiset() == orig.to_multiset(),
                j <= i < n,
                forall|a: int, b: int|
                    0 <= a < b <= i && a != j && b != j ==> !(#[trigger] entries@[b]).key.key_lt(
                        (#[trigger] entries@[a]).key,
                    ),
                forall|b: int| j < b <= i ==> entries@[j as int].key.key_lt((#[trigger] entries@[b]).key),
                sorted_keys(orig) ==> entries@ == orig && j == i,
            ensures
                j == 0 || !entries@[j as int].key.key_lt(entries@[j - 1].key),
            decreases j,
        {
            let a = entries[j - 1];
            let b = entries[j];
            proof {
                if sorted_keys(orig) {
                    assert(orig[j - 1].key.key_lt(orig[j as int].key));
                    if b.key.key_lt(a.key) {
                        K::lemma_key_lt_transitive(a.key, b.key, a.key);
                        K::lemma_key_lt_irreflexive(a.key);
                    }
                }
            }
            if !key_less(&b.key, &a.key) {
                break;
            }
            let ghost e0 = entries@;
            entries.set(j - 1, b);
            entries.set(j, a);
            proof {
                lemma_swap_to_multiset(e0, j - 1, j as int);
                assert(entries@ == e0.update(j - 1, e0[j as int]).update(j as int, e0[j - 1]));
                let e = entries@;
                let jj = j - 1;
                assert forall|x: int, y: int|
                    0 <= x < y <= i && x != jj && y != jj implies !(#[trigger] e[y]).key.key_lt(
                        (#[trigger] e[x]).key,
                    ) by {
                    if y == j {
                        assert(e[y] == e0[jj]);
                        assert(e[x] == e0[x]);
                    } else if x == j {
                        assert(e[x] == e0[jj]);
                        assert(e[y] == e0[y]);
                    } else {
                        assert(e[x] == e0[x] && e[y] == e0[y]);
                    }
                }
                assert forall|y: int| jj < y <= i implies e[jj].key.key_lt((#[trigger] e[y]).key) by {
                    if y > j {
                        assert(e[y] == e0[y]);
                    }
                }
            }
            j -= 1;
        }
        proof {
            let e = entries@;
            assert forall|x: int, y: int| 0 <= x < y < i + 1 && y < n implies !(#[trigger] e[y]).key.key_lt(
                (#[trigger] e[x]).key,
            ) by {
                if x == j {
                    if e[y].key.key_lt(e[x].key) {
                        assert(e[x].key.key_lt(e[y].key));
                        K::lemma_key_lt_transitive(e[x].key, e[y].key, e[x].key);
                        K::lemma_key_lt_irreflexive(e[x].key);
                    }
                } else if y == j {
                    if x < j - 1 {
                        assert(!e[j - 1].key.key_lt(e[x].key));
                        K::lemma_key_lt_total(e[j - 1].key, e[x].key);
                        if e[y].key.key_lt(e[x].key) {
                            if e[x].key.key_lt(e[j - 1].key) {
                                K::lemma_key_lt_transitive(e[y].key, e[x].key, e[j - 1].key);
                            }
                        }
                    }
                }
            }
        }
        i += 1;
    }
}

impl<K, V> BigOrderedMap<K, V> {
    /// Everything but the slots written during the operation is the same.
    pub open spec fn same_shape(self, other: Self) -> bool {
        &&& self.root_node() == other.root_node()
        &&& self.allocator() == other.allocator()
        &&& self.min_leaf() == other.min_leaf()
        &&& self.max_leaf() == other.max_leaf()
        &&& self.leaf_degree() == other.leaf_degree()
        &&& self.inner_degree() == other.inner_degree()
    }

    /// The node in slot `idx` as the operation under way sees it: the root
    /// for slot 1, else a slot written during the operation, else storage.
    pub open spec fn node_at(self, store: SlotStore<K, V>, idx: u64) -> Option<Node<K, V>> {
        if idx == 1 {
            Some(self.root_node())
        } else {
            match self.cache().content(idx) {
                Some(Link::Occupied { value }) => Some(value),
                Some(Link::Vacant { .. }) => None,
                None => match store.content(idx) {
                    Some(Link::Occupied { value }) => Some(value),
                    _ => None,
                },
            }
        }
    }
}

/// The entry that the search for `key` follows in an inner node: the
/// first whose key is not below `key`, or the last.
pub open spec fn descend_index<K: TreeKey, C>(es: Seq<Entry<K, C>>, key: K) -> int {
    let p = lower_bound_spec(es, key);
    if p >= es.len() {
        es.len() - 1
    } else {
        p
    }
}

impl<K: TreeKey, V> BigOrderedMap<K, V> {
    /// The slots that the search for `key` visits from slot `current` on,
    /// taking at most `fuel` slots: it stops at a leaf, at an empty node or
    /// at an entry that holds a value. None where a slot cannot be read or
    /// the fuel runs out.
    pub open spec fn search_path(self, store: SlotStore<K, V>, key: K, current: u64, fuel: nat) -> Option<
        Seq<u64>,
    >
        decreases fuel,
    {
        if fuel == 0 {
            None
        } else {
            match self.node_at(store, current) {
                None => None,
                Some(n) => if n.leaf_flag() || n.entry_seq().len() == 0 {
                    Some(seq![current])
                } else {
                    match n.entry_seq()[descend_index(n.entry_seq(), key)].value {
                        Child::Inner { node_index } => match self.search_path(
                            store,
                            key,
                            node_index.slot_index,
                            (fuel - 1) as nat,
                        ) {
                            Some(p) => Some(seq![current] + p),
                            None => None,
                        },
                        Child::Leaf { .. } => Some(seq![current]),
                    }
                },
            }
        }
    }

    /// The search for `key` from the root, as the tree operations make it:
    /// at most twenty slots deep.
    pub open spec fn key_search(self, store: SlotStore<K, V>, key: K) -> Option<Seq<u64>> {
        self.search_path(store, key, 1, 20)
    }

    /// The map that the tree and the slots of `store` hold as reads see it:
    /// each key whose search ends at a node with a value for it, mapped to
    /// that value.
    pub open spec fn map_view(self, store: SlotStore<K, V>) -> Map<K, V> {
        Map::new(
            |k: K|
                self.search_end(store, k) is Some && value_at_bound(
                    self.search_end(store, k).unwrap().entry_seq(),
                    k,
                ) is Some,
            |k: K| value_at_bound(self.search_end(store, k).unwrap().entry_seq(), k).unwrap(),
        )
    }

    /// The node where the search for `key` ends.
    pub open spec fn search_end(self, store: SlotStore<K, V>, key: K) -> Option<Node<K, V>> {
        match self.key_search(store, key) {
            Some(p) => self.node_at(store, p.last()),
            None => None,
        }
    }

    /// No slot writes of an operation are left over: the map as it is
    /// between operations.
    pub open spec fn at_rest(self) -> bool {
        forall|idx: u64| #[trigger] self.cache().content(idx) is None
    }

    /// Whether adding `key` changes only the leaf that the search for it
    /// reaches: that leaf is not the root, and it either holds `key`
    /// already, or has room and holds no key below which `key` would
    /// become its new largest.
    pub open spec fn in_place_add(self, store: SlotStore<K, V>, key: K) -> bool {
        let es = self.search_end(store, key).unwrap().entry_seq();
        &&& self.key_search(store, key) is Some
        &&& self.key_search(store, key).unwrap().last() != 1
        &&& self.search_end(store, key) is Some
        &&& self.search_end(store, key).unwrap().leaf_flag()
        &&& ((sorted_keys(es) && has_key_at_bound(es, key)) || (es.len() < self.leaf_degree() && (es.len()
            == 0 || !es.last().key.key_lt(key))))
    }

    /// What an in-place add of `key` and `value` leaves: one write, of the
    /// reached leaf with the entry put in, and the map itself unchanged and
    /// at rest.
    pub open spec fn in_place_add_result(
        self,
        store: SlotStore<K, V>,
        key: K,
        value: V,
        after: Self,
        writes: Seq<TableWrite<K, V>>,
    ) -> bool {
        let n = self.search_end(store, key).unwrap();
        &&& writes.len() == 1
        &&& writes[0].slot_index == self.key_search(store, key).unwrap().last()
        &&& !writes[0].is_new
        &&& writes[0].data matches Link::Occupied { value: nd } && node_view(nd) == (
            true,
            upsert_entries(n.entry_seq(), key, Child::Leaf { value }),
            n.prev_link(),
            n.next_link(),
        )
        &&& after.same_shape(self)
        &&& after.at_rest()
    }

    /// Whether removing `key` changes only the leaf that the search for it
    /// reaches: that leaf is not the root, holds `key` with a value but not
    /// as its largest key, and keeps at least half its degree.
    pub open spec fn in_place_remove(self, store: SlotStore<K, V>, key: K) -> bool {
        let n = self.search_end(store, key).unwrap();
        let es = n.entry_seq();
        let p = lower_bound_spec(es, key);
        &&& self.key_search(store, key) is Some
        &&& self.key_search(store, key).unwrap().last() != 1
        &&& self.search_end(store, key) is Some
        &&& n.leaf_flag()
        &&& has_key_at_bound(es, key)
        &&& es[p].value is Leaf
        &&& p != es.len() - 1
        &&& es.len() - 1 >= (self.leaf_degree() + 1) / 2
    }

    /// What an in-place removal of `key` leaves: the value it held, one
    /// write of the reached leaf without the entry, and the map itself
    /// unchanged and at rest.
    pub open spec fn in_place_remove_result(
        self,
        store: SlotStore<K, V>,
        key: K,
        removed: Option<V>,
        after: Self,
        writes: Seq<TableWrite<K, V>>,
    ) -> bool {
        let n = self.search_end(store, key).unwrap();
        let es = n.entry_seq();
        let p = lower_bound_spec(es, key);
        &&& removed == Some(es[p].value->value)
        &&& writes.len() == 1
        &&& writes[0].slot_index == self.key_search(store, key).unwrap().last()
        &&& !writes[0].is_new
        &&& writes[0].data matches Link::Occupied { value: nd } && node_view(nd) == (
            true,
            es.remove(p),
            n.prev_link(),
            n.next_link(),
        )
        &&& after.same_shape(self)
        &&& after.at_rest()
    }

    /// Whether adding `key` splits the root: the root is a full leaf
    /// without `key`, and the two slots it splits into are fresh.
    pub open spec fn root_split_add(self, key: K) -> bool {
        &&& self.root_node().leaf_flag()
        &&& self.root_entries().len() >= self.leaf_degree() >= 1
        &&& !has_key_at_bound(self.root_entries(), key)
        &&& self.allocator().hands_out_fresh(2)
    }

    /// The root's entries with `key` put in at its place.
    pub open spec fn grown_root(self, key: K, c: Child<V>) -> Seq<Entry<K, Child<V>>> {
        self.root_entries().insert(lower_bound_spec(self.root_entries(), key), Entry { key, value: c })
    }

    /// What a root split leaves: the grown entries in two new leaves, the
    /// first half in the second fresh slot and the rest in the first, and
    /// a root over the two keyed by their largest keys.
    pub open spec fn root_split_result(
        self,
        key: K,
        c: Child<V>,
        after: Self,
        writes: Seq<TableWrite<K, V>>,
    ) -> bool {
        let es = self.root_entries();
        let g = self.grown_root(key, c);
        let t = (self.leaf_degree() + 1) / 2;
        let right = self.allocator().next_fresh();
        let left = (right + 1) as u64;
        let top = if es.len() > 0 && !es.last().key.key_lt(key) {
            es.last().key
        } else {
            key
        };
        &&& writes.len() == 2
        &&& writes[0].slot_index == left && writes[0].is_new
        &&& writes[0].data matches Link::Occupied { value: a } && node_view(a) == (true, g.take(t), 0u64, right)
        &&& writes[1].slot_index == right && writes[1].is_new
        &&& writes[1].data matches Link::Occupied { value: b } && node_view(b) == (true, g.skip(t), left, 0u64)
        &&& node_view(after.root_node()) == (
            false,
            seq![
                Entry::<K, Child<V>> {
                    key: g[t - 1].key,
                    value: Child::Inner { node_index: StoredSlot { slot_index: left } },
                },
                Entry::<K, Child<V>> {
                    key: top,
                    value: Child::Inner { node_index: StoredSlot { slot_index: right } },
                },
            ],
            0u64,
            0u64,
        )
        &&& after.allocator().next_fresh() == right + 2
        &&& after.min_leaf() == left
        &&& after.max_leaf() == right
        &&& after.leaf_degree() == self.leaf_degree()
        &&& after.inner_degree() == self.inner_degree()
    }

    /// Whether adding `key` at the end of path `p` splits a leaf that is
    /// not the root into a fresh left slot, the parent taking the new
    /// child with room to spare.
    pub open spec fn leaf_split_at(self, store: SlotStore<K, V>, p: Seq<u64>, key: K) -> bool {
        let ni = p.last();
        let n = self.node_at(store, ni).unwrap();
        let es = n.entry_seq();
        let t = (self.leaf_degree() + 1) / 2;
        let pi = p[p.len() - 2];
        let pn = self.node_at(store, pi).unwrap();
        let prev = n.prev_link();
        &&& p.len() >= 2 && ni != 1
        &&& !self.root_node().leaf_flag()
        &&& self.node_at(store, ni) is Some && n.leaf_flag()
        &&& es.len() >= self.leaf_degree() >= 1
        &&& !has_key_at_bound(es, key)
        &&& self.allocator().hands_out_fresh(1)
        &&& prev == 0 || (self.node_at(store, prev) is Some && self.node_at(store, prev).unwrap().leaf_flag())
        &&& self.node_at(store, pi) is Some && !pn.leaf_flag()
        &&& sorted_keys(renamed_child_entries(pn.entry_seq(), ni, grown_key_at(es, key, es.len() as int)))
        &&& split_parent_entries(
            pn.entry_seq(),
            ni,
            grown_key_at(es, key, es.len() as int),
            self.allocator().next_fresh(),
            grown_key_at(es, key, t - 1),
        ).len() <= self.inner_degree()
    }

    /// Whether adding `key` at the end of path `p` splits a leaf right
    /// under a full root, the root splitting in turn under a new root: the
    /// three slots that takes are fresh.
    pub open spec fn leaf_split_root_full_at(self, store: SlotStore<K, V>, p: Seq<u64>, key: K) -> bool {
        let ni = p.last();
        let n = self.node_at(store, ni).unwrap();
        let es = n.entry_seq();
        let t = (self.leaf_degree() + 1) / 2;
        let pn = self.root_node();
        let prev = n.prev_link();
        &&& p.len() == 2 && p[0] == 1 && ni != 1
        &&& !self.root_node().leaf_flag()
        &&& self.node_at(store, ni) is Some && n.leaf_flag()
        &&& es.len() >= self.leaf_degree() >= 1
        &&& !has_key_at_bound(es, key)
        &&& self.allocator().hands_out_fresh(3)
        &&& prev == 0 || (self.node_at(store, prev) is Some && self.node_at(store, prev).unwrap().leaf_flag())
        &&& sorted_keys(renamed_child_entries(pn.entry_seq(), ni, grown_key_at(es, key, es.len() as int)))
        &&& split_parent_entries(
            pn.entry_seq(),
            ni,
            grown_key_at(es, key, es.len() as int),
            self.allocator().next_fresh(),
            grown_key_at(es, key, t - 1),
        ).len() > self.inner_degree() >= 1
    }

    /// What that leaves: the leaf split as under a parent with room, the
    /// grown root entries split in half into two new inner nodes, and a new
    /// root over the two.
    pub open spec fn leaf_split_root_full_result_at(
        self,
        store: SlotStore<K, V>,
        p: Seq<u64>,
        key: K,
        c: Child<V>,
        after: Self,
        writes: Seq<TableWrite<K, V>>,
    ) -> bool {
        let ni = p.last();
        let n = self.node_at(store, ni).unwrap();
        let es = n.entry_seq();
        let g = es.insert(lower_bound_spec(es, key), Entry { key, value: c });
        let t = (self.leaf_degree() + 1) / 2;
        let prev = n.prev_link();
        let pv = self.node_at(store, prev).unwrap();
        let nf = self.allocator().next_fresh();
        let np = split_parent_entries(
            self.root_node().entry_seq(),
            ni,
            grown_key_at(es, key, es.len() as int),
            nf,
            grown_key_at(es, key, t - 1),
        );
        let t2 = (self.inner_degree() + 1) / 2;
        let off: int = if prev != 0 {
            1
        } else {
            0
        };
        &&& writes.len() == off + 4
        &&& prev != 0 ==> Self::writes_node(writes[0], prev, false, (pv.leaf_flag(), pv.entry_seq(), pv.prev_link(), nf))
        &&& Self::writes_node(writes[off], nf, true, (true, g.take(t), prev, ni))
        &&& Self::writes_node(writes[off + 1], ni, false, (true, g.skip(t), nf, n.next_link()))
        &&& Self::writes_node(writes[off + 2], (nf + 2) as u64, true, (false, np.take(t2), 0u64, (nf + 1) as u64))
        &&& Self::writes_node(writes[off + 3], (nf + 1) as u64, true, (false, np.skip(t2), (nf + 2) as u64, 0u64))
        &&& node_view(after.root_node()) == (
            false,
            seq![
                Entry::<K, Child<V>> {
                    key: np[t2 - 1].key,
                    value: Child::Inner { node_index: StoredSlot { slot_index: (nf + 2) as u64 } },
                },
                Entry::<K, Child<V>> {
                    key: np.last().key,
                    value: Child::Inner { node_index: StoredSlot { slot_index: (nf + 1) as u64 } },
                },
            ],
            0u64,
            0u64,
        )
        &&& after.allocator().next_fresh() == nf + 3
        &&& after.leaf_degree() == self.leaf_degree()
        &&& after.inner_degree() == self.inner_degree()
    }

    /// Whether `w` writes into slot `slot` a node of the given parts.
    pub open spec fn writes_node(w: TableWrite<K, V>, slot: u64, is_new: bool, view: (bool, Seq<Entry<K, Child<V>>>, u64, u64)) -> bool {
        &&& w.slot_index == slot
        &&& w.is_new == is_new
        &&& w.data matches Link::Occupied { value: nd } && node_view(nd) == view
    }

    /// The two writes that open a borrow: the node with the neighbour's
    /// nearest entry put in on that side, then the neighbour without it.
    pub open spec fn borrow_writes(
        nv: (bool, Seq<Entry<K, Child<V>>>, u64, u64),
        node_index: u64,
        sibling: Node<K, V>,
        sibling_index: u64,
        is_rightmost: bool,
        w: Seq<TableWrite<K, V>>,
    ) -> bool {
        let ne = nv.1;
        let se = sibling.entry_seq();
        &&& w.len() >= 2
        &&& !is_rightmost ==> Self::writes_node(
            w[0],
            node_index,
            false,
            (nv.0, ne.push(se[0]), nv.2, nv.3),
        ) && Self::writes_node(
            w[1],
            sibling_index,
            false,
            (sibling.leaf_flag(), se.drop_first(), sibling.prev_link(), sibling.next_link()),
        )
        &&& is_rightmost ==> Self::writes_node(
            w[0],
            node_index,
            false,
            (nv.0, seq![se.last()] + ne, nv.2, nv.3),
        ) && Self::writes_node(
            w[1],
            sibling_index,
            false,
            (sibling.leaf_flag(), se.drop_last(), sibling.prev_link(), sibling.next_link()),
        )
    }

    /// Where a merge puts the merged node: the slot it keeps (that of the
    /// one with the larger keys), the place of that write among the merge's
    /// writes (after those of the neighbouring links), and the merged node.
    pub open spec fn merge_target(
        nv: (bool, Seq<Entry<K, Child<V>>>, u64, u64),
        node_index: u64,
        sibling: Node<K, V>,
        sibling_index: u64,
        is_rightmost: bool,
    ) -> (u64, int, (bool, Seq<Entry<K, Child<V>>>, u64, u64)) {
        if !is_rightmost {
            let sn = sibling.next_link();
            let np = nv.2;
            (
                sibling_index,
                (if sn != 0 {
                    1int
                } else {
                    0int
                }) + (if np != 0 {
                    1int
                } else {
                    0int
                }),
                (nv.0, nv.1 + sibling.entry_seq(), np, sn),
            )
        } else {
            let sp = sibling.prev_link();
            (
                node_index,
                if sp != 0 {
                    1int
                } else {
                    0int
                },
                (sibling.leaf_flag(), sibling.entry_seq() + nv.1, sp, nv.3),
            )
        }
    }

    /// Whether a merge of a node with its neighbour under the root goes
    /// through: both are other slots than the root and each other, the
    /// links of the merged pair read back, the root holds the smaller one's
    /// key with a child, and what is left of the root is more than its one
    /// remaining child or that child is the merged node; and reuse, where
    /// on, has room for the slots freed.
    pub open spec fn merge_goes_through(
        self,
        store: SlotStore<K, V>,
        path: Seq<u64>,
        nv: (bool, Seq<Entry<K, Child<V>>>, u64, u64),
        node_index: u64,
        sibling: Node<K, V>,
        sibling_index: u64,
        is_rightmost: bool,
    ) -> bool {
        let rs = self.root_node().entry_seq();
        let kr = if is_rightmost {
            sibling.entry_seq().last().key
        } else {
            nv.1.last().key
        };
        let t = Self::merge_target(nv, node_index, sibling, sibling_index, is_rightmost);
        let pos = lower_bound_spec(rs, kr);
        let rest = rs.remove(pos);
        let sn = sibling.next_link();
        let np = nv.2;
        let nn = nv.3;
        let sp = sibling.prev_link();
        let al = self.allocator();
        &&& path.len() == 2 && path[0] == 1
        &&& node_index != 1 && sibling_index != 1 && node_index != sibling_index
        &&& np != 1 && nn != 1 && sp != 1 && sn != 1
        &&& is_rightmost ==> {
            &&& sibling.entry_seq().len() > 0
            &&& nn != 0 ==> (self.node_at(store, nn) matches Some(x) && x.prev_link() == node_index)
            &&& sp != 0 ==> self.node_at(store, sp) is Some
        }
        &&& !is_rightmost ==> {
            &&& nv.1.len() > 0
            &&& sn != 0 ==> (self.node_at(store, sn) matches Some(x) && x.prev_link() == sibling_index)
            &&& np != 0 ==> self.node_at(store, np) is Some
        }
        &&& !self.root_node().leaf_flag()
        &&& has_key_at_bound(rs, kr) && rs[pos].value is Inner
        &&& rest.len() != 1 || points_to(rest[0].value, t.0)
        &&& !al.reuses() || al.spare_count() < u32::MAX - 2
    }

    /// What such a merge leaves: the merged node written in the slot kept,
    /// after the links' writes, and the root without the smaller one's
    /// entry, or the merged node itself where only it was left.
    pub open spec fn merge_result(
        self,
        nv: (bool, Seq<Entry<K, Child<V>>>, u64, u64),
        node_index: u64,
        sibling: Node<K, V>,
        sibling_index: u64,
        is_rightmost: bool,
        after: Self,
        w: Seq<TableWrite<K, V>>,
    ) -> bool {
        let rs = self.root_node().entry_seq();
        let kr = if is_rightmost {
            sibling.entry_seq().last().key
        } else {
            nv.1.last().key
        };
        let t = Self::merge_target(nv, node_index, sibling, sibling_index, is_rightmost);
        let rest = rs.remove(lower_bound_spec(rs, kr));
        &&& w.len() > t.1 && Self::writes_node(w[t.1], t.0, false, t.2)
        &&& rest.len() != 1 ==> node_view(after.root_node()) == (
            false,
            rest,
            self.root_node().prev_link(),
            self.root_node().next_link(),
        )
        &&& rest.len() == 1 ==> node_view(after.root_node()) == t.2
    }

    /// All the writes of a merge of a node with its next neighbour, where
    /// freed slots are not reused and the root keeps more than one child:
    /// the neighbour's next node as it was, the node's previous one linked
    /// to the neighbour, then the merged node in the neighbour's slot.
    pub open spec fn merge_next_writes(
        self,
        store: SlotStore<K, V>,
        nv: (bool, Seq<Entry<K, Child<V>>>, u64, u64),
        sibling: Node<K, V>,
        sibling_index: u64,
        w: Seq<TableWrite<K, V>>,
    ) -> bool {
        let sn = sibling.next_link();
        let np = nv.2;
        let k = (if sn != 0 {
            1int
        } else {
            0int
        }) + (if np != 0 {
            1int
        } else {
            0int
        });
        &&& w.len() == k + 1
        &&& sn != 0 ==> Self::writes_node(w[0], sn, false, node_view(self.node_at(store, sn).unwrap()))
        &&& np != 0 ==> (self.node_at(store, np) matches Some(x) && Self::writes_node(
            w[k - 1],
            np,
            false,
            (x.leaf_flag(), x.entry_seq(), x.prev_link(), sibling_index),
        ))
        &&& Self::writes_node(w[k], sibling_index, false, (nv.0, nv.1 + sibling.entry_seq(), np, sn))
    }

    /// Whether a merge goes through with its next neighbour, freed slots not
    /// reused and the root keeping more than one child.
    pub open spec fn merge_next_plain(
        self,
        store: SlotStore<K, V>,
        path: Seq<u64>,
        nv: (bool, Seq<Entry<K, Child<V>>>, u64, u64),
        node_index: u64,
        sibling: Node<K, V>,
        sibling_index: u64,
    ) -> bool {
        let rs = self.root_node().entry_seq();
        &&& self.merge_goes_through(store, path, nv, node_index, sibling, sibling_index, false)
        &&& !self.allocator().reuses()
        &&& rs.remove(lower_bound_spec(rs, nv.1.last().key)).len() != 1
    }

    /// All the writes of a merge of a node, its parent's last child, with
    /// its previous neighbour, where freed slots are not reused and the root
    /// keeps more than one child: the neighbour's previous node linked to
    /// the node, then the merged node in the node's slot.
    pub open spec fn merge_prev_writes(
        self,
        store: SlotStore<K, V>,
        nv: (bool, Seq<Entry<K, Child<V>>>, u64, u64),
        node_index: u64,
        sibling: Node<K, V>,
        w: Seq<TableWrite<K, V>>,
    ) -> bool {
        let sp = sibling.prev_link();
        let k = if sp != 0 {
            1int
        } else {
            0int
        };
        &&& w.len() == k + 1
        &&& sp != 0 ==> (self.node_at(store, sp) matches Some(x) && Self::writes_node(
            w[0],
            sp,
            false,
            (x.leaf_flag(), x.entry_seq(), x.prev_link(), node_index),
        ))
        &&& Self::writes_node(w[k], node_index, false, (sibling.leaf_flag(), sibling.entry_seq() + nv.1, sp, nv.3))
    }

    /// Whether a merge goes through with the previous neighbour, freed
    /// slots not reused and the root keeping more than one child.
    pub open spec fn merge_prev_plain(
        self,
        store: SlotStore<K, V>,
        path: Seq<u64>,
        nv: (bool, Seq<Entry<K, Child<V>>>, u64, u64),
        node_index: u64,
        sibling: Node<K, V>,
        sibling_index: u64,
    ) -> bool {
        let rs = self.root_node().entry_seq();
        &&& self.merge_goes_through(store, path, nv, node_index, sibling, sibling_index, true)
        &&& !self.allocator().reuses()
        &&& rs.remove(lower_bound_spec(rs, sibling.entry_seq().last().key)).len() != 1
    }

    /// The parent key that a borrow renames, and its new name: the node's
    /// old largest key and the borrowed key where the neighbour comes next;
    /// the neighbour's old and new largest keys where it comes before.
    pub open spec fn borrow_rename(
        nv: (bool, Seq<Entry<K, Child<V>>>, u64, u64),
        sibling: Node<K, V>,
        is_rightmost: bool,
    ) -> (K, K) {
        let ne = nv.1;
        let se = sibling.entry_seq();
        if !is_rightmost {
            (ne.last().key, se[0].key)
        } else {
            (se.last().key, se[se.len() - 2].key)
        }
    }

    /// What a leaf split at the end of path `p` leaves: the previous leaf
    /// linked to the new left leaf, the first half of the grown entries in
    /// the fresh left slot, the rest in the old slot, and the parent with
    /// the new child's entry.
    pub open spec fn leaf_split_result_at(
        self,
        store: SlotStore<K, V>,
        p: Seq<u64>,
        key: K,
        c: Child<V>,
        after: Self,
        writes: Seq<TableWrite<K, V>>,
    ) -> bool {
        let ni = p.last();
        let n = self.node_at(store, ni).unwrap();
        let es = n.entry_seq();
        let g = es.insert(lower_bound_spec(es, key), Entry { key, value: c });
        let t = (self.leaf_degree() + 1) / 2;
        let pi = p[p.len() - 2];
        let pn = self.node_at(store, pi).unwrap();
        let prev = n.prev_link();
        let pv = self.node_at(store, prev).unwrap();
        let left = self.allocator().next_fresh();
        let np = split_parent_entries(
            pn.entry_seq(),
            ni,
            grown_key_at(es, key, es.len() as int),
            left,
            grown_key_at(es, key, t - 1),
        );
        let off: int = if prev != 0 {
            1
        } else {
            0
        };
        &&& writes.len() == off + 2 + (if pi == 1 {
            0int
        } else {
            1int
        })
        &&& prev != 0 ==> Self::writes_node(writes[0], prev, false, (pv.leaf_flag(), pv.entry_seq(), pv.prev_link(), left))
        &&& Self::writes_node(writes[off], left, true, (true, g.take(t), prev, ni))
        &&& Self::writes_node(writes[off + 1], ni, false, (true, g.skip(t), left, n.next_link()))
        &&& pi != 1 ==> Self::writes_node(writes[off + 2], pi, false, (false, np, pn.prev_link(), pn.next_link()))
            && after.root_node() == self.root_node()
        &&& pi == 1 ==> node_view(after.root_node()) == (false, np, pn.prev_link(), pn.next_link())
        &&& after.allocator().next_fresh() == left + 1
        &&& after.leaf_degree() == self.leaf_degree()
        &&& after.inner_degree() == self.inner_degree()
    }

    /// Whether adding `key` at the end of path `p` splits a full leaf whose
    /// parent, not the root, is full as well and splits in turn: the two
    /// slots that takes are fresh, and the parent's previous node is
    /// another slot than the leaf's previous one.
    pub open spec fn leaf_split_parent_split_at(self, store: SlotStore<K, V>, p: Seq<u64>, key: K) -> bool {
        let ni = p.last();
        let n = self.node_at(store, ni).unwrap();
        let es = n.entry_seq();
        let t = (self.leaf_degree() + 1) / 2;
        let pi = p[p.len() - 2];
        let pn = self.node_at(store, pi).unwrap();
        let prev = n.prev_link();
        let pp = pn.prev_link();
        let np = split_parent_entries(
            pn.entry_seq(),
            ni,
            grown_key_at(es, key, es.len() as int),
            self.allocator().next_fresh(),
            grown_key_at(es, key, t - 1),
        );
        &&& p.len() >= 3 && ni != 1 && pi != 1
        &&& !self.root_node().leaf_flag()
        &&& self.node_at(store, ni) is Some && n.leaf_flag()
        &&& es.len() >= self.leaf_degree() >= 1
        &&& !has_key_at_bound(es, key)
        &&& self.allocator().hands_out_fresh(2)
        &&& prev == 0 || (self.node_at(store, prev) is Some && self.node_at(store, prev).unwrap().leaf_flag())
        &&& self.node_at(store, pi) is Some && !pn.leaf_flag()
        &&& sorted_keys(renamed_child_entries(pn.entry_seq(), ni, grown_key_at(es, key, es.len() as int)))
        &&& np.len() > self.inner_degree() >= 1
        &&& pp != 1 && (pp != 0 ==> self.node_at(store, pp) is Some)
        &&& pi != prev && (pp != 0 ==> pp != prev)
    }

    /// Whether, in such an add, the grandparent has room for the parent's
    /// two halves: it reads as a sorted inner node, is neither the
    /// parent's nor the leaf's previous node, and stays within its degree.
    pub open spec fn grandparent_takes_split(self, store: SlotStore<K, V>, p: Seq<u64>, key: K) -> bool {
        let ni = p.last();
        let n = self.node_at(store, ni).unwrap();
        let es = n.entry_seq();
        let t = (self.leaf_degree() + 1) / 2;
        let pi = p[p.len() - 2];
        let pn = self.node_at(store, pi).unwrap();
        let left = self.allocator().next_fresh();
        let np = split_parent_entries(
            pn.entry_seq(),
            ni,
            grown_key_at(es, key, es.len() as int),
            left,
            grown_key_at(es, key, t - 1),
        );
        let t2 = (self.inner_degree() + 1) / 2;
        let gp = p[p.len() - 3];
        let gn = self.node_at(store, gp).unwrap();
        &&& gp != pn.prev_link() && gp != n.prev_link()
        &&& self.node_at(store, gp) is Some
        &&& sorted_keys(renamed_child_entries(gn.entry_seq(), pi, np.last().key))
        &&& split_parent_entries(gn.entry_seq(), pi, np.last().key, (left + 1) as u64, np[t2 - 1].key).len()
            <= self.inner_degree()
    }

    /// Whether passing a node's split up `path` goes through at every
    /// level, the parents' new left halves taking fresh slots from `nf` on:
    /// each parent on the way reads as a node, none of them a slot in
    /// `dirty` (those written lower down), whose entries stay sorted with
    /// the split child's key renamed; where it grows past its degree and is
    /// not the root, its previous node is none or a readable slot other
    /// than the root and not in `dirty`, and its own split passes on to the
    /// next parent up.
    pub open spec fn split_cascade_ok(
        self,
        store: SlotStore<K, V>,
        path: Seq<u64>,
        left_max: K,
        left: u64,
        right: u64,
        right_max: K,
        nf: u64,
        dirty: Set<u64>,
    ) -> bool
        decreases path.len(),
    {
        if path.len() == 0 {
            false
        } else {
            let pi = path.last();
            let pn = self.node_at(store, pi).unwrap();
            let np = split_parent_entries(pn.entry_seq(), right, right_max, left, left_max);
            let t2 = (self.inner_degree() + 1) / 2;
            let pp = pn.prev_link();
            &&& !dirty.contains(pi)
            &&& self.node_at(store, pi) is Some
            &&& sorted_keys(renamed_child_entries(pn.entry_seq(), right, right_max))
            &&& np.len() > self.inner_degree() ==> {
                &&& self.inner_degree() >= 1
                &&& pi != 1 ==> {
                    &&& pp != 1
                    &&& pp != 0 ==> !dirty.contains(pp) && self.node_at(store, pp) is Some
                    &&& self.split_cascade_ok(
                        store,
                        path.drop_last(),
                        np[t2 - 1].key,
                        nf,
                        pi,
                        np.last().key,
                        (nf + 1) as u64,
                        if pp != 0 {
                            dirty.insert(pp)
                        } else {
                            dirty
                        },
                    )
                }
            }
        }
    }

    /// Whether adding `key` at the end of path `p` splits a full leaf, not
    /// the root, and the split goes up the path through at every level:
    /// the leaf's previous node is none or a readable slot other than the
    /// root, slots are handed out fresh for every split on the way, and the
    /// leaf's split passes to its parent as `split_cascade_ok` says.
    pub open spec fn leaf_split_goes_through(self, store: SlotStore<K, V>, p: Seq<u64>, key: K) -> bool {
        let ni = p.last();
        let n = self.node_at(store, ni).unwrap();
        let es = n.entry_seq();
        let t = (self.leaf_degree() + 1) / 2;
        let prev = n.prev_link();
        let nf = self.allocator().next_fresh();
        &&& p.len() >= 2 && ni != 1
        &&& self.node_at(store, ni) is Some && n.leaf_flag()
        &&& es.len() >= self.leaf_degree() >= 1
        &&& prev != 1 && (prev != 0 ==> self.node_at(store, prev) is Some)
        &&& self.allocator().hands_out_fresh(p.len() + 1)
        &&& self.split_cascade_ok(
            store,
            p.drop_last(),
            grown_key_at(es, key, t - 1),
            nf,
            ni,
            grown_key_at(es, key, es.len() as int),
            (nf + 1) as u64,
            if prev != 0 {
                Set::<u64>::empty().insert(prev)
            } else {
                Set::<u64>::empty()
            },
        )
    }

    /// The writes of an add that splits the leaf at the end of path `p`:
    /// the leaf's previous node linked to the new left half in the next
    /// fresh slot, the left half, the right half in the leaf's slot (the
    /// leaf's entries with `key` put in, halved), and then the writes of the
    /// split passed up the path, as `cascade_writes` says.
    pub open spec fn leaf_split_writes(
        self,
        store: SlotStore<K, V>,
        p: Seq<u64>,
        key: K,
        c: Child<V>,
        after: Self,
        w: Seq<TableWrite<K, V>>,
    ) -> bool {
        let ni = p.last();
        let n = self.node_at(store, ni).unwrap();
        let es = n.entry_seq();
        let g = es.insert(lower_bound_spec(es, key), Entry { key, value: c });
        let t = (self.leaf_degree() + 1) / 2;
        let prev = n.prev_link();
        let nf = self.allocator().next_fresh();
        let k = if prev != 0 {
            1int
        } else {
            0int
        };
        &&& w.len() >= k + 2
        &&& prev != 0 ==> Self::writes_node(
            w[0],
            prev,
            false,
            (
                self.node_at(store, prev).unwrap().leaf_flag(),
                self.node_at(store, prev).unwrap().entry_seq(),
                self.node_at(store, prev).unwrap().prev_link(),
                nf,
            ),
        )
        &&& Self::writes_node(w[k], nf, true, (true, g.take(t), prev, ni))
        &&& Self::writes_node(w[k + 1], ni, false, (true, g.skip(t), nf, n.next_link()))
        &&& self.cascade_writes(
            store,
            p.drop_last(),
            grown_key_at(es, key, t - 1),
            nf,
            ni,
            grown_key_at(es, key, es.len() as int),
            (nf + 1) as u64,
            after,
            w.skip(k + 2),
        )
    }

    /// The cascade's conditions read only the nodes outside `dirty` and the
    /// inner degree, so a map that agrees on those meets them too.
    proof fn lemma_cascade_frame(
        self,
        other: Self,
        store: SlotStore<K, V>,
        path: Seq<u64>,
        left_max: K,
        left: u64,
        right: u64,
        right_max: K,
        nf: u64,
        dirty: Set<u64>,
    )
        requires
            self.split_cascade_ok(store, path, left_max, left, right, right_max, nf, dirty),
            other.inner_degree() == self.inner_degree(),
            forall|s: u64| !dirty.contains(s) ==> #[trigger] other.node_at(store, s) == self.node_at(store, s),
        ensures
            other.split_cascade_ok(store, path, left_max, left, right, right_max, nf, dirty),
        decreases path.len(),
    {
        if path.len() > 0 {
            let pi = path.last();
            let pn = self.node_at(store, pi).unwrap();
            let np = split_parent_entries(pn.entry_seq(), right, right_max, left, left_max);
            let t2 = (self.inner_degree() + 1) / 2;
            let pp = pn.prev_link();
            assert(other.node_at(store, pi) == self.node_at(store, pi));
            if np.len() > self.inner_degree() && pi != 1 {
                let d2 = if pp != 0 {
                    dirty.insert(pp)
                } else {
                    dirty
                };
                if pp != 0 {
                    assert(other.node_at(store, pp) == self.node_at(store, pp));
                }
                self.lemma_cascade_frame(
                    other,
                    store,
                    path.drop_last(),
                    np[t2 - 1].key,
                    nf,
                    pi,
                    np.last().key,
                    (nf + 1) as u64,
                    d2,
                );
            }
        }
    }

    /// Fewer written slots to keep clear of ask no more of the cascade.
    proof fn lemma_cascade_fewer_dirty(
        self,
        store: SlotStore<K, V>,
        path: Seq<u64>,
        left_max: K,
        left: u64,
        right: u64,
        right_max: K,
        nf: u64,
        dirty: Set<u64>,
        fewer: Set<u64>,
    )
        requires
            self.split_cascade_ok(store, path, left_max, left, right, right_max, nf, dirty),
            fewer.subset_of(dirty),
        ensures
            self.split_cascade_ok(store, path, left_max, left, right, right_max, nf, fewer),
        decreases path.len(),
    {
        if path.len() > 0 {
            let pi = path.last();
            let pn = self.node_at(store, pi).unwrap();
            let np = split_parent_entries(pn.entry_seq(), right, right_max, left, left_max);
            let t2 = (self.inner_degree() + 1) / 2;
            let pp = pn.prev_link();
            if np.len() > self.inner_degree() && pi != 1 {
                let d2 = if pp != 0 {
                    dirty.insert(pp)
                } else {
                    dirty
                };
                let f2 = if pp != 0 {
                    fewer.insert(pp)
                } else {
                    fewer
                };
                assert(f2.subset_of(d2));
                self.lemma_cascade_fewer_dirty(
                    store,
                    path.drop_last(),
                    np[t2 - 1].key,
                    nf,
                    pi,
                    np.last().key,
                    (nf + 1) as u64,
                    d2,
                    f2,
                );
            }
        }
    }

    /// The writes of a split passed up `path`, level by level, and the
    /// root they leave: a parent with room is written with the split
    /// child's key renamed and the new left child's entry put in (the root
    /// is set to it where it is the root); a full root splits into two
    /// fresh slots under a new root; any other full parent has its previous
    /// node linked to its new left half in fresh slot `nf`, the left half
    /// and the right half (in the parent's slot) written, and its own split
    /// passes on to the next parent up.
    pub open spec fn cascade_writes(
        self,
        store: SlotStore<K, V>,
        path: Seq<u64>,
        left_max: K,
        left: u64,
        right: u64,
        right_max: K,
        nf: u64,
        after: Self,
        w: Seq<TableWrite<K, V>>,
    ) -> bool
        decreases path.len(),
    {
        if path.len() == 0 {
            false
        } else {
            let pi = path.last();
            let pn = self.node_at(store, pi).unwrap();
            let np = split_parent_entries(pn.entry_seq(), right, right_max, left, left_max);
            let t2 = (self.inner_degree() + 1) / 2;
            let pp = pn.prev_link();
            let k = if pp != 0 {
                1int
            } else {
                0int
            };
            if np.len() <= self.inner_degree() {
                if pi == 1 {
                    w.len() == 0 && node_view(after.root_node()) == (false, np, pn.prev_link(), pn.next_link())
                } else {
                    w.len() == 1 && Self::writes_node(w[0], pi, false, (false, np, pn.prev_link(), pn.next_link()))
                        && after.root_node() == self.root_node()
                }
            } else if pi == 1 {
                &&& w.len() == 2
                &&& Self::writes_node(w[0], (nf + 1) as u64, true, (false, np.take(t2), 0u64, nf))
                &&& Self::writes_node(w[1], nf, true, (false, np.skip(t2), (nf + 1) as u64, 0u64))
                &&& node_view(after.root_node()) == (
                    false,
                    seq![
                        Entry::<K, Child<V>> {
                            key: np[t2 - 1].key,
                            value: Child::Inner { node_index: StoredSlot { slot_index: (nf + 1) as u64 } },
                        },
                        Entry::<K, Child<V>> {
                            key: np.last().key,
                            value: Child::Inner { node_index: StoredSlot { slot_index: nf } },
                        },
                    ],
                    0u64,
                    0u64,
                )
            } else {
                &&& w.len() >= k + 2
                &&& pp != 0 ==> Self::writes_node(
                    w[0],
                    pp,
                    false,
                    (
                        self.node_at(store, pp).unwrap().leaf_flag(),
                        self.node_at(store, pp).unwrap().entry_seq(),
                        self.node_at(store, pp).unwrap().prev_link(),
                        nf,
                    ),
                )
                &&& Self::writes_node(w[k], nf, true, (false, np.take(t2), pp, pi))
                &&& Self::writes_node(w[k + 1], pi, false, (false, np.skip(t2), nf, pn.next_link()))
                &&& self.cascade_writes(
                    store,
                    path.drop_last(),
                    np[t2 - 1].key,
                    nf,
                    pi,
                    np.last().key,
                    (nf + 1) as u64,
                    after,
                    w.skip(k + 2),
                )
            }
        }
    }

    /// The cascade's writes speak of the map they leave only by its root.
    proof fn lemma_cascade_writes_after(
        self,
        store: SlotStore<K, V>,
        path: Seq<u64>,
        left_max: K,
        left: u64,
        right: u64,
        right_max: K,
        nf: u64,
        a1: Self,
        a2: Self,
        w: Seq<TableWrite<K, V>>,
    )
        requires
            a1.root_node() == a2.root_node(),
        ensures
            self.cascade_writes(store, path, left_max, left, right, right_max, nf, a1, w)
                == self.cascade_writes(store, path, left_max, left, right, right_max, nf, a2, w),
        decreases path.len(),
    {
        if path.len() > 0 {
            let pi = path.last();
            let pn = self.node_at(store, pi).unwrap();
            let np = split_parent_entries(pn.entry_seq(), right, right_max, left, left_max);
            let t2 = (self.inner_degree() + 1) / 2;
            let pp = pn.prev_link();
            let k = if pp != 0 {
                1int
            } else {
                0int
            };
            self.lemma_cascade_writes_after(
                store,
                path.drop_last(),
                np[t2 - 1].key,
                nf,
                pi,
                np.last().key,
                (nf + 1) as u64,
                a1,
                a2,
                w.skip(k + 2),
            );
        }
    }

    /// The cascade's writes read only the root, the nodes outside `dirty`
    /// and the inner degree, so a map that agrees on those has the same.
    proof fn lemma_cascade_writes_frame(
        self,
        other: Self,
        store: SlotStore<K, V>,
        path: Seq<u64>,
        left_max: K,
        left: u64,
        right: u64,
        right_max: K,
        nf: u64,
        dirty: Set<u64>,
        after: Self,
        w: Seq<TableWrite<K, V>>,
    )
        requires
            self.split_cascade_ok(store, path, left_max, left, right, right_max, nf, dirty),
            other.inner_degree() == self.inner_degree(),
            other.root_node() == self.root_node(),
            forall|s: u64| !dirty.contains(s) ==> #[trigger] other.node_at(store, s) == self.node_at(store, s),
        ensures
            other.cascade_writes(store, path, left_max, left, right, right_max, nf, after, w)
                == self.cascade_writes(store, path, left_max, left, right, right_max, nf, after, w),
        decreases path.len(),
    {
        if path.len() > 0 {
            let pi = path.last();
            let pn = self.node_at(store, pi).unwrap();
            let np = split_parent_entries(pn.entry_seq(), right, right_max, left, left_max);
            let t2 = (self.inner_degree() + 1) / 2;
            let pp = pn.prev_link();
            let k = if pp != 0 {
                1int
            } else {
                0int
            };
            assert(other.node_at(store, pi) == self.node_at(store, pi));
            if np.len() > self.inner_degree() && pi != 1 {
                let d2 = if pp != 0 {
                    dirty.insert(pp)
                } else {
                    dirty
                };
                if pp != 0 {
                    assert(other.node_at(store, pp) == self.node_at(store, pp));
                }
                self.lemma_cascade_writes_frame(
                    other,
                    store,
                    path.drop_last(),
                    np[t2 - 1].key,
                    nf,
                    pi,
                    np.last().key,
                    (nf + 1) as u64,
                    d2,
                    after,
                    w.skip(k + 2),
                );
            }
        }
    }

    /// What such an add leaves: the leaf's split as in a leaf split, then
    /// the parent's: its previous node linked to the parent's new left
    /// half in the next fresh slot, the two halves of the parent's grown
    /// entries, and, where the grandparent has room, the grandparent with
    /// the parent's halves as its children.
    pub open spec fn leaf_split_parent_split_result_at(
        self,
        store: SlotStore<K, V>,
        p: Seq<u64>,
        key: K,
        c: Child<V>,
        after: Self,
        writes: Seq<TableWrite<K, V>>,
    ) -> bool {
        let ni = p.last();
        let n = self.node_at(store, ni).unwrap();
        let es = n.entry_seq();
        let g = es.insert(lower_bound_spec(es, key), Entry { key, value: c });
        let t = (self.leaf_degree() + 1) / 2;
        let pi = p[p.len() - 2];
        let pn = self.node_at(store, pi).unwrap();
        let prev = n.prev_link();
        let pv = self.node_at(store, prev).unwrap();
        let left = self.allocator().next_fresh();
        let np = split_parent_entries(
            pn.entry_seq(),
            ni,
            grown_key_at(es, key, es.len() as int),
            left,
            grown_key_at(es, key, t - 1),
        );
        let t2 = (self.inner_degree() + 1) / 2;
        let pleft = (left + 1) as u64;
        let pp = pn.prev_link();
        let ppn = self.node_at(store, pp).unwrap();
        let off: int = if prev != 0 {
            1
        } else {
            0
        };
        let off2: int = off + 2 + if pp != 0 {
            1int
        } else {
            0int
        };
        let gp = p[p.len() - 3];
        let gn = self.node_at(store, gp).unwrap();
        let gnp = split_parent_entries(gn.entry_seq(), pi, np.last().key, pleft, np[t2 - 1].key);
        &&& writes.len() >= off2 + 2
        &&& prev != 0 ==> Self::writes_node(writes[0], prev, false, (pv.leaf_flag(), pv.entry_seq(), pv.prev_link(), left))
        &&& Self::writes_node(writes[off], left, true, (true, g.take(t), prev, ni))
        &&& Self::writes_node(writes[off + 1], ni, false, (true, g.skip(t), left, n.next_link()))
        &&& pp != 0 ==> Self::writes_node(
            writes[off + 2],
            pp,
            false,
            (ppn.leaf_flag(), ppn.entry_seq(), ppn.prev_link(), pleft),
        )
        &&& Self::writes_node(writes[off2], pleft, true, (false, np.take(t2), pp, pi))
        &&& Self::writes_node(writes[off2 + 1], pi, false, (false, np.skip(t2), pleft, pn.next_link()))
        &&& self.grandparent_takes_split(store, p, key) ==> {
            &&& gp == 1 ==> writes.len() == off2 + 2 && node_view(after.root_node()) == (
                false,
                gnp,
                gn.prev_link(),
                gn.next_link(),
            )
            &&& gp != 1 ==> writes.len() == off2 + 3 && Self::writes_node(
                writes[off2 + 2],
                gp,
                false,
                (false, gnp, gn.prev_link(), gn.next_link()),
            )
        }
    }

    /// The shape that a leaf split relies on along the search for `key`:
    /// the leaf and its parent are sorted, the parent's entry that the
    /// search follows is the first for the leaf, the parent's keys bound
    /// the leaf's keys from both sides, and every slot on the way has been
    /// handed out.
    pub open spec fn leaf_split_valid(self, store: SlotStore<K, V>, key: K) -> bool {
        let p = self.key_search(store, key).unwrap();
        let ni = p.last();
        let es = self.node_at(store, ni).unwrap().entry_seq();
        let pe = self.node_at(store, p[p.len() - 2]).unwrap().entry_seq();
        let d = descend_index(pe, key);
        &&& sorted_keys(es)
        &&& sorted_keys(pe)
        &&& forall|j: int| 0 <= j < d ==> !points_to(#[trigger] pe[j].value, ni)
        &&& (d == 0 || pe[d - 1].key.key_lt(es[0].key))
        &&& !pe[d].key.key_lt(es.last().key)
        &&& forall|i: int| 0 <= i < p.len() ==> #[trigger] p[i] < self.allocator().next_fresh()
    }

    /// Whether renaming `old_key` along `path[..upto]` goes all the way up
    /// to the root: each of those slots reads a node whose last entry holds
    /// `old_key`, the first is the root, and no slot comes twice.
    pub open spec fn spine_rename(self, store: SlotStore<K, V>, path: Seq<u64>, upto: int, old_key: K) -> bool {
        &&& 1 <= upto <= path.len()
        &&& path[0] == 1
        &&& forall|i: int, j: int| 0 <= i < j < upto ==> path[i] != path[j]
        &&& forall|i: int|
            0 <= i < upto ==> #[trigger] self.node_at(store, path[i]) is Some && has_key_at_bound(
                self.node_at(store, path[i]).unwrap().entry_seq(),
                old_key,
            ) && lower_bound_spec(self.node_at(store, path[i]).unwrap().entry_seq(), old_key) == self.node_at(
                store,
                path[i],
            ).unwrap().entry_seq().len() - 1
    }

    /// Whether renaming `old_key` along `path[..upto]` stops at the
    /// deepest of those slots: it reads a node that holds `old_key`, not as
    /// its last key.
    pub open spec fn rename_stops_at(self, store: SlotStore<K, V>, path: Seq<u64>, upto: int, old_key: K) -> bool {
        let n = self.node_at(store, path[upto - 1]).unwrap();
        &&& 1 <= upto <= path.len()
        &&& self.node_at(store, path[upto - 1]) is Some
        &&& has_key_at_bound(n.entry_seq(), old_key)
        &&& lower_bound_spec(n.entry_seq(), old_key) != n.entry_seq().len() - 1
    }

    /// Whether adding `key` at the end of path `p` puts it into a leaf
    /// with room as the leaf's new largest key, the new key then renaming
    /// the leaf's old largest key in every node above, up to the root.
    pub open spec fn extend_add_at(self, store: SlotStore<K, V>, p: Seq<u64>, key: K) -> bool {
        let ni = p.last();
        let n = self.node_at(store, ni).unwrap();
        let es = n.entry_seq();
        &&& p.len() >= 2 && ni != 1
        &&& self.node_at(store, ni) is Some && n.leaf_flag()
        &&& 1 <= es.len() < self.leaf_degree()
        &&& es.last().key.key_lt(key)
        &&& self.spine_rename(store, p, p.len() - 1, es.last().key)
        &&& forall|i: int| 0 <= i < p.len() - 1 ==> #[trigger] p[i] != ni
    }

    /// What such an add leaves: the leaf with the entry put in, then each
    /// node above, from the parent up, with its last key renamed to `key`,
    /// the root last and in place.
    pub open spec fn extend_add_result_at(
        self,
        store: SlotStore<K, V>,
        p: Seq<u64>,
        key: K,
        c: Child<V>,
        after: Self,
        writes: Seq<TableWrite<K, V>>,
    ) -> bool {
        let ni = p.last();
        let n = self.node_at(store, ni).unwrap();
        &&& writes.len() == p.len() - 1
        &&& Self::writes_node(writes[0], ni, false, (true, upsert_entries(n.entry_seq(), key, c), n.prev_link(), n.next_link()))
        &&& forall|k: int|
            0 <= k < p.len() - 2 ==> Self::writes_node(
                #[trigger] writes[1 + k],
                p[p.len() - 2 - k],
                false,
                renamed_last(self.node_at(store, p[p.len() - 2 - k]).unwrap(), key),
            )
        &&& node_view(after.root_node()) == renamed_last(self.root_node(), key)
        &&& after.allocator() == self.allocator()
        &&& after.leaf_degree() == self.leaf_degree()
        &&& after.inner_degree() == self.inner_degree()
    }

    /// Whether removing `key` at the end of path `p` takes the largest key
    /// out of a leaf that keeps at least half its degree, the leaf's new
    /// largest key then renaming `key` in every node above, up to the root.
    pub open spec fn shrink_remove_at(self, store: SlotStore<K, V>, p: Seq<u64>, key: K) -> bool {
        let ni = p.last();
        let n = self.node_at(store, ni).unwrap();
        let es = n.entry_seq();
        &&& p.len() >= 2 && ni != 1
        &&& self.node_at(store, ni) is Some && n.leaf_flag()
        &&& es.len() >= 2
        &&& has_key_at_bound(es, key)
        &&& lower_bound_spec(es, key) == es.len() - 1
        &&& es.last().value is Leaf
        &&& es.len() - 1 >= (self.leaf_degree() + 1) / 2
        &&& self.spine_rename(store, p, p.len() - 1, key)
        &&& forall|i: int| 0 <= i < p.len() - 1 ==> #[trigger] p[i] != ni
    }

    /// What such a removal leaves: the value removed, the leaf without its
    /// last entry, then each node above, from the parent up, with its last
    /// key renamed to the leaf's new largest key, the root last and in
    /// place.
    pub open spec fn shrink_remove_result_at(
        self,
        store: SlotStore<K, V>,
        p: Seq<u64>,
        key: K,
        removed: Option<V>,
        after: Self,
        writes: Seq<TableWrite<K, V>>,
    ) -> bool {
        let ni = p.last();
        let n = self.node_at(store, ni).unwrap();
        let es = n.entry_seq();
        let nmk = es[es.len() - 2].key;
        &&& removed == Some(es.last().value->value)
        &&& writes.len() == p.len() - 1
        &&& Self::writes_node(writes[0], ni, false, (true, es.drop_last(), n.prev_link(), n.next_link()))
        &&& forall|k: int|
            0 <= k < p.len() - 2 ==> Self::writes_node(
                #[trigger] writes[1 + k],
                p[p.len() - 2 - k],
                false,
                renamed_last(self.node_at(store, p[p.len() - 2 - k]).unwrap(), nmk),
            )
        &&& node_view(after.root_node()) == renamed_last(self.root_node(), nmk)
        &&& after.allocator() == self.allocator()
        &&& after.leaf_degree() == self.leaf_degree()
        &&& after.inner_degree() == self.inner_degree()
    }

    /// Whether removing `key` at the end of path `p` leaves a leaf below
    /// the root under half its degree, the removed key not being its
    /// largest: the leaf's parent has two entries or more, and the
    /// neighbour that the rebalance takes (the previous leaf for the
    /// parent's last child, else the next) is another readable, non-empty
    /// slot than the leaf, its parent and the root, as are its and the
    /// leaf's links.
    pub open spec fn underfull_remove_at(self, store: SlotStore<K, V>, p: Seq<u64>, key: K) -> bool {
        let ni = p.last();
        let n = self.node_at(store, ni).unwrap();
        let es = n.entry_seq();
        let q = lower_bound_spec(es, key);
        let pi = p[p.len() - 2];
        let pe = self.node_at(store, pi).unwrap().entry_seq();
        let si = if points_to(pe.last().value, ni) {
            n.prev_link()
        } else {
            n.next_link()
        };
        let sib = self.node_at(store, si).unwrap();
        &&& p.len() >= 2 && ni != 1 && pi != ni
        &&& self.node_at(store, ni) is Some && n.leaf_flag()
        &&& has_key_at_bound(es, key) && es[q].value is Leaf
        &&& q != es.len() - 1
        &&& es.len() - 1 < (self.leaf_degree() + 1) / 2
        &&& self.node_at(store, pi) is Some && pe.len() >= 2
        &&& si != 0 && si != 1 && si != ni && si != pi
        &&& self.node_at(store, si) is Some && sib.entry_seq().len() > 0
        &&& n.prev_link() != 1 && n.next_link() != 1 && sib.prev_link() != 1 && sib.next_link() != 1
    }

    /// What such a removal gives back: the value, the leaf without the
    /// entry written first, then the rebalance's own writes: a borrow's
    /// two where the neighbour can spare an entry, else the merged node in
    /// the slot that the merge keeps.
    pub open spec fn underfull_remove_result_at(
        self,
        store: SlotStore<K, V>,
        p: Seq<u64>,
        key: K,
        removed: Option<V>,
        writes: Seq<TableWrite<K, V>>,
    ) -> bool {
        let ni = p.last();
        let n = self.node_at(store, ni).unwrap();
        let es = n.entry_seq();
        let q = lower_bound_spec(es, key);
        let rest = (true, es.remove(q), n.prev_link(), n.next_link());
        let pi = p[p.len() - 2];
        let pe = self.node_at(store, pi).unwrap().entry_seq();
        let is_rightmost = points_to(pe.last().value, ni);
        let si = if is_rightmost {
            n.prev_link()
        } else {
            n.next_link()
        };
        let sib = self.node_at(store, si).unwrap();
        let t = Self::merge_target(rest, ni, sib, si, is_rightmost);
        &&& removed == Some(es[q].value->value)
        &&& writes.len() >= 1 && Self::writes_node(writes[0], ni, false, rest)
        &&& sib.entry_seq().len() - 1 >= (self.leaf_degree() + 1) / 2 ==> Self::borrow_writes(
            rest,
            ni,
            sib,
            si,
            is_rightmost,
            writes.skip(1),
        )
        &&& sib.entry_seq().len() - 1 < (self.leaf_degree() + 1) / 2 ==> writes.len() > 1 + t.1
            && Self::writes_node(writes[1 + t.1], t.0, false, t.2)
    }

    /// Whether such a removal borrows from the neighbour, which can spare
    /// an entry, and the parent's key that the borrow renames is not the
    /// parent's last.
    pub open spec fn underfull_borrow_at(self, store: SlotStore<K, V>, p: Seq<u64>, key: K) -> bool {
        let ni = p.last();
        let n = self.node_at(store, ni).unwrap();
        let es = n.entry_seq();
        let q = lower_bound_spec(es, key);
        let rest = (true, es.remove(q), n.prev_link(), n.next_link());
        let pi = p[p.len() - 2];
        let pe = self.node_at(store, pi).unwrap().entry_seq();
        let is_rightmost = points_to(pe.last().value, ni);
        let si = if is_rightmost {
            n.prev_link()
        } else {
            n.next_link()
        };
        let sib = self.node_at(store, si).unwrap();
        &&& self.underfull_remove_at(store, p, key)
        &&& sib.entry_seq().len() - 1 >= (self.leaf_degree() + 1) / 2
        &&& sib.entry_seq().len() > (if is_rightmost {
            1int
        } else {
            0int
        })
        &&& self.rename_stops_at(store, p, p.len() - 1, Self::borrow_rename(rest, sib, is_rightmost).0)
    }

    /// What such a borrow leaves besides the removal's own writes: the
    /// parent with the borrow's key renamed, written last, or as the new
    /// root.
    pub open spec fn underfull_borrow_result_at(
        self,
        store: SlotStore<K, V>,
        p: Seq<u64>,
        key: K,
        after: Self,
        writes: Seq<TableWrite<K, V>>,
    ) -> bool {
        let ni = p.last();
        let n = self.node_at(store, ni).unwrap();
        let es = n.entry_seq();
        let q = lower_bound_spec(es, key);
        let rest = (true, es.remove(q), n.prev_link(), n.next_link());
        let pi = p[p.len() - 2];
        let pn = self.node_at(store, pi).unwrap();
        let pe = pn.entry_seq();
        let is_rightmost = points_to(pe.last().value, ni);
        let si = if is_rightmost {
            n.prev_link()
        } else {
            n.next_link()
        };
        let sib = self.node_at(store, si).unwrap();
        let ok = Self::borrow_rename(rest, sib, is_rightmost).0;
        let nk = Self::borrow_rename(rest, sib, is_rightmost).1;
        let pq = lower_bound_spec(pe, ok);
        &&& pi != 1 ==> writes.len() == 4 && Self::writes_node(writes[3], pi, false, renamed_at(pn, pq, nk))
            && after.root_node() == self.root_node()
        &&& pi == 1 ==> writes.len() == 3 && node_view(after.root_node()) == renamed_at(pn, pq, nk)
    }

    /// Whether such a removal merges the leaf with its neighbour, which
    /// cannot spare an entry, under the root as their parent, and the
    /// merge goes through as `merge_goes_through` says; the neighbours
    /// that the merge relinks are other slots than the leaf's.
    pub open spec fn underfull_merge_at(self, store: SlotStore<K, V>, p: Seq<u64>, key: K) -> bool {
        let ni = p.last();
        let n = self.node_at(store, ni).unwrap();
        let es = n.entry_seq();
        let q = lower_bound_spec(es, key);
        let rest = (true, es.remove(q), n.prev_link(), n.next_link());
        let pi = p[p.len() - 2];
        let pe = self.node_at(store, pi).unwrap().entry_seq();
        let is_rightmost = points_to(pe.last().value, ni);
        let si = if is_rightmost {
            n.prev_link()
        } else {
            n.next_link()
        };
        let sib = self.node_at(store, si).unwrap();
        &&& self.underfull_remove_at(store, p, key)
        &&& sib.entry_seq().len() - 1 < (self.leaf_degree() + 1) / 2
        &&& is_rightmost ==> n.next_link() != ni && sib.prev_link() != ni
        &&& !is_rightmost ==> sib.next_link() != ni && n.prev_link() != ni
        &&& self.merge_goes_through(store, p, rest, ni, sib, si, is_rightmost)
    }

    /// What such a merge leaves besides the removal's own writes: the root
    /// without the entry of the node merged away, or the merged node
    /// itself where only it was left, as `merge_result` says of the writes
    /// after the leaf's own.
    pub open spec fn underfull_merge_result_at(
        self,
        store: SlotStore<K, V>,
        p: Seq<u64>,
        key: K,
        after: Self,
        writes: Seq<TableWrite<K, V>>,
    ) -> bool {
        let ni = p.last();
        let n = self.node_at(store, ni).unwrap();
        let es = n.entry_seq();
        let q = lower_bound_spec(es, key);
        let rest = (true, es.remove(q), n.prev_link(), n.next_link());
        let pi = p[p.len() - 2];
        let pe = self.node_at(store, pi).unwrap().entry_seq();
        let is_rightmost = points_to(pe.last().value, ni);
        let si = if is_rightmost {
            n.prev_link()
        } else {
            n.next_link()
        };
        let sib = self.node_at(store, si).unwrap();
        self.merge_result(rest, ni, sib, si, is_rightmost, after, writes.skip(1))
    }

    /// Whether such a merge is with the leaf's next neighbour, freed slots
    /// are not reused, and the root keeps more than one child.
    pub open spec fn underfull_merge_next_at(self, store: SlotStore<K, V>, p: Seq<u64>, key: K) -> bool {
        let ni = p.last();
        let n = self.node_at(store, ni).unwrap();
        let es = n.entry_seq();
        let rest = (true, es.remove(lower_bound_spec(es, key)), n.prev_link(), n.next_link());
        let pe = self.node_at(store, p[p.len() - 2]).unwrap().entry_seq();
        let si = n.next_link();
        &&& self.underfull_merge_at(store, p, key)
        &&& !points_to(pe.last().value, ni)
        &&& self.merge_next_plain(store, p, rest, ni, self.node_at(store, si).unwrap(), si)
    }

    /// The writes of such a merge after the leaf's own, as
    /// `merge_next_writes` lists them.
    pub open spec fn underfull_merge_next_writes_at(
        self,
        store: SlotStore<K, V>,
        p: Seq<u64>,
        key: K,
        writes: Seq<TableWrite<K, V>>,
    ) -> bool {
        let ni = p.last();
        let n = self.node_at(store, ni).unwrap();
        let es = n.entry_seq();
        let rest = (true, es.remove(lower_bound_spec(es, key)), n.prev_link(), n.next_link());
        let si = n.next_link();
        self.merge_next_writes(store, rest, self.node_at(store, si).unwrap(), si, writes.skip(1))
    }

    /// Whether such a merge is with the previous neighbour of the leaf, its
    /// parent's last child, freed slots are not reused, and the root keeps
    /// more than one child.
    pub open spec fn underfull_merge_prev_at(self, store: SlotStore<K, V>, p: Seq<u64>, key: K) -> bool {
        let ni = p.last();
        let n = self.node_at(store, ni).unwrap();
        let es = n.entry_seq();
        let rest = (true, es.remove(lower_bound_spec(es, key)), n.prev_link(), n.next_link());
        let pe = self.node_at(store, p[p.len() - 2]).unwrap().entry_seq();
        let si = n.prev_link();
        &&& self.underfull_merge_at(store, p, key)
        &&& points_to(pe.last().value, ni)
        &&& self.merge_prev_plain(store, p, rest, ni, self.node_at(store, si).unwrap(), si)
    }

    /// The writes of such a merge after the leaf's own, as
    /// `merge_prev_writes` lists them.
    pub open spec fn underfull_merge_prev_writes_at(
        self,
        store: SlotStore<K, V>,
        p: Seq<u64>,
        key: K,
        writes: Seq<TableWrite<K, V>>,
    ) -> bool {
        let ni = p.last();
        let n = self.node_at(store, ni).unwrap();
        let es = n.entry_seq();
        let rest = (true, es.remove(lower_bound_spec(es, key)), n.prev_link(), n.next_link());
        self.merge_prev_writes(store, rest, ni, self.node_at(store, n.prev_link()).unwrap(), writes.skip(1))
    }

    /// Two maps that read every slot alike search alike.
    pub proof fn lemma_search_same_nodes(self, other: Self, store: SlotStore<K, V>, key: K, current: u64, fuel: nat)
        requires
            forall|idx: u64| #[trigger] self.node_at(store, idx) == other.node_at(store, idx),
        ensures
            self.search_path(store, key, current, fuel) == other.search_path(store, key, current, fuel),
        decreases fuel,
    {
        if fuel > 0 {
            assert(self.node_at(store, current) == other.node_at(store, current));
            if let Some(n) = self.node_at(store, current) {
                if !(n.leaf_flag() || n.entry_seq().len() == 0) {
                    if let Child::Inner { node_index } = n.entry_seq()[descend_index(n.entry_seq(), key)].value {
                        self.lemma_search_same_nodes(other, store, key, node_index.slot_index, (fuel - 1) as nat);
                    }
                }
            }
        }
    }

    /// A search that ends reads its last slot.
    pub proof fn lemma_search_path_ends(self, store: SlotStore<K, V>, key: K, current: u64, fuel: nat)
        ensures
            self.search_path(store, key, current, fuel) matches Some(p) ==> p.len() >= 1 && p[0] == current
                && self.node_at(store, p.last()) is Some,
        decreases fuel,
    {
        if fuel > 0 {
            if let Some(n) = self.node_at(store, current) {
                if !(n.leaf_flag() || n.entry_seq().len() == 0) {
                    if let Child::Inner { node_index } = n.entry_seq()[descend_index(n.entry_seq(), key)].value {
                        self.lemma_search_path_ends(store, key, node_index.slot_index, (fuel - 1) as nat);
                        if let Some(q) = self.search_path(store, key, node_index.slot_index, (fuel - 1) as nat) {
                            assert((seq![current] + q).last() == q.last());
                        }
                    }
                }
            }
        }
    }
}

impl<K: TreeKey, V: Copy> BigOrderedMap<K, V> {
    fn root_ref(&self) -> (r: &Node<K, V>)
        ensures
            *r == self.root_node(),
    {
        match self {
            BigOrderedMap::BPlusTreeMap { root, .. } => root,
        }
    }

    fn set_root(&mut self, n: Node<K, V>)
        ensures
            *final(self) == old(self).with_root(n),
    {
        match self {
            BigOrderedMap::BPlusTreeMap { root, .. } => {
                *root = n;
            },
        }
    }

    fn leaf_max(&self) -> (r: usize)
        ensures
            r == self.leaf_degree(),
    {
        match self {
            BigOrderedMap::BPlusTreeMap { leaf_max_degree, .. } => *leaf_max_degree as usize,
        }
    }

    fn inner_max(&self) -> (r: usize)
        ensures
            r == self.inner_degree(),
    {
        match self {
            BigOrderedMap::BPlusTreeMap { inner_max_degree, .. } => *inner_max_degree as usize,
        }
    }

    fn min_leaf_index_value(&self) -> (r: u64)
        ensures
            r == self.min_leaf(),
    {
        match self {
            BigOrderedMap::BPlusTreeMap { min_leaf_index, .. } => *min_leaf_index,
        }
    }

    fn max_leaf_index_value(&self) -> (r: u64)
        ensures
            r == self.max_leaf(),
    {
        match self {
            BigOrderedMap::BPlusTreeMap { max_leaf_index, .. } => *max_leaf_index,
        }
    }

    fn set_leaf_bounds(&mut self, min_leaf: u64, max_leaf: u64)
        ensures
            final(self).root_node() == old(self).root_node(),
            final(self).allocator() == old(self).allocator(),
            final(self).min_leaf() == min_leaf,
            final(self).max_leaf() == max_leaf,
            final(self).leaf_degree() == old(self).leaf_degree(),
            final(self).inner_degree() == old(self).inner_degree(),
            final(self).cache() == old(self).cache(),
    {
        match self {
            BigOrderedMap::BPlusTreeMap { min_leaf_index, max_leaf_index, .. } => {
                *min_leaf_index = min_leaf;
                *max_leaf_index = max_leaf;
            },
        }
    }

    fn clear_cache(&mut self)
        ensures
            final(self).same_shape(*old(self)),
            forall|idx: u64| #[trigger] final(self).cache().content(idx) is None,
    {
        match self {
            BigOrderedMap::BPlusTreeMap { write_cache, .. } => {
                write_cache.clear();
            },
        }
    }

    /// Reads the node in slot `idx`: the root for slot 1, else the slot as
    /// written during this operation, else as storage holds it.
    fn read_node(&self, idx: u64, store: &SlotStore<K, V>) -> (r: Result<Node<K, V>, TreeError>)
        ensures
            match self.node_at(*store, idx) {
                Some(n) => r matches Ok(m) && node_view(m) == node_view(n),
                None => r is Err,
            },
    {
        if idx == 1 {
            return Ok(copy_node(self.root_ref()));
        }
        let cached = match self {
            BigOrderedMap::BPlusTreeMap { write_cache, .. } => write_cache.get(idx),
        };
        match cached {
            Some(link) => match link {
                Link::Occupied { value } => Ok(copy_node(value)),
                Link::Vacant { .. } => Err(TreeError::SlotVacant(idx)),
            },
            None => match store.get(idx) {
                Some(link) => match link {
                    Link::Occupied { value } => Ok(copy_node(value)),
                    Link::Vacant { .. } => Err(TreeError::SlotVacant(idx)),
                },
                None => Err(TreeError::SlotNotFound(idx)),
            },
        }
    }

    /// Writes a node: slot 1 is the root; any other slot is recorded for
    /// later reads of this operation and handed back as a write.
    fn write_node(&mut self, idx: u64, node: Node<K, V>, is_new: bool) -> (r: Option<TableWrite<K, V>>)
        ensures
            idx == 1 ==> r is None && *final(self) == old(self).with_root(node),
            idx != 1 ==> (r matches Some(w) && w.slot_index == idx && w.is_new == is_new && (
            w.data matches Link::Occupied { value } && node_view(value) == node_view(node))),
            idx != 1 ==> final(self).same_shape(*old(self)),
            idx != 1 ==> (final(self).cache().content(idx) matches Some(Link::Occupied { value })
                && node_view(value) == node_view(node)),
            forall|other: u64| other != idx ==> #[trigger] final(self).cache().content(other) == old(
                self,
            ).cache().content(other),
    {
        if idx == 1 {
            self.set_root(node);
            return None;
        }
        let cached = copy_node(&node);
        match self {
            BigOrderedMap::BPlusTreeMap { write_cache, .. } => {
                write_cache.put(idx, Link::Occupied { value: cached });
            },
        }
        Some(TableWrite { slot_index: idx, data: Link::Occupied { value: node }, is_new })
    }

    /// Hands out a slot: the head of the reuse chain where reuse is on and
    /// the chain holds one, else a fresh slot. Whether it is fresh comes
    /// back with it.
    fn alloc_slot_reuse(&mut self, store: &SlotStore<K, V>) -> (r: Result<(u64, bool), TreeError>)
        ensures
            final(self).root_node() == old(self).root_node(),
            final(self).min_leaf() == old(self).min_leaf(),
            final(self).max_leaf() == old(self).max_leaf(),
            final(self).leaf_degree() == old(self).leaf_degree(),
            final(self).inner_degree() == old(self).inner_degree(),
            r matches Ok((slot, true)) ==> slot == old(self).allocator().next_fresh()
                && final(self).allocator().next_fresh() == slot + 1,
            !old(self).allocator().reuses() || old(self).allocator().reuse_head() == 0 ==> {
                &&& old(self).allocator().next_fresh() < u64::MAX && (old(self).allocator().table() matches Some(
                    t,
                ) ==> t.length < u64::MAX) ==> r == Ok::<(u64, bool), TreeError>(
                    (old(self).allocator().next_fresh(), true),
                )
                &&& r is Ok ==> final(self).allocator().reuses() == old(self).allocator().reuses()
                    && final(self).allocator().reuse_head() == old(self).allocator().reuse_head()
                    && final(self).allocator().table() == (match old(self).allocator().table() {
                    Some(t) => Some(TableWithLength { inner: t.inner, length: (t.length + 1) as u64 }),
                    None => None,
                })
            },
            final(self).cache() == old(self).cache(),
    {
        match self {
            BigOrderedMap::BPlusTreeMap { nodes, write_cache, .. } => match nodes {
                StorageSlotsAllocator::V1 {
                    new_slot_index,
                    slots,
                    should_reuse,
                    reuse_head_index,
                    reuse_spare_count,
                    ..
                } => {
                    if *should_reuse && *reuse_head_index != 0 {
                        let slot_index = *reuse_head_index;
                        let next: Option<u64> = match write_cache.get(slot_index) {
                            Some(link) => match link {
                                Link::Vacant { next } => Some(*next),
                                Link::Occupied { .. } => None,
                            },
                            None => match store.get(slot_index) {
                                Some(link) => match link {
                                    Link::Vacant { next } => Some(*next),
                                    Link::Occupied { .. } => None,
                                },
                                None => {
                                    return Err(TreeError::SlotNotFound(slot_index));
                                },
                            },
                        };
                        if let Some(next) = next {
                            if *reuse_spare_count == 0 {
                                return Err(TreeError::MalformedTree);
                            }
                            *reuse_head_index = next;
                            *reuse_spare_count = *reuse_spare_count - 1;
                            return Ok((slot_index, false));
                        }
                    }
                    if *new_slot_index == u64::MAX {
                        return Err(TreeError::MalformedTree);
                    }
                    if let Some(twl) = slots {
                        if twl.length == u64::MAX {
                            return Err(TreeError::MalformedTree);
                        }
                    }
                    let slot = *new_slot_index;
                    *new_slot_index = slot + 1;
                    if let Some(twl) = slots {
                        twl.length = twl.length + 1;
                    }
                    Ok((slot, true))
                },
            },
        }
    }

    /// Gives a slot back: onto the reuse chain where reuse is on (the free
    /// slot is written), else the table just counts one slot less.
    fn free_slot(&mut self, slot_index: u64) -> (r: Result<Option<TableWrite<K, V>>, TreeError>)
        ensures
            final(self).root_node() == old(self).root_node(),
            final(self).min_leaf() == old(self).min_leaf(),
            final(self).max_leaf() == old(self).max_leaf(),
            final(self).leaf_degree() == old(self).leaf_degree(),
            final(self).inner_degree() == old(self).inner_degree(),
            ({
                let a = old(self).allocator();
                let b = final(self).allocator();
                let link = Link::<Node<K, V>>::Vacant { next: a.reuse_head() };
                &&& a.reuses() && a.spare_count() == u32::MAX ==> r is Err
                &&& a.reuses() && a.spare_count() < u32::MAX ==> {
                    &&& r == Ok::<Option<TableWrite<K, V>>, TreeError>(Some(TableWrite { slot_index, data: link, is_new: false }))
                    &&& b.reuses() && b.reuse_head() == slot_index && b.spare_count() == a.spare_count() + 1
                    &&& b.next_fresh() == a.next_fresh() && b.table() == a.table()
                    &&& final(self).cache().content(slot_index) == Some(link)
                    &&& forall|other: u64| other != slot_index ==> #[trigger] final(self).cache().content(other)
                        == old(self).cache().content(other)
                }
                &&& !a.reuses() ==> {
                    &&& r == Ok::<Option<TableWrite<K, V>>, TreeError>(None)
                    &&& !b.reuses() && b.reuse_head() == a.reuse_head() && b.spare_count() == a.spare_count()
                    &&& b.next_fresh() == a.next_fresh() && b.table() == table_less_one(a.table())
                    &&& final(self).cache() == old(self).cache()
                }
            }),
    {
        match self {
            BigOrderedMap::BPlusTreeMap { nodes, write_cache, .. } => match nodes {
                StorageSlotsAllocator::V1 {
                    should_reuse,
                    reuse_head_index,
                    reuse_spare_count,
                    slots,
                    ..
                } => {
                    if *should_reuse {
                        if *reuse_spare_count == u32::MAX {
                            return Err(TreeError::MalformedTree);
                        }
                        let next = *reuse_head_index;
                        *reuse_head_index = slot_index;
                        *reuse_spare_count = *reuse_spare_count + 1;
                        write_cache.put(slot_index, Link::Vacant { next });
                        Ok(Some(TableWrite { slot_index, data: Link::Vacant { next }, is_new: false }))
                    } else {
                        if let Some(twl) = slots {
                            if twl.length > 0 {
                                twl.length = twl.length - 1;
                            }
                        }
                        Ok(None)
                    }
                },
            },
        }
    }

    /// The slots from the root down to the node where `key` belongs: at
    /// each inner node the first child whose key is not below `key`, or
    /// the last child.
    fn tree_find_leaf_path(&self, key: &K, store: &SlotStore<K, V>) -> (r: Result<Vec<u64>, TreeError>)
        ensures
            match self.key_search(*store, *key) {
                Some(p) => r matches Ok(v) && v@ == p,
                None => r is Err,
            },
            r matches Ok(p) ==> p@.len() >= 1 && p@[0] == 1,
    {
        let mut path: Vec<u64> = Vec::new();
        let mut current: u64 = 1;
        let max_depth: usize = 20;
        let mut depth: usize = 0;
        proof {
            assert(path@ + seq![1u64] =~= seq![1u64]);
        }
        while depth < max_depth
            invariant
                max_depth == 20,
                depth <= max_depth,
                path@.len() == depth,
                depth > 0 ==> path@[0] == 1,
                depth == 0 ==> current == 1,
                self.key_search(*store, *key) == match self.search_path(
                    *store,
                    *key,
                    current,
                    (20 - depth) as nat,
                ) {
                    Some(q) => Some(path@ + q),
                    None => None::<Seq<u64>>,
                },
            decreases max_depth - depth,
        {
            let ghost before = path@;
            let ghost fuel = (20 - depth) as nat;
            path.push(current);
            let node = self.read_node(current, store)?;
            if node_is_leaf(&node) {
                proof {
                    assert(before + seq![current] =~= path@);
                }
                return Ok(path);
            }
            let (_, entries, _, _) = node_parts(node);
            if entries.len() == 0 {
                proof {
                    assert(before + seq![current] =~= path@);
                }
                return Ok(path);
            }
            let mut pos = lower_bound(&entries, key);
            if pos >= entries.len() {
                pos = entries.len() - 1;
            }
            match entries[pos].value {
                Child::Inner { node_index } => {
                    proof {
                        assert forall|q: Seq<u64>| #![auto] before + (seq![current] + q) =~= path@ + q by {}
                    }
                    current = node_index.slot_index;
                },
                Child::Leaf { .. } => {
                    proof {
                        assert(before + seq![current] =~= path@);
                    }
                    return Ok(path);
                },
            }
            depth += 1;
        }
        Err(TreeError::MaxDepthExceeded)
    }

    /// Renames `old_key` to `new_key` in the nodes of `path[..upto]`, from
    /// the deepest up, for as long as the renamed entry is the last of its
    /// node.
    fn tree_update_parent_key(
        &mut self,
        path: &Vec<u64>,
        upto: usize,
        old_key: &K,
        new_key: &K,
        store: &SlotStore<K, V>,
    ) -> (r: Result<Vec<TableWrite<K, V>>, TreeError>)
        requires
            upto <= path@.len(),
        ensures
            old(self).spine_rename(*store, path@, upto as int, *old_key) ==> (r matches Ok(w) && w@.len() == upto
                - 1 && (forall|k: int|
                0 <= k < upto - 1 ==> Self::writes_node(
                    #[trigger] w@[k],
                    path@[upto - 1 - k],
                    false,
                    renamed_last(old(self).node_at(*store, path@[upto - 1 - k]).unwrap(), *new_key),
                )) && node_view(final(self).root_node()) == renamed_last(old(self).root_node(), *new_key)
                && final(self).allocator() == old(self).allocator() && final(self).min_leaf() == old(self).min_leaf()
                && final(self).max_leaf() == old(self).max_leaf() && final(self).leaf_degree() == old(
                self,
            ).leaf_degree() && final(self).inner_degree() == old(self).inner_degree()),
            old(self).rename_stops_at(*store, path@, upto as int, *old_key) ==> ({
                let ni = path@[upto - 1];
                let n = old(self).node_at(*store, ni).unwrap();
                let q = lower_bound_spec(n.entry_seq(), *old_key);
                &&& r matches Ok(w)
                &&& ni != 1 ==> w@.len() == 1 && Self::writes_node(w@[0], ni, false, renamed_at(n, q, *new_key))
                    && final(self).same_shape(*old(self))
                &&& ni == 1 ==> w@.len() == 0 && node_view(final(self).root_node()) == renamed_at(n, q, *new_key)
                    && final(self).allocator() == old(self).allocator() && final(self).min_leaf() == old(
                    self,
                ).min_leaf() && final(self).max_leaf() == old(self).max_leaf() && final(self).leaf_degree() == old(
                    self,
                ).leaf_degree() && final(self).inner_degree() == old(self).inner_degree()
            }),
    {
        let ghost sp = old(self).spine_rename(*store, path@, upto as int, *old_key);
        let ghost st = old(self).rename_stops_at(*store, path@, upto as int, *old_key);
        let ghost start = *self;
        let mut writes: Vec<TableWrite<K, V>> = Vec::new();
        let mut i = upto;
        while i > 0
            invariant_except_break
                st ==> i == upto && writes@.len() == 0 && *self == start,
            invariant
                i <= upto <= path@.len(),
                sp == start.spine_rename(*store, path@, upto as int, *old_key),
                st == start.rename_stops_at(*store, path@, upto as int, *old_key),
                start == *old(self),
                sp ==> {
                    &&& writes@.len() == (upto - i) - (if i == 0 {
                        1int
                    } else {
                        0int
                    })
                    &&& forall|k: int|
                        0 <= k < writes@.len() ==> Self::writes_node(
                            #[trigger] writes@[k],
                            path@[upto - 1 - k],
                            false,
                            renamed_last(start.node_at(*store, path@[upto - 1 - k]).unwrap(), *new_key),
                        )
                    &&& forall|j: int| 0 <= j < i ==> #[trigger] self.node_at(*store, path@[j]) == start.node_at(*store, path@[j])
                    &&& i > 0 ==> self.root_node() == start.root_node()
                    &&& i == 0 ==> node_view(self.root_node()) == renamed_last(start.root_node(), *new_key)
                    &&& self.allocator() == start.allocator()
                    &&& self.min_leaf() == start.min_leaf()
                    &&& self.max_leaf() == start.max_leaf()
                    &&& self.leaf_degree() == start.leaf_degree()
                    &&& self.inner_degree() == start.inner_degree()
                },
            ensures
                sp ==> {
                    &&& i == 0
                    &&& writes@.len() == upto - 1
                    &&& forall|k: int|
                        0 <= k < writes@.len() ==> Self::writes_node(
                            #[trigger] writes@[k],
                            path@[upto - 1 - k],
                            false,
                            renamed_last(start.node_at(*store, path@[upto - 1 - k]).unwrap(), *new_key),
                        )
                    &&& node_view(self.root_node()) == renamed_last(start.root_node(), *new_key)
                    &&& self.allocator() == start.allocator()
                    &&& self.min_leaf() == start.min_leaf()
                    &&& self.max_leaf() == start.max_leaf()
                    &&& self.leaf_degree() == start.leaf_degree()
                    &&& self.inner_degree() == start.inner_degree()
                },
                st ==> ({
                    let ni = path@[upto - 1];
                    let n = start.node_at(*store, ni).unwrap();
                    let q = lower_bound_spec(n.entry_seq(), *old_key);
                    &&& ni != 1 ==> writes@.len() == 1 && Self::writes_node(writes@[0], ni, false, renamed_at(n, q, *new_key))
                        && self.same_shape(start)
                    &&& ni == 1 ==> writes@.len() == 0 && node_view(self.root_node()) == renamed_at(n, q, *new_key)
                        && self.allocator() == start.allocator() && self.min_leaf() == start.min_leaf()
                        && self.max_leaf() == start.max_leaf() && self.leaf_degree() == start.leaf_degree()
                        && self.inner_degree() == start.inner_degree()
                }),
            decreases i,
        {
            i -= 1;
            let ni = path[i];
            let ghost before = *self;
            let ghost wbefore = writes@;
            proof {
                if st {
                    assert(self.node_at(*store, ni) is Some);
                }
                if sp {
                    assert(self.node_at(*store, path@[i as int]) == start.node_at(*store, path@[i as int]));
                    assert(start.node_at(*store, path@[i as int]) is Some);
                    if i == 0 {
                        assert(start.node_at(*store, 1) == Some(start.root_node()));
                    }
                    assert(self.node_at(*store, ni) is Some);
                }
            }
            let node = match self.read_node(ni, store) {
                Ok(n) => n,
                Err(e) => {
                    proof {
                        assert(!sp);
                    }
                    return Err(e);
                },
            };
            let (is_leaf, mut entries, prev, next) = node_parts(node);
            match find_key(&entries, old_key) {
                Ok(pos) => {
                    let is_last = pos == entries.len() - 1;
                    let e = entries[pos];
                    entries.set(pos, Entry { key: *new_key, value: e.value });
                    if let Some(tw) = self.write_node(ni, make_node(is_leaf, entries, prev, next), false) {
                        writes.push(tw);
                    }
                    proof {
                        if sp {
                            assert forall|j: int| 0 <= j < i implies #[trigger] self.node_at(*store, path@[j])
                                == start.node_at(*store, path@[j]) by {
                                assert(path@[j] != path@[i as int]);
                                assert(before.node_at(*store, path@[j]) == start.node_at(*store, path@[j]));
                                if path@[j] != 1 {
                                    assert(self.cache().content(path@[j]) == before.cache().content(path@[j]));
                                }
                            }
                            if i > 0 {
                                assert(path@[i as int] != 1) by {
                                    assert(path@[0] == 1);
                                }
                                assert(writes@.last() == writes@[writes@.len() - 1]);
                                assert forall|k: int| 0 <= k < writes@.len() implies Self::writes_node(
                                    #[trigger] writes@[k],
                                    path@[upto - 1 - k],
                                    false,
                                    renamed_last(start.node_at(*store, path@[upto - 1 - k]).unwrap(), *new_key),
                                ) by {
                                    if k < wbefore.len() {
                                        assert(writes@[k] == wbefore[k]);
                                    }
                                }
                            }
                        }
                    }
                    if !is_last {
                        break;
                    }
                },
                Err(_) => {
                    break;
                },
            }
        }
        Ok(writes)
    }
}


impl<K: TreeKey, V: Copy> BigOrderedMap<K, V> {
    /// Maps `key` to `value`, splitting nodes that grow past their degree;
    /// the slot writes come back. While the root is a leaf with room, the
    /// root takes the entry and nothing is written.
    #[verifier::spinoff_prover]
    #[verifier::rlimit(80)]
    pub fn tree_add(&mut self, key: K, value: V, store: &SlotStore<K, V>) -> (r: Result<
        Vec<TableWrite<K, V>>,
        TreeError,
    >)
        ensures
            old(self).root_node().leaf_flag() && sorted_keys(old(self).root_entries()) && (old(
                self,
            ).root_entries().len() < old(self).leaf_degree() || has_key_at_bound(old(self).root_entries(), key))
                ==> forall|s: SlotStore<K, V>| #[trigger] final(self).map_view(s) == old(self).map_view(s).insert(key, value),
            old(self).at_rest() && old(self).in_place_add(*store, key) && sorted_keys(
                old(self).search_end(*store, key).unwrap().entry_seq(),
            ) ==> (r matches Ok(w) && forall|s1: SlotStore<K, V>|
                stored_after(*store, w@, s1) ==> #[trigger] final(self).map_view(s1) == old(self).map_view(
                    *store,
                ).insert(key, value)),
            old(self).at_rest() && sorted_search(*old(self), *store, key) && old(self).extend_add_at(
                *store,
                old(self).key_search(*store, key).unwrap(),
                key,
            ) ==> (r matches Ok(w) && forall|s1: SlotStore<K, V>|
                stored_after(*store, w@, s1) ==> #[trigger] final(self).map_view(s1) == old(self).map_view(
                    *store,
                ).insert(key, value)),
            old(self).at_rest() && old(self).key_search(*store, key) is Some && old(self).leaf_split_at(
                *store,
                old(self).key_search(*store, key).unwrap(),
                key,
            ) && old(self).leaf_split_valid(*store, key) && split_parent_ok(*old(self), *store, key) && all_split_searches_ok(*old(self), *store, key) ==> (r matches Ok(w) && forall|
                s1: SlotStore<K, V>,
            |
                stored_after(*store, w@, s1) ==> #[trigger] final(self).map_view(s1) == old(self).map_view(
                    *store,
                ).insert(key, value)),
            old(self).at_rest() && old(self).key_search(*store, key) is Some && old(self).leaf_split_root_full_at(
                *store,
                old(self).key_search(*store, key).unwrap(),
                key,
            ) && old(self).leaf_split_valid(*store, key) && split_parent_ok(*old(self), *store, key) && all_short_split_searches_ok(
                *old(self),
                *store,
                key,
            ) ==> (r matches Ok(w) && forall|s1: SlotStore<K, V>|
                stored_after(*store, w@, s1) ==> #[trigger] final(self).map_view(s1) == old(self).map_view(
                    *store,
                ).insert(key, value)),
            old(self).root_split_add(key) && sorted_keys(old(self).root_entries()) ==> (r matches Ok(w) && forall|
                s1: SlotStore<K, V>,
            |
                stored_after(*store, w@, s1) ==> #[trigger] final(self).map_view(s1) == old(self).map_view(
                    *store,
                ).insert(key, value)),
            old(self).root_node().leaf_flag() && (old(self).root_entries().len() < old(self).leaf_degree()
                || has_key_at_bound(old(self).root_entries(), key)) ==> {
                &&& r matches Ok(w) && w@.len() == 0
                &&& final(self).root_entries() == upsert_entries(
                    old(self).root_entries(),
                    key,
                    Child::Leaf { value },
                )
                &&& final(self).root_node().leaf_flag()
                &&& final(self).allocator() == old(self).allocator()
                &&& final(self).min_leaf() == old(self).min_leaf()
                &&& final(self).max_leaf() == old(self).max_leaf()
                &&& final(self).leaf_degree() == old(self).leaf_degree()
                &&& final(self).inner_degree() == old(self).inner_degree()
            },
            old(self).at_rest() && old(self).in_place_add(*store, key) ==> (r matches Ok(w) && old(
                self,
            ).in_place_add_result(*store, key, value, *final(self), w@)),
            old(self).root_split_add(key) ==> (r matches Ok(w) && old(self).root_split_result(
                key,
                Child::Leaf { value },
                *final(self),
                w@,
            ) && final(self).at_rest()),
            old(self).at_rest() && old(self).key_search(*store, key) is Some && old(self).extend_add_at(
                *store,
                old(self).key_search(*store, key).unwrap(),
                key,
            ) ==> (r matches Ok(w) && old(self).extend_add_result_at(
                *store,
                old(self).key_search(*store, key).unwrap(),
                key,
                Child::Leaf { value },
                *final(self),
                w@,
            ) && final(self).at_rest()),
            old(self).at_rest() && old(self).key_search(*store, key) is Some && old(self).leaf_split_root_full_at(
                *store,
                old(self).key_search(*store, key).unwrap(),
                key,
            ) ==> (r matches Ok(w) && old(self).leaf_split_root_full_result_at(
                *store,
                old(self).key_search(*store, key).unwrap(),
                key,
                Child::Leaf { value },
                *final(self),
                w@,
            ) && final(self).at_rest()),
            old(self).at_rest() && old(self).key_search(*store, key) is Some && old(self).leaf_split_at(
                *store,
                old(self).key_search(*store, key).unwrap(),
                key,
            ) ==> (r matches Ok(w) && old(self).leaf_split_result_at(
                *store,
                old(self).key_search(*store, key).unwrap(),
                key,
                Child::Leaf { value },
                *final(self),
                w@,
            ) && final(self).at_rest()),
            old(self).at_rest() && old(self).key_search(*store, key) is Some && old(self).leaf_split_parent_split_at(
                *store,
                old(self).key_search(*store, key).unwrap(),
                key,
            ) ==> (r matches Ok(w) ==> old(self).leaf_split_parent_split_result_at(
                *store,
                old(self).key_search(*store, key).unwrap(),
                key,
                Child::Leaf { value },
                *final(self),
                w@,
            ) && final(self).at_rest()),
            old(self).at_rest() && old(self).key_search(*store, key) is Some && old(self).leaf_split_parent_split_at(
                *store,
                old(self).key_search(*store, key).unwrap(),
                key,
            ) && old(self).grandparent_takes_split(*store, old(self).key_search(*store, key).unwrap(), key)
                ==> r is Ok,
            old(self).at_rest() && old(self).key_search(*store, key) is Some && old(self).leaf_split_goes_through(
                *store,
                old(self).key_search(*store, key).unwrap(),
                key,
            ) ==> r is Ok,
            old(self).at_rest() && old(self).key_search(*store, key) is Some && old(self).leaf_split_goes_through(
                *store,
                old(self).key_search(*store, key).unwrap(),
                key,
            ) && !has_key_at_bound(old(self).search_end(*store, key).unwrap().entry_seq(), key)
                && crate::tree_add_law::deep_add_ok(*old(self), *store, key) ==> (r matches Ok(w) && forall|
                s1: SlotStore<K, V>,
            |
                stored_after(*store, w@, s1) ==> #[trigger] final(self).map_view(s1) == old(self).map_view(
                    *store,
                ).insert(key, value)),
            old(self).at_rest() && old(self).key_search(*store, key) is Some && old(self).leaf_split_goes_through(
                *store,
                old(self).key_search(*store, key).unwrap(),
                key,
            ) && !has_key_at_bound(old(self).search_end(*store, key).unwrap().entry_seq(), key) ==> (r matches Ok(w)
                && old(self).leaf_split_writes(
                *store,
                old(self).key_search(*store, key).unwrap(),
                key,
                Child::Leaf { value },
                *final(self),
                w@,
            ) && final(self).at_rest()),
    {
        self.clear_cache();
        proof {
            if old(self).at_rest() {
                assert forall|idx: u64| #[trigger] self.node_at(*store, idx) == old(self).node_at(*store, idx) by {
                    assert(old(self).cache().content(idx) is None);
                }
                old(self).lemma_search_same_nodes(*self, *store, key, 1, 20);
            }
            old(self).lemma_search_path_ends(*store, key, 1, 20);
            if old(self).in_place_add(*store, key) {
                reveal_with_fuel(BigOrderedMap::search_path, 2);
            }
        }
        let ghost mid = *self;
        let root_is_leaf = node_is_leaf(self.root_ref());
        if root_is_leaf {
            let count = node_entry_count(self.root_ref());
            let max = self.leaf_max();
            if count < max {
                let root = copy_node(self.root_ref());
                let (is_leaf, mut entries, prev, next) = node_parts(root);
                let pos = lower_bound(&entries, &key);
                if pos < entries.len() && same_key(&entries[pos].key, &key) {
                    entries.set(pos, Entry { key, value: Child::Leaf { value } });
                } else {
                    entries.insert(pos, Entry { key, value: Child::Leaf { value } });
                }
                self.set_root(make_node(is_leaf, entries, prev, next));
                proof {
                    if sorted_keys(old(self).root_entries()) {
                        assert forall|s: SlotStore<K, V>| #[trigger] self.map_view(s) == old(self).map_view(s).insert(
                            key,
                            value,
                        ) by {
                            lemma_leaf_root_add_view(*old(self), *self, s, key, value);
                        }
                    }
                }
                return Ok(Vec::new());
            }
        }
        let path = self.tree_find_leaf_path(&key, store)?;
        if path.len() == 0 {
            return Err(TreeError::EmptyPath);
        }
        proof {
            if old(self).at_rest() && old(self).key_search(*store, key) is Some && old(
                self,
            ).leaf_split_goes_through(*store, old(self).key_search(*store, key).unwrap(), key) {
                let p = path@;
                let n = old(self).node_at(*store, p.last()).unwrap();
                let es = n.entry_seq();
                let t = (old(self).leaf_degree() + 1) / 2;
                let prev = n.prev_link();
                let nf = old(self).allocator().next_fresh();
                let d = if prev != 0 {
                    Set::<u64>::empty().insert(prev)
                } else {
                    Set::<u64>::empty()
                };
                assert(p == old(self).key_search(*store, key).unwrap());
                assert(self.node_at(*store, p.last()) == old(self).node_at(*store, p.last()));
                assert(prev != 0 ==> self.node_at(*store, prev) == old(self).node_at(*store, prev));
                old(self).lemma_cascade_frame(
                    *self,
                    *store,
                    p.drop_last(),
                    grown_key_at(es, key, t - 1),
                    nf,
                    p.last(),
                    grown_key_at(es, key, es.len() as int),
                    (nf + 1) as u64,
                    d,
                );
                assert(self.leaf_split_goes_through(*store, p, key));
            }
        }
        let ghost mid = *self;
        let ghost path_v = path@;
        let result = self.tree_add_at(path, key, Child::Leaf { value }, store);
        let ghost after_at = *self;
        self.clear_cache();
        proof {
            if old(self).at_rest() && old(self).key_search(*store, key) is Some && old(self).leaf_split_goes_through(
                *store,
                old(self).key_search(*store, key).unwrap(),
                key,
            ) && !has_key_at_bound(old(self).search_end(*store, key).unwrap().entry_seq(), key) {
                let p = path_v;
                let n = old(self).node_at(*store, p.last()).unwrap();
                let es = n.entry_seq();
                let t = (old(self).leaf_degree() + 1) / 2;
                let nf = old(self).allocator().next_fresh();
                let w = result->Ok_0@;
                let k: int = if n.prev_link() != 0 {
                    1
                } else {
                    0
                };
                assert(mid.node_at(*store, p.last()) == old(self).node_at(*store, p.last()));
                assert(mid.leaf_split_goes_through(*store, p, key));
                mid.lemma_cascade_writes_frame(
                    *old(self),
                    *store,
                    p.drop_last(),
                    grown_key_at(es, key, t - 1),
                    nf,
                    p.last(),
                    grown_key_at(es, key, es.len() as int),
                    (nf + 1) as u64,
                    if n.prev_link() != 0 {
                        Set::<u64>::empty().insert(n.prev_link())
                    } else {
                        Set::<u64>::empty()
                    },
                    after_at,
                    w.skip(k + 2),
                );
                old(self).lemma_cascade_writes_after(
                    *store,
                    p.drop_last(),
                    grown_key_at(es, key, t - 1),
                    nf,
                    p.last(),
                    grown_key_at(es, key, es.len() as int),
                    (nf + 1) as u64,
                    after_at,
                    *self,
                    w.skip(k + 2),
                );
                if n.prev_link() != 0 {
                    assert(mid.node_at(*store, n.prev_link()) == old(self).node_at(*store, n.prev_link()));
                }
            }
        }
        proof {
            if old(self).root_node().leaf_flag() && sorted_keys(old(self).root_entries()) && (old(
                self,
            ).root_entries().len() < old(self).leaf_degree() || has_key_at_bound(old(self).root_entries(), key)) {
                assert forall|s: SlotStore<K, V>| #[trigger] self.map_view(s) == old(self).map_view(s).insert(
                    key,
                    value,
                ) by {
                    lemma_leaf_root_add_view(*old(self), *self, s, key, value);
                }
            }
            if result is Ok {
                let w = result->Ok_0@;
                if old(self).at_rest() && old(self).in_place_add(*store, key) && sorted_keys(
                    old(self).search_end(*store, key).unwrap().entry_seq(),
                ) {
                    assert forall|s1: SlotStore<K, V>| stored_after(*store, w, s1) implies #[trigger] self.map_view(s1)
                        == old(self).map_view(*store).insert(key, value) by {
                        lemma_in_place_add_view(*old(self), *store, key, value, *self, w, s1);
                    }
                }
                if old(self).at_rest() && sorted_search(*old(self), *store, key) && old(self).extend_add_at(
                    *store,
                    old(self).key_search(*store, key).unwrap(),
                    key,
                ) {
                    assert forall|s1: SlotStore<K, V>| stored_after(*store, w, s1) implies #[trigger] self.map_view(s1)
                        == old(self).map_view(*store).insert(key, value) by {
                        lemma_extend_add_view(*old(self), *store, key, value, *self, w, s1);
                    }
                }
                if old(self).at_rest() && old(self).key_search(*store, key) is Some && old(self).leaf_split_at(
                    *store,
                    old(self).key_search(*store, key).unwrap(),
                    key,
                ) && old(self).leaf_split_valid(*store, key) && split_parent_ok(*old(self), *store, key) && all_split_searches_ok(*old(self), *store, key) {
                    assert forall|s1: SlotStore<K, V>| stored_after(*store, w, s1) implies #[trigger] self.map_view(s1)
                        == old(self).map_view(*store).insert(key, value) by {
                        lemma_leaf_split_add_view(*old(self), *store, key, value, *self, w, s1);
                    }
                }
                if old(self).at_rest() && old(self).key_search(*store, key) is Some
                    && old(self).leaf_split_root_full_at(*store, old(self).key_search(*store, key).unwrap(), key)
                    && old(self).leaf_split_valid(*store, key) && split_parent_ok(*old(self), *store, key) && all_short_split_searches_ok(
                    *old(self),
                    *store,
                    key,
                ) {
                    assert forall|s1: SlotStore<K, V>| stored_after(*store, w, s1) implies #[trigger] self.map_view(s1)
                        == old(self).map_view(*store).insert(key, value) by {
                        lemma_root_full_split_add_view(*old(self), *store, key, value, *self, w, s1);
                    }
                }
                if old(self).root_split_add(key) && sorted_keys(old(self).root_entries()) {
                    assert forall|s1: SlotStore<K, V>| stored_after(*store, w, s1) implies #[trigger] self.map_view(s1)
                        == old(self).map_view(*store).insert(key, value) by {
                        lemma_root_split_add_view(*old(self), *store, key, value, *self, w, s1);
                    }
                }
                if old(self).at_rest() && old(self).key_search(*store, key) is Some && old(self).leaf_split_goes_through(
                    *store,
                    old(self).key_search(*store, key).unwrap(),
                    key,
                ) && !has_key_at_bound(old(self).search_end(*store, key).unwrap().entry_seq(), key)
                    && crate::tree_add_law::deep_add_ok(*old(self), *store, key) {
                    assert forall|s1: SlotStore<K, V>| stored_after(*store, w, s1) implies #[trigger] self.map_view(s1)
                        == old(self).map_view(*store).insert(key, value) by {
                        crate::tree_add_law::lemma_deep_add_view(*old(self), *store, key, value, *self, w, s1);
                    }
                }
            }
        }
        result
    }

    /// Puts `child` under `key` into the node at the end of `path`: in
    /// place where there is room or the key is there, else by splitting the
    /// node (the root moves down first) and passing the split up.
    #[verifier::spinoff_prover]
    #[verifier::rlimit(60)]
    fn tree_add_at(&mut self, path: Vec<u64>, key: K, child: Child<V>, store: &SlotStore<K, V>) -> (r:
        Result<Vec<TableWrite<K, V>>, TreeError>)
        ensures
            ({
                let ni = path@.last();
                let n = old(self).node_at(*store, ni).unwrap();
                path@.len() >= 1 && ni != 1 && old(self).node_at(*store, ni) is Some && n.leaf_flag() && ((
                sorted_keys(n.entry_seq()) && has_key_at_bound(n.entry_seq(), key)) || (n.entry_seq().len() < old(
                self,
            ).leaf_degree() && (
                path@.len() == 1 || n.entry_seq().len() == 0 || !n.entry_seq().last().key.key_lt(key)))) ==> {
                    &&& r matches Ok(w) && w@.len() == 1 && w@[0].slot_index == ni && !w@[0].is_new
                        && (w@[0].data matches Link::Occupied { value: nd } && node_view(nd) == (
                        true,
                        upsert_entries(n.entry_seq(), key, child),
                        n.prev_link(),
                        n.next_link(),
                    ))
                    &&& final(self).same_shape(*old(self))
                }
            }),
            path@ == seq![1u64] && old(self).root_split_add(key) ==> (r matches Ok(w) && old(
                self,
            ).root_split_result(key, child, *final(self), w@)),
            old(self).extend_add_at(*store, path@, key) ==> (r matches Ok(w) && old(self).extend_add_result_at(
                *store,
                path@,
                key,
                child,
                *final(self),
                w@,
            )),
            old(self).leaf_split_root_full_at(*store, path@, key) ==> (r matches Ok(w) && old(
                self,
            ).leaf_split_root_full_result_at(*store, path@, key, child, *final(self), w@)),
            old(self).leaf_split_at(*store, path@, key) ==> (r matches Ok(w) && old(self).leaf_split_result_at(
                *store,
                path@,
                key,
                child,
                *final(self),
                w@,
            )),
            old(self).leaf_split_parent_split_at(*store, path@, key) ==> (r matches Ok(w) ==> old(
                self,
            ).leaf_split_parent_split_result_at(*store, path@, key, child, *final(self), w@)),
            old(self).leaf_split_parent_split_at(*store, path@, key) && old(self).grandparent_takes_split(
                *store,
                path@,
                key,
            ) ==> r is Ok,
            path@ == seq![1u64] && old(self).root_node().leaf_flag() && has_key_at_bound(old(self).root_entries(), key)
                ==> (r matches Ok(w) && w@.len() == 0 && final(self).root_node().leaf_flag()
                && final(self).root_entries() == upsert_entries(old(self).root_entries(), key, child)
                && final(self).allocator() == old(self).allocator() && final(self).min_leaf() == old(
                self,
            ).min_leaf() && final(self).max_leaf() == old(self).max_leaf() && final(self).leaf_degree() == old(
                self,
            ).leaf_degree() && final(self).inner_degree() == old(self).inner_degree()),
            old(self).leaf_split_goes_through(*store, path@, key) ==> r is Ok,
            old(self).leaf_split_goes_through(*store, path@, key) && !has_key_at_bound(
                old(self).node_at(*store, path@.last()).unwrap().entry_seq(),
                key,
            ) ==> (r matches Ok(w) && old(self).leaf_split_writes(*store, path@, key, child, *final(self), w@)),
    {
        let ghost p0 = path@;
        let mut writes: Vec<TableWrite<K, V>> = Vec::new();
        let mut path = path;
        let node_index = match path.pop() {
            Some(i) => i,
            None => {
                return Err(TreeError::EmptyPath);
            },
        };
        let node = self.read_node(node_index, store)?;
        let (is_leaf, mut entries, old_prev, old_next) = node_parts(node);
        let max_degree = if is_leaf {
            self.leaf_max()
        } else {
            self.inner_max()
        };
        let cur_len = entries.len();
        if cur_len < max_degree {
            let old_max: Option<K> = if cur_len > 0 {
                Some(entries[cur_len - 1].key)
            } else {
                None
            };
            proof {
                if cur_len > 0 && sorted_keys(entries@) && has_key_at_bound(entries@, key) {
                    let p = lower_bound_spec(entries@, key);
                    let last = entries@[cur_len - 1].key;
                    lemma_lower_bound_range(entries@, key);
                    K::lemma_key_lt_irreflexive(key);
                    if p < cur_len - 1 && last.key_lt(key) {
                        assert(entries@[p].key.key_lt(entries@[cur_len - 1].key));
                        K::lemma_key_lt_transitive(key, last, key);
                    }
                }
            }
            let pos = lower_bound(&entries, &key);
            if pos < entries.len() && same_key(&entries[pos].key, &key) {
                let k = entries[pos].key;
                entries.set(pos, Entry { key: k, value: child });
            } else {
                entries.insert(pos, Entry { key, value: child });
            }
            let ghost before_leaf = *self;
            if let Some(tw) = self.write_node(node_index, make_node(is_leaf, entries, old_prev, old_next), false) {
                writes.push(tw);
            }
            if node_index != 1 && path.len() > 0 {
                if let Some(om) = old_max {
                    if key_less(&om, &key) {
                        proof {
                            if old(self).extend_add_at(*store, p0, key) {
                                assert(path@ == p0.drop_last());
                                assert forall|i: int| 0 <= i < path@.len() implies #[trigger] self.node_at(
                                    *store,
                                    path@[i],
                                ) == old(self).node_at(*store, path@[i]) by {
                                    assert(path@[i] == p0[i]);
                                    assert(p0[i] != node_index);
                                    if path@[i] != 1 {
                                        assert(self.cache().content(path@[i]) == before_leaf.cache().content(
                                            path@[i],
                                        ));
                                    }
                                }
                                assert(self.spine_rename(*store, path@, path@.len() as int, om));
                            }
                        }
                        let ghost wl = writes@;
                        let mut pw = self.tree_update_parent_key(&path, path.len(), &om, &key, store)?;
                        let ghost pws = pw@;
                        writes.append(&mut pw);
                        proof {
                            if old(self).extend_add_at(*store, p0, key) {
                                assert(writes@ == wl + pws);
                                assert forall|k: int| 0 <= k < p0.len() - 2 implies Self::writes_node(
                                    #[trigger] writes@[1 + k],
                                    p0[p0.len() - 2 - k],
                                    false,
                                    renamed_last(old(self).node_at(*store, p0[p0.len() - 2 - k]).unwrap(), key),
                                ) by {
                                    assert(writes@[1 + k] == pws[k]);
                                    assert(path@[path@.len() - 1 - k] == p0[p0.len() - 2 - k]);
                                }
                            }
                        }
                    }
                }
            }
            return Ok(writes);
        }
        if let Ok(pos) = find_key(&entries, &key) {
            let k = entries[pos].key;
            entries.set(pos, Entry { key: k, value: child });
            if let Some(tw) = self.write_node(node_index, make_node(is_leaf, entries, old_prev, old_next), false) {
                writes.push(tw);
            }
            return Ok(writes);
        }
        if node_index == 1 {
            if path.len() != 0 {
                return Err(TreeError::MalformedTree);
            }
            let ghost es0 = entries@;
            let ghost a0 = self.allocator();
            let (right_slot, right_slot_new) = self.alloc_slot_reuse(store)?;
            let overall_max = if entries.len() > 0 && !key_less(&entries[entries.len() - 1].key, &key) {
                entries[entries.len() - 1].key
            } else {
                key
            };
            let mut root_entries: Vec<Entry<K, Child<V>>> = Vec::new();
            root_entries.push(
                Entry { key: overall_max, value: Child::Inner { node_index: StoredSlot { slot_index: right_slot } } },
            );
            self.set_root(make_node(false, root_entries, 0, 0));
            if is_leaf {
                self.set_leaf_bounds(right_slot, right_slot);
            }
            let pos = lower_bound(&entries, &key);
            entries.insert(pos, Entry { key, value: child });
            let target_size = (max_degree + 1) / 2;
            if target_size == 0 || target_size > entries.len() {
                return Err(TreeError::MalformedTree);
            }
            let ghost grown = entries@;
            let right_entries = entries.split_off(target_size);
            let left_max_key = entries[entries.len() - 1].key;
            let (left_slot, left_slot_new) = self.alloc_slot_reuse(store)?;
            proof {
                assert(entries@ =~= grown.take(target_size as int));
                assert(right_entries@ =~= grown.skip(target_size as int));
            }
            let left_node = make_node(is_leaf, entries, 0, right_slot);
            let right_node = make_node(is_leaf, right_entries, left_slot, 0);
            let mut new_root_entries: Vec<Entry<K, Child<V>>> = Vec::new();
            new_root_entries.push(
                Entry { key: left_max_key, value: Child::Inner { node_index: StoredSlot { slot_index: left_slot } } },
            );
            new_root_entries.push(
                Entry { key: overall_max, value: Child::Inner { node_index: StoredSlot { slot_index: right_slot } } },
            );
            proof {
                assert(new_root_entries@ =~= seq![
                    Entry::<K, Child<V>> {
                        key: left_max_key,
                        value: Child::Inner { node_index: StoredSlot { slot_index: left_slot } },
                    },
                    Entry::<K, Child<V>> {
                        key: overall_max,
                        value: Child::Inner { node_index: StoredSlot { slot_index: right_slot } },
                    },
                ]);
            }
            self.set_root(make_node(false, new_root_entries, 0, 0));
            if is_leaf {
                self.set_leaf_bounds(left_slot, right_slot);
            }
            writes.push(TableWrite { slot_index: left_slot, data: Link::Occupied { value: left_node }, is_new: left_slot_new });
            writes.push(TableWrite { slot_index: right_slot, data: Link::Occupied { value: right_node }, is_new: right_slot_new });
            proof {
                if path@ == Seq::<u64>::empty() && old(self).root_split_add(key) {
                    assert(es0 == old(self).root_entries());
                    assert(grown == old(self).grown_root(key, child));
                    assert(right_slot == a0.next_fresh());
                    assert(left_slot == a0.next_fresh() + 1);
                    assert(left_max_key == grown[target_size - 1].key);
                }
            }
            return Ok(writes);
        }
        let ghost es_n = entries@;
        let pos = lower_bound(&entries, &key);
        entries.insert(pos, Entry { key, value: child });
        let ghost g = entries@;
        let target_size = (max_degree + 1) / 2;
        if target_size == 0 || target_size >= entries.len() {
            return Err(TreeError::MalformedTree);
        }
        let right_entries = entries.split_off(target_size);
        let left_max_key = entries[entries.len() - 1].key;
        proof {
            assert(entries@ =~= g.take(target_size as int));
            assert(right_entries@ =~= g.skip(target_size as int));
            assert(left_max_key == grown_key_at(es_n, key, target_size - 1));
        }
        let ghost a0 = self.allocator();
        let (left_slot, left_slot_new) = self.alloc_slot_reuse(store)?;
        let left_node = make_node(is_leaf, entries, old_prev, node_index);
        let right_max_key = right_entries[right_entries.len() - 1].key;
        proof {
            assert(right_max_key == g.last().key);
            assert(right_max_key == grown_key_at(es_n, key, es_n.len() as int));
        }
        let right_node = make_node(is_leaf, right_entries, left_slot, old_next);
        let ghost before_prev = *self;
        if old_prev != 0 {
            let prev_node = self.read_node(old_prev, store)?;
            if let Some(tw) = self.write_node(old_prev, with_next(prev_node, left_slot), false) {
                writes.push(tw);
            }
        } else if is_leaf {
            let min_leaf = self.min_leaf_index_value();
            if min_leaf == node_index {
                let max_leaf = self.max_leaf_index_value();
                self.set_leaf_bounds(left_slot, max_leaf);
            }
        }
        writes.push(TableWrite { slot_index: left_slot, data: Link::Occupied { value: left_node }, is_new: left_slot_new });
        writes.push(TableWrite { slot_index: node_index, data: Link::Occupied { value: right_node }, is_new: false });
        let ghost mid_writes = writes@;
        let ghost mid = *self;
        proof {
            if old(self).leaf_split_at(*store, p0, key) {
                let pi = p0[p0.len() - 2];
                assert(path@ == p0.drop_last());
                assert(path@.last() == pi);
                assert(old(self).node_at(*store, old_prev) == before_prev.node_at(*store, old_prev));
                assert(mid.node_at(*store, pi) == old(self).node_at(*store, pi)) by {
                    if pi != 1 {
                        assert(mid.cache().content(pi) == old(self).cache().content(pi));
                    }
                }
                assert(a0 == old(self).allocator());
                assert(left_slot == a0.next_fresh());
            }
            if old(self).leaf_split_root_full_at(*store, p0, key) {
                assert(path@ == p0.drop_last());
                assert(path@.last() == 1);
                assert(mid.root_node() == old(self).root_node());
                assert(a0 == old(self).allocator());
                assert(left_slot == a0.next_fresh());
                assert(mid.allocator().next_fresh() == a0.next_fresh() + 1);
            }
        }
        proof {
            let nf0 = old(self).allocator().next_fresh();
            if old(self).leaf_split_goes_through(*store, p0, key) {
                let d = if old_prev != 0 {
                    Set::<u64>::empty().insert(old_prev)
                } else {
                    Set::<u64>::empty()
                };
                assert(path@ == p0.drop_last());
                assert(left_slot == nf0);
                assert forall|s: u64| !d.contains(s) implies #[trigger] self.node_at(*store, s) == old(self).node_at(
                    *store,
                    s,
                ) by {
                    if s != 1 {
                        assert(self.cache().content(s) == old(self).cache().content(s));
                    }
                }
                old(self).lemma_cascade_frame(
                    *self,
                    *store,
                    path@,
                    left_max_key,
                    left_slot,
                    node_index,
                    right_max_key,
                    (nf0 + 1) as u64,
                    d,
                );
                self.lemma_cascade_fewer_dirty(
                    *store,
                    path@,
                    left_max_key,
                    left_slot,
                    node_index,
                    right_max_key,
                    (nf0 + 1) as u64,
                    d,
                    Set::<u64>::empty(),
                );
            }
        }
        let ghost mid2 = *self;
        let ghost wl2 = writes@;
        let mut parent_writes = self.tree_add_split_children(
            path,
            left_max_key,
            left_slot,
            node_index,
            right_max_key,
            is_leaf,
            store,
        )?;
        let ghost pw2 = parent_writes@;
        writes.append(&mut parent_writes);
        proof {
            let nf0 = old(self).allocator().next_fresh();
            if old(self).leaf_split_goes_through(*store, p0, key) && !has_key_at_bound(es_n, key) {
                let d = if old_prev != 0 {
                    Set::<u64>::empty().insert(old_prev)
                } else {
                    Set::<u64>::empty()
                };
                let k: int = if old_prev != 0 {
                    1
                } else {
                    0
                };
                assert forall|s: u64| !d.contains(s) implies #[trigger] mid2.node_at(*store, s) == old(self).node_at(
                    *store,
                    s,
                ) by {
                    if s != 1 {
                        assert(mid2.cache().content(s) == old(self).cache().content(s));
                    }
                }
                old(self).lemma_cascade_writes_frame(
                    mid2,
                    *store,
                    path@,
                    left_max_key,
                    left_slot,
                    node_index,
                    right_max_key,
                    (nf0 + 1) as u64,
                    d,
                    *self,
                    pw2,
                );
                assert(wl2.len() == k + 2);
                assert(writes@.skip(k + 2) =~= pw2);
                assert(writes@.take(k + 2) =~= wl2);
            }
        }
        Ok(writes)
    }

    /// After a node split into a new left slot and its old slot on the
    /// right, updates the parent at the end of `path`: the right child's
    /// key, then the left child's entry; a parent grown past its degree
    /// splits in turn.
    #[verifier::spinoff_prover]
    #[verifier::rlimit(100)]
    fn tree_add_split_children(
        &mut self,
        path: Vec<u64>,
        left_max_key: K,
        left_slot: u64,
        right_node_index: u64,
        right_max_key: K,
        children_are_leaf: bool,
        store: &SlotStore<K, V>,
    ) -> (r: Result<Vec<TableWrite<K, V>>, TreeError>)
        ensures
            ({
                let pi = path@.last();
                let pn = old(self).node_at(*store, pi).unwrap();
                let pe = pn.entry_seq();
                let np = split_parent_entries(pe, right_node_index, right_max_key, left_slot, left_max_key);
                path@.len() >= 1 && old(self).node_at(*store, pi) is Some && sorted_keys(
                    renamed_child_entries(pe, right_node_index, right_max_key),
                ) && np.len() <= old(self).inner_degree() ==> {
                    &&& pi == 1 ==> (r matches Ok(w) && w@.len() == 0 && node_view(final(self).root_node()) == (
                        false,
                        np,
                        pn.prev_link(),
                        pn.next_link(),
                    ) && final(self).allocator() == old(self).allocator() && final(self).min_leaf() == old(
                        self,
                    ).min_leaf() && final(self).max_leaf() == old(self).max_leaf() && final(self).leaf_degree()
                        == old(self).leaf_degree() && final(self).inner_degree() == old(self).inner_degree())
                    &&& pi != 1 ==> (r matches Ok(w) && w@.len() == 1 && w@[0].slot_index == pi && !w@[0].is_new
                        && (w@[0].data matches Link::Occupied { value: nd } && node_view(nd) == (
                        false,
                        np,
                        pn.prev_link(),
                        pn.next_link(),
                    )) && final(self).same_shape(*old(self)))
                }
            }),
            ({
                let pn = old(self).root_node();
                let np = split_parent_entries(
                    pn.entry_seq(),
                    right_node_index,
                    right_max_key,
                    left_slot,
                    left_max_key,
                );
                let t2 = (old(self).inner_degree() + 1) / 2;
                let nf = old(self).allocator().next_fresh();
                path@.len() >= 1 && path@.last() == 1 && sorted_keys(
                    renamed_child_entries(pn.entry_seq(), right_node_index, right_max_key),
                ) && np.len() > old(self).inner_degree() >= 1 && old(self).allocator().hands_out_fresh(2) ==> (
                r matches Ok(w) && w@.len() == 2 && Self::writes_node(
                    w@[0],
                    (nf + 1) as u64,
                    true,
                    (false, np.take(t2), 0u64, nf),
                ) && Self::writes_node(w@[1], nf, true, (false, np.skip(t2), (nf + 1) as u64, 0u64)) && node_view(
                    final(self).root_node(),
                ) == (
                    false,
                    seq![
                        Entry::<K, Child<V>> {
                            key: np[t2 - 1].key,
                            value: Child::Inner { node_index: StoredSlot { slot_index: (nf + 1) as u64 } },
                        },
                        Entry::<K, Child<V>> {
                            key: np.last().key,
                            value: Child::Inner { node_index: StoredSlot { slot_index: nf } },
                        },
                    ],
                    0u64,
                    0u64,
                ) && final(self).allocator().next_fresh() == nf + 2 && final(self).leaf_degree() == old(
                    self,
                ).leaf_degree() && final(self).inner_degree() == old(self).inner_degree())
            }),
            ({
                let pi = path@.last();
                let pn = old(self).node_at(*store, pi).unwrap();
                let np = split_parent_entries(pn.entry_seq(), right_node_index, right_max_key, left_slot, left_max_key);
                let t2 = (old(self).inner_degree() + 1) / 2;
                let nf = old(self).allocator().next_fresh();
                let pp = pn.prev_link();
                let k = if pp != 0 {
                    1int
                } else {
                    0int
                };
                let gp = path@[path@.len() - 2];
                let gn = old(self).node_at(*store, gp).unwrap();
                let gnp = split_parent_entries(gn.entry_seq(), pi, np.last().key, nf, np[t2 - 1].key);
                path@.len() >= 2 && pi != 1 && old(self).node_at(*store, pi) is Some && sorted_keys(
                    renamed_child_entries(pn.entry_seq(), right_node_index, right_max_key),
                ) && np.len() > old(self).inner_degree() >= 1 && old(self).allocator().hands_out_fresh(1) && pp != 1
                    && (pp != 0 ==> old(self).node_at(*store, pp) is Some) ==> {
                    &&& r matches Ok(w) ==> {
                        &&& w@.len() >= k + 2
                        &&& pp != 0 ==> Self::writes_node(
                            w@[0],
                            pp,
                            false,
                            (
                                old(self).node_at(*store, pp).unwrap().leaf_flag(),
                                old(self).node_at(*store, pp).unwrap().entry_seq(),
                                old(self).node_at(*store, pp).unwrap().prev_link(),
                                nf,
                            ),
                        )
                        &&& Self::writes_node(w@[k], nf, true, (false, np.take(t2), pp, pi))
                        &&& Self::writes_node(w@[k + 1], pi, false, (false, np.skip(t2), nf, pn.next_link()))
                    }
                    &&& gp != pp && old(self).node_at(*store, gp) is Some && sorted_keys(
                        renamed_child_entries(gn.entry_seq(), pi, np.last().key),
                    ) && gnp.len() <= old(self).inner_degree() ==> {
                        &&& gp == 1 ==> (r matches Ok(w) && w@.len() == k + 2 && node_view(final(self).root_node()) == (
                            false,
                            gnp,
                            gn.prev_link(),
                            gn.next_link(),
                        ))
                        &&& gp != 1 ==> (r matches Ok(w) && w@.len() == k + 3 && Self::writes_node(
                            w@[k + 2],
                            gp,
                            false,
                            (false, gnp, gn.prev_link(), gn.next_link()),
                        ))
                    }
                }
            }),
            old(self).allocator().hands_out_fresh((path@.len() + 1) as nat) && old(self).split_cascade_ok(
                *store,
                path@,
                left_max_key,
                left_slot,
                right_node_index,
                right_max_key,
                old(self).allocator().next_fresh(),
                Set::<u64>::empty(),
            ) ==> r is Ok,
            old(self).allocator().hands_out_fresh((path@.len() + 1) as nat) && old(self).split_cascade_ok(
                *store,
                path@,
                left_max_key,
                left_slot,
                right_node_index,
                right_max_key,
                old(self).allocator().next_fresh(),
                Set::<u64>::empty(),
            ) ==> (r matches Ok(w) && old(self).cascade_writes(
                *store,
                path@,
                left_max_key,
                left_slot,
                right_node_index,
                right_max_key,
                old(self).allocator().next_fresh(),
                *final(self),
                w@,
            )),
        decreases path@.len(),
    {
        let ghost p0 = path@;
        let mut writes: Vec<TableWrite<K, V>> = Vec::new();
        let mut path = path;
        let parent_idx = match path.pop() {
            Some(i) => i,
            None => {
                return Err(TreeError::EmptyPath);
            },
        };
        let parent = self.read_node(parent_idx, store)?;
        let parent_max_degree = self.inner_max();
        let (_, mut parent_entries, old_prev, old_next) = node_parts(parent);
        let ghost pe0 = parent_entries@;
        let mut i: usize = 0;
        while i < parent_entries.len()
            invariant_except_break
                parent_entries@ == pe0,
            invariant
                i <= parent_entries@.len(),
                parent_entries@.len() == pe0.len(),
                forall|j: int| 0 <= j < i ==> !points_to(#[trigger] pe0[j].value, right_node_index),
            ensures
                i < pe0.len() ==> parent_entries@ == renamed_child_entries(pe0, right_node_index, right_max_key),
                i >= pe0.len() ==> parent_entries@ == pe0 && i == pe0.len(),
            decreases parent_entries@.len() - i,
        {
            let pe = parent_entries[i];
            if let Child::Inner { node_index } = pe.value {
                if node_index.slot_index == right_node_index {
                    proof {
                        lemma_child_slot_index(pe0, right_node_index, i as int);
                    }
                    parent_entries.set(i, Entry { key: right_max_key, value: pe.value });
                    break;
                }
            }
            i += 1;
        }
        proof {
            if i == pe0.len() {
                lemma_child_slot_index(pe0, right_node_index, i as int);
            }
        }
        sort_entries_by_key(&mut parent_entries);
        let pos = lower_bound(&parent_entries, &left_max_key);
        parent_entries.insert(
            pos,
            Entry { key: left_max_key, value: Child::Inner { node_index: StoredSlot { slot_index: left_slot } } },
        );
        if parent_entries.len() <= parent_max_degree {
            if let Some(tw) = self.write_node(parent_idx, make_node(false, parent_entries, old_prev, old_next), false) {
                writes.push(tw);
            }
            return Ok(writes);
        }
        let target_size = (parent_max_degree + 1) / 2;
        if target_size == 0 || target_size >= parent_entries.len() {
            return Err(TreeError::MalformedTree);
        }
        if parent_idx == 1 {
            let ghost npv = parent_entries@;
            let ghost a0 = self.allocator();
            let (right_slot, right_slot_new) = self.alloc_slot_reuse(store)?;
            let overall_max = parent_entries[parent_entries.len() - 1].key;
            let right_entries = parent_entries.split_off(target_size);
            let pleft_max_key = parent_entries[parent_entries.len() - 1].key;
            proof {
                assert(parent_entries@ =~= npv.take(target_size as int));
                assert(right_entries@ =~= npv.skip(target_size as int));
            }
            let (left_slot2, left_slot2_new) = self.alloc_slot_reuse(store)?;
            let left_inner = make_node(false, parent_entries, 0, right_slot);
            let right_inner = make_node(false, right_entries, left_slot2, 0);
            let mut root_entries: Vec<Entry<K, Child<V>>> = Vec::new();
            root_entries.push(
                Entry { key: pleft_max_key, value: Child::Inner { node_index: StoredSlot { slot_index: left_slot2 } } },
            );
            root_entries.push(
                Entry { key: overall_max, value: Child::Inner { node_index: StoredSlot { slot_index: right_slot } } },
            );
            proof {
                assert(root_entries@ =~= seq![
                    Entry::<K, Child<V>> {
                        key: pleft_max_key,
                        value: Child::Inner { node_index: StoredSlot { slot_index: left_slot2 } },
                    },
                    Entry::<K, Child<V>> {
                        key: overall_max,
                        value: Child::Inner { node_index: StoredSlot { slot_index: right_slot } },
                    },
                ]);
            }
            self.set_root(make_node(false, root_entries, 0, 0));
            writes.push(TableWrite { slot_index: left_slot2, data: Link::Occupied { value: left_inner }, is_new: left_slot2_new });
            writes.push(TableWrite { slot_index: right_slot, data: Link::Occupied { value: right_inner }, is_new: right_slot_new });
            proof {
                assert(a0 == old(self).allocator());
            }
            return Ok(writes);
        }
        let right_entries = parent_entries.split_off(target_size);
        let pleft_max_key = parent_entries[parent_entries.len() - 1].key;
        let (new_left_slot, new_left_slot_new) = self.alloc_slot_reuse(store)?;
        let left_inner = make_node(false, parent_entries, old_prev, parent_idx);
        let pright_max_key = right_entries[right_entries.len() - 1].key;
        let right_inner = make_node(false, right_entries, new_left_slot, old_next);
        if old_prev != 0 {
            let pn = self.read_node(old_prev, store)?;
            if let Some(tw) = self.write_node(old_prev, with_next(pn, new_left_slot), false) {
                writes.push(tw);
            }
        }
        writes.push(TableWrite { slot_index: new_left_slot, data: Link::Occupied { value: left_inner }, is_new: new_left_slot_new });
        writes.push(TableWrite { slot_index: parent_idx, data: Link::Occupied { value: right_inner }, is_new: false });
        proof {
            let nf0 = old(self).allocator().next_fresh();
            if old(self).allocator().hands_out_fresh((p0.len() + 1) as nat) && old(self).split_cascade_ok(
                *store,
                p0,
                left_max_key,
                left_slot,
                right_node_index,
                right_max_key,
                nf0,
                Set::<u64>::empty(),
            ) {
                let d = if old_prev != 0 {
                    Set::<u64>::empty().insert(old_prev)
                } else {
                    Set::<u64>::empty()
                };
                assert(path@ == p0.drop_last());
                assert(new_left_slot == nf0);
                assert forall|s: u64| !d.contains(s) implies #[trigger] self.node_at(*store, s) == old(self).node_at(
                    *store,
                    s,
                ) by {
                    if s != 1 {
                        assert(self.cache().content(s) == old(self).cache().content(s));
                    }
                }
                old(self).lemma_cascade_frame(
                    *self,
                    *store,
                    path@,
                    pleft_max_key,
                    new_left_slot,
                    parent_idx,
                    pright_max_key,
                    (nf0 + 1) as u64,
                    d,
                );
                self.lemma_cascade_fewer_dirty(
                    *store,
                    path@,
                    pleft_max_key,
                    new_left_slot,
                    parent_idx,
                    pright_max_key,
                    (nf0 + 1) as u64,
                    d,
                    Set::<u64>::empty(),
                );
            }
        }
        let ghost mid = *self;
        let ghost wl = writes@;
        let mut gp_writes = self.tree_add_split_children(
            path,
            pleft_max_key,
            new_left_slot,
            parent_idx,
            pright_max_key,
            false,
            store,
        )?;
        let ghost gw = gp_writes@;
        writes.append(&mut gp_writes);
        proof {
            let nf0 = old(self).allocator().next_fresh();
            if old(self).allocator().hands_out_fresh((p0.len() + 1) as nat) && old(self).split_cascade_ok(
                *store,
                p0,
                left_max_key,
                left_slot,
                right_node_index,
                right_max_key,
                nf0,
                Set::<u64>::empty(),
            ) {
                let d = if old_prev != 0 {
                    Set::<u64>::empty().insert(old_prev)
                } else {
                    Set::<u64>::empty()
                };
                let k: int = if old_prev != 0 {
                    1
                } else {
                    0
                };
                assert forall|s: u64| !d.contains(s) implies #[trigger] mid.node_at(*store, s) == old(self).node_at(
                    *store,
                    s,
                ) by {
                    if s != 1 {
                        assert(mid.cache().content(s) == old(self).cache().content(s));
                    }
                }
                old(self).lemma_cascade_writes_frame(
                    mid,
                    *store,
                    path@,
                    pleft_max_key,
                    new_left_slot,
                    parent_idx,
                    pright_max_key,
                    (nf0 + 1) as u64,
                    d,
                    *self,
                    gw,
                );
                assert(wl.len() == k + 2);
                assert(writes@.skip(k + 2) =~= gw);
                assert(writes@.take(k + 2) =~= wl);
            }
        }
        Ok(writes)
    }
}


/// Whether `c` is the child node in slot `slot`.
pub open spec fn points_to<V>(c: Child<V>, slot: u64) -> bool {
    c matches Child::Inner { node_index } && node_index.slot_index == slot
}

/// The index of the first entry of `es` whose child is in slot `slot`;
/// the length of `es` where there is none.
pub open spec fn child_slot_index<K, V>(es: Seq<Entry<K, Child<V>>>, slot: u64) -> int
    decreases es.len(),
{
    if es.len() == 0 {
        0
    } else if points_to(es[0].value, slot) {
        0
    } else {
        1 + child_slot_index(es.drop_first(), slot)
    }
}

pub proof fn lemma_child_slot_index<K, V>(es: Seq<Entry<K, Child<V>>>, slot: u64, i: int)
    requires
        0 <= i <= es.len(),
        forall|j: int| 0 <= j < i ==> !points_to(#[trigger] es[j].value, slot),
        i == es.len() || points_to(es[i].value, slot),
    ensures
        child_slot_index(es, slot) == i,
    decreases i,
{
    if i > 0 {
        assert forall|j: int| 0 <= j < i - 1 implies !points_to(#[trigger] es.drop_first()[j].value, slot) by {
            assert(es.drop_first()[j] == es[j + 1]);
        }
        if i < es.len() {
            assert(es.drop_first()[i - 1] == es[i]);
        }
        lemma_child_slot_index(es.drop_first(), slot, i - 1);
    }
}

/// A parent's entries after its child in slot `right` split into a new
/// left child in slot `left`: the child's entry takes the right part's
/// largest key, then the left child's entry goes in at its key's place.
pub open spec fn split_parent_entries<K: TreeKey, V>(
    pe: Seq<Entry<K, Child<V>>>,
    right: u64,
    right_max: K,
    left: u64,
    left_max: K,
) -> Seq<Entry<K, Child<V>>> {
    let ci = child_slot_index(pe, right);
    let u = if ci < pe.len() {
        pe.update(ci, Entry { key: right_max, value: pe[ci].value })
    } else {
        pe
    };
    u.insert(
        lower_bound_spec(u, left_max),
        Entry { key: left_max, value: Child::Inner { node_index: StoredSlot { slot_index: left } } },
    )
}

/// The parent's entries with the child's key updated, before the left
/// child's entry goes in.
pub open spec fn renamed_child_entries<K: TreeKey, V>(pe: Seq<Entry<K, Child<V>>>, right: u64, right_max: K) -> Seq<
    Entry<K, Child<V>>,
> {
    let ci = child_slot_index(pe, right);
    if ci < pe.len() {
        pe.update(ci, Entry { key: right_max, value: pe[ci].value })
    } else {
        pe
    }
}

/// The key at index `i` of `es` once `key`, which it lacks, is put in at
/// its place.
pub open spec fn grown_key_at<K: TreeKey, C>(es: Seq<Entry<K, C>>, key: K, i: int) -> K {
    let pos = lower_bound_spec(es, key);
    if i < pos {
        es[i].key
    } else if i == pos {
        key
    } else {
        es[i - 1].key
    }
}

/// A node's parts with the key of its entry at `q` renamed.
pub open spec fn renamed_at<K, V>(n: Node<K, V>, q: int, new_key: K) -> (bool, Seq<Entry<K, Child<V>>>, u64, u64) {
    let es = n.entry_seq();
    (n.leaf_flag(), es.update(q, Entry { key: new_key, value: es[q].value }), n.prev_link(), n.next_link())
}

/// A node's parts with the key of its last entry renamed.
pub open spec fn renamed_last<K, V>(n: Node<K, V>, new_key: K) -> (bool, Seq<Entry<K, Child<V>>>, u64, u64) {
    let es = n.entry_seq();
    (n.leaf_flag(), es.update(es.len() - 1, Entry { key: new_key, value: es.last().value }), n.prev_link(), n.next_link())
}

/// The first `n` slots of `path`.
fn path_prefix(path: &Vec<u64>, n: usize) -> (r: Vec<u64>)
    requires
        n <= path@.len(),
    ensures
        r@ == path@.take(n as int),
{
    let mut out: Vec<u64> = Vec::new();
    let mut i: usize = 0;
    while i < n
        invariant
            i <= n <= path@.len(),
            out@ == path@.take(i as int),
        decreases n - i,
    {
        out.push(path[i]);
        i += 1;
        assert(out@ =~= path@.take(i as int));
    }
    out
}

fn with_prev<K, V>(n: Node<K, V>, prev: u64) -> (r: Node<K, V>)
    ensures
        r.leaf_flag() == n.leaf_flag(),
        r.entry_seq() == n.entry_seq(),
        r.prev_link() == prev,
        r.next_link() == n.next_link(),
{
    let (is_leaf, entries, _, next) = node_parts(n);
    make_node(is_leaf, entries, prev, next)
}

impl<K: TreeKey, V: Copy> BigOrderedMap<K, V> {
    /// Removes `key`; its value and the slot writes come back. Nodes left
    /// under half full borrow from a neighbour or merge with it. While the
    /// root is a leaf, the root loses the entry and nothing is written.
    #[verifier::spinoff_prover]
    #[verifier::rlimit(80)]
    pub fn tree_remove(&mut self, key: &K, store: &SlotStore<K, V>) -> (r: Result<
        (Option<V>, Vec<TableWrite<K, V>>),
        TreeError,
    >)
        ensures
            old(self).at_rest() && old(self).key_search(*store, *key) is Some && old(self).underfull_borrow_at(
                *store,
                old(self).key_search(*store, *key).unwrap(),
                *key,
            ) && borrow_valid(*old(self), *store, *key) && borrow_prev_ok(*old(self), *store, *key)
                && all_borrow_prev_searches_ok(*old(self), *store, *key) ==> (r matches Ok((v, w)) && forall|
                s1: SlotStore<K, V>,
            |
                stored_after(*store, w@, s1) ==> #[trigger] final(self).map_view(s1) == old(self).map_view(
                    *store,
                ).remove(*key)),
            old(self).at_rest() && old(self).key_search(*store, *key) is Some && old(self).underfull_borrow_at(
                *store,
                old(self).key_search(*store, *key).unwrap(),
                *key,
            ) && borrow_valid(*old(self), *store, *key) && borrow_next_ok(*old(self), *store, *key)
                && all_borrow_searches_ok(*old(self), *store, *key) ==> (r matches Ok((v, w)) && forall|
                s1: SlotStore<K, V>,
            |
                stored_after(*store, w@, s1) ==> #[trigger] final(self).map_view(s1) == old(self).map_view(
                    *store,
                ).remove(*key)),
            old(self).at_rest() && !old(self).root_node().leaf_flag() && old(self).in_place_remove(*store, *key)
                && sorted_keys(old(self).search_end(*store, *key).unwrap().entry_seq()) ==> (r matches Ok((v, w))
                && forall|s1: SlotStore<K, V>|
                stored_after(*store, w@, s1) ==> #[trigger] final(self).map_view(s1) == old(self).map_view(
                    *store,
                ).remove(*key)),
            old(self).at_rest() && sorted_search(*old(self), *store, *key) && old(self).shrink_remove_at(
                *store,
                old(self).key_search(*store, *key).unwrap(),
                *key,
            ) && (forall|i: int|
                0 <= i < old(self).key_search(*store, *key).unwrap().len() - 1 && old(self).node_at(
                    *store,
                    old(self).key_search(*store, *key).unwrap()[i],
                ).unwrap().entry_seq().len() > 1 ==> ({
                    let es = old(self).node_at(*store, #[trigger] old(self).key_search(*store, *key).unwrap()[i]).unwrap().entry_seq();
                    let les = old(self).search_end(*store, *key).unwrap().entry_seq();
                    es[es.len() - 2].key.key_lt(les[les.len() - 2].key)
                })) ==> (r matches Ok((v, w)) && forall|s1: SlotStore<K, V>|
                stored_after(*store, w@, s1) ==> #[trigger] final(self).map_view(s1) == old(self).map_view(
                    *store,
                ).remove(*key)),
            old(self).root_node().leaf_flag() ==> {
                let es = old(self).root_entries();
                let p = lower_bound_spec(es, *key);
                &&& final(self).only_root_entries_changed(*old(self))
                &&& r matches Ok((v, w)) && w@.len() == 0 && v == (if has_key_at_bound(es, *key)
                    && es[p].value is Leaf {
                    Some(es[p].value->value)
                } else {
                    None::<V>
                })
                &&& final(self).root_entries() == (if has_key_at_bound(es, *key) {
                    es.remove(p)
                } else {
                    es
                })
            },
            old(self).at_rest() && old(self).key_search(*store, *key) is Some && old(self).shrink_remove_at(
                *store,
                old(self).key_search(*store, *key).unwrap(),
                *key,
            ) ==> (r matches Ok((v, w)) && old(self).shrink_remove_result_at(
                *store,
                old(self).key_search(*store, *key).unwrap(),
                *key,
                v,
                *final(self),
                w@,
            ) && final(self).at_rest()),
            old(self).at_rest() && old(self).key_search(*store, *key) is Some && old(self).underfull_remove_at(
                *store,
                old(self).key_search(*store, *key).unwrap(),
                *key,
            ) ==> (r matches Ok((v, w)) ==> old(self).underfull_remove_result_at(
                *store,
                old(self).key_search(*store, *key).unwrap(),
                *key,
                v,
                w@,
            ) && final(self).at_rest()),
            old(self).at_rest() && old(self).key_search(*store, *key) is Some && old(self).underfull_borrow_at(
                *store,
                old(self).key_search(*store, *key).unwrap(),
                *key,
            ) ==> (r matches Ok((v, w)) && old(self).underfull_remove_result_at(
                *store,
                old(self).key_search(*store, *key).unwrap(),
                *key,
                v,
                w@,
            ) && old(self).underfull_borrow_result_at(
                *store,
                old(self).key_search(*store, *key).unwrap(),
                *key,
                *final(self),
                w@,
            ) && final(self).at_rest()),
            old(self).at_rest() && old(self).key_search(*store, *key) is Some && old(self).underfull_merge_at(
                *store,
                old(self).key_search(*store, *key).unwrap(),
                *key,
            ) ==> (r matches Ok((v, w)) && old(self).underfull_remove_result_at(
                *store,
                old(self).key_search(*store, *key).unwrap(),
                *key,
                v,
                w@,
            ) && old(self).underfull_merge_result_at(
                *store,
                old(self).key_search(*store, *key).unwrap(),
                *key,
                *final(self),
                w@,
            ) && final(self).at_rest()),
            old(self).at_rest() && old(self).key_search(*store, *key) is Some && old(self).underfull_merge_prev_at(
                *store,
                old(self).key_search(*store, *key).unwrap(),
                *key,
            ) ==> (r matches Ok((v, w)) && old(self).underfull_merge_prev_writes_at(
                *store,
                old(self).key_search(*store, *key).unwrap(),
                *key,
                w@,
            )),
            old(self).at_rest() && old(self).key_search(*store, *key) is Some && old(self).underfull_merge_prev_at(
                *store,
                old(self).key_search(*store, *key).unwrap(),
                *key,
            ) && merge_prev_shape(*old(self), *store, *key) ==> (r matches Ok((v, w)) && forall|s1: SlotStore<K, V>|
                stored_after(*store, w@, s1) ==> #[trigger] final(self).map_view(s1) == old(self).map_view(
                    *store,
                ).remove(*key)),
            old(self).at_rest() && old(self).key_search(*store, *key) is Some && old(self).underfull_merge_next_at(
                *store,
                old(self).key_search(*store, *key).unwrap(),
                *key,
            ) && merge_next_shape(*old(self), *store, *key) ==> (r matches Ok((v, w)) && forall|s1: SlotStore<K, V>|
                stored_after(*store, w@, s1) ==> #[trigger] final(self).map_view(s1) == old(self).map_view(
                    *store,
                ).remove(*key)),
            old(self).at_rest() && old(self).key_search(*store, *key) is Some && old(self).underfull_merge_next_at(
                *store,
                old(self).key_search(*store, *key).unwrap(),
                *key,
            ) ==> (r matches Ok((v, w)) && old(self).underfull_merge_next_writes_at(
                *store,
                old(self).key_search(*store, *key).unwrap(),
                *key,
                w@,
            )),
            old(self).at_rest() && !old(self).root_node().leaf_flag() && old(self).in_place_remove(*store, *key) ==> (
            r matches Ok((v, w)) && old(self).in_place_remove_result(*store, *key, v, *final(self), w@)),
            old(self).at_rest() && !old(self).root_node().leaf_flag() && old(self).search_end(*store, *key) is Some
                && !has_key_at_bound(old(self).search_end(*store, *key).unwrap().entry_seq(), *key) ==> (r matches Ok(
                (v, w),
            ) && v is None && w@.len() == 0 && final(self).same_shape(*old(self)) && final(self).at_rest()),
    {
        if node_is_leaf(self.root_ref()) {
            match self {
                BigOrderedMap::BPlusTreeMap { root, .. } => match root {
                    Node::V1 { children, .. } => match children {
                        OrderedMap::SortedVectorMap { entries } => {
                            if let Ok(pos) = find_key(entries, key) {
                                let entry = entries.remove(pos);
                                if let Child::Leaf { value } = entry.value {
                                    return Ok((Some(value), Vec::new()));
                                }
                            }
                            return Ok((None, Vec::new()));
                        },
                    },
                },
            }
        }
        self.clear_cache();
        proof {
            if old(self).at_rest() {
                assert forall|idx: u64| #[trigger] self.node_at(*store, idx) == old(self).node_at(*store, idx) by {
                    assert(old(self).cache().content(idx) is None);
                }
                old(self).lemma_search_same_nodes(*self, *store, *key, 1, 20);
            }
            old(self).lemma_search_path_ends(*store, *key, 1, 20);
        }
        let path = self.tree_find_leaf_path(key, store)?;
        if path.len() == 0 {
            return Ok((None, Vec::new()));
        }
        let result = self.tree_remove_at(path, key, store);
        self.clear_cache();
        proof {
            if result is Ok {
                let v = result->Ok_0.0;
                let w = result->Ok_0.1@;
                if old(self).at_rest() && !old(self).root_node().leaf_flag() && old(self).in_place_remove(*store, *key)
                    && sorted_keys(old(self).search_end(*store, *key).unwrap().entry_seq()) {
                    assert forall|s1: SlotStore<K, V>| stored_after(*store, w, s1) implies #[trigger] self.map_view(s1)
                        == old(self).map_view(*store).remove(*key) by {
                        lemma_in_place_remove_view(*old(self), *store, *key, v, *self, w, s1);
                    }
                }
                if old(self).at_rest() && old(self).key_search(*store, *key) is Some && old(self).underfull_borrow_at(
                    *store,
                    old(self).key_search(*store, *key).unwrap(),
                    *key,
                ) && borrow_valid(*old(self), *store, *key) && borrow_next_ok(*old(self), *store, *key)
                    && all_borrow_searches_ok(*old(self), *store, *key) {
                    assert forall|s1: SlotStore<K, V>| stored_after(*store, w, s1) implies #[trigger] self.map_view(s1)
                        == old(self).map_view(*store).remove(*key) by {
                        lemma_borrow_next_remove_view(*old(self), *store, *key, v, *self, w, s1);
                    }
                }
                if old(self).at_rest() && old(self).key_search(*store, *key) is Some && old(self).underfull_borrow_at(
                    *store,
                    old(self).key_search(*store, *key).unwrap(),
                    *key,
                ) && borrow_valid(*old(self), *store, *key) && borrow_prev_ok(*old(self), *store, *key)
                    && all_borrow_prev_searches_ok(*old(self), *store, *key) {
                    assert forall|s1: SlotStore<K, V>| stored_after(*store, w, s1) implies #[trigger] self.map_view(s1)
                        == old(self).map_view(*store).remove(*key) by {
                        lemma_borrow_prev_remove_view(*old(self), *store, *key, v, *self, w, s1);
                    }
                }
                if old(self).at_rest() && old(self).key_search(*store, *key) is Some && old(self).underfull_merge_next_at(
                    *store,
                    old(self).key_search(*store, *key).unwrap(),
                    *key,
                ) && merge_next_shape(*old(self), *store, *key) {
                    assert forall|s1: SlotStore<K, V>| stored_after(*store, w, s1) implies #[trigger] self.map_view(s1)
                        == old(self).map_view(*store).remove(*key) by {
                        lemma_merge_next_remove_view(*old(self), *store, *key, v, *self, w, s1);
                    }
                }
                if old(self).at_rest() && old(self).key_search(*store, *key) is Some && old(self).underfull_merge_prev_at(
                    *store,
                    old(self).key_search(*store, *key).unwrap(),
                    *key,
                ) && merge_prev_shape(*old(self), *store, *key) {
                    assert forall|s1: SlotStore<K, V>| stored_after(*store, w, s1) implies #[trigger] self.map_view(s1)
                        == old(self).map_view(*store).remove(*key) by {
                        lemma_merge_prev_remove_view(*old(self), *store, *key, v, *self, w, s1);
                    }
                }
                if old(self).at_rest() && sorted_search(*old(self), *store, *key) && old(self).shrink_remove_at(
                    *store,
                    old(self).key_search(*store, *key).unwrap(),
                    *key,
                ) {
                    assert forall|s1: SlotStore<K, V>| stored_after(*store, w, s1) && (forall|i: int|
                        0 <= i < old(self).key_search(*store, *key).unwrap().len() - 1 && old(self).node_at(
                            *store,
                            old(self).key_search(*store, *key).unwrap()[i],
                        ).unwrap().entry_seq().len() > 1 ==> ({
                            let es = old(self).node_at(*store, #[trigger] old(self).key_search(*store, *key).unwrap()[i]).unwrap().entry_seq();
                            let les = old(self).search_end(*store, *key).unwrap().entry_seq();
                            es[es.len() - 2].key.key_lt(les[les.len() - 2].key)
                        })) implies #[trigger] self.map_view(s1) == old(self).map_view(*store).remove(*key) by {
                        lemma_shrink_remove_view(*old(self), *store, *key, v, *self, w, s1);
                    }
                }
            }
        }
        result
    }

    /// Removes `key` from the node at the end of `path` and restores the
    /// tree's shape around it.
    fn tree_remove_at(&mut self, path: Vec<u64>, key: &K, store: &SlotStore<K, V>) -> (r: Result<
        (Option<V>, Vec<TableWrite<K, V>>),
        TreeError,
    >)
        ensures
            ({
                let ni = path@.last();
                let n = old(self).node_at(*store, ni).unwrap();
                let es = n.entry_seq();
                let p = lower_bound_spec(es, *key);
                &&& path@.len() >= 1 && old(self).node_at(*store, ni) is Some && !has_key_at_bound(es, *key)
                    ==> (r matches Ok((v, w)) && v is None && w@.len() == 0 && *final(self) == *old(self))
                &&& path@.len() >= 1 && ni != 1 && old(self).node_at(*store, ni) is Some && n.leaf_flag()
                    && has_key_at_bound(es, *key) && es[p].value is Leaf && p != es.len() - 1 && es.len() - 1
                    >= (old(self).leaf_degree() + 1) / 2 ==> {
                    &&& r matches Ok((v, w)) && v == Some(es[p].value->value) && w@.len() == 1
                        && w@[0].slot_index == ni && !w@[0].is_new && (w@[0].data matches Link::Occupied {
                        value: nd,
                    } && node_view(nd) == (true, es.remove(p), n.prev_link(), n.next_link()))
                    &&& final(self).same_shape(*old(self))
                }
            }),
            old(self).shrink_remove_at(*store, path@, *key) ==> (r matches Ok((v, w)) && old(
                self,
            ).shrink_remove_result_at(*store, path@, *key, v, *final(self), w@)),
            old(self).underfull_remove_at(*store, path@, *key) ==> (r matches Ok((v, w)) ==> old(
                self,
            ).underfull_remove_result_at(*store, path@, *key, v, w@)),
            old(self).underfull_borrow_at(*store, path@, *key) ==> (r matches Ok((v, w)) && old(
                self,
            ).underfull_remove_result_at(*store, path@, *key, v, w@) && old(self).underfull_borrow_result_at(
                *store,
                path@,
                *key,
                *final(self),
                w@,
            )),
            old(self).underfull_merge_at(*store, path@, *key) ==> (r matches Ok((v, w)) && old(
                self,
            ).underfull_remove_result_at(*store, path@, *key, v, w@) && old(self).underfull_merge_result_at(
                *store,
                path@,
                *key,
                *final(self),
                w@,
            )),
            old(self).underfull_merge_next_at(*store, path@, *key) ==> (r matches Ok((v, w)) && old(
                self,
            ).underfull_merge_next_writes_at(*store, path@, *key, w@)),
            old(self).underfull_merge_prev_at(*store, path@, *key) ==> (r matches Ok((v, w)) && old(
                self,
            ).underfull_merge_prev_writes_at(*store, path@, *key, w@)),
    {
        let mut writes: Vec<TableWrite<K, V>> = Vec::new();
        if path.len() == 0 {
            return Err(TreeError::EmptyPath);
        }
        let node_index = path[path.len() - 1];
        let node = self.read_node(node_index, store)?;
        let (is_leaf, mut entries, prev, next) = node_parts(node);
        let pos = match find_key(&entries, key) {
            Ok(p) => p,
            Err(_) => {
                return Ok((None, Vec::new()));
            },
        };
        let removed = entries.remove(pos);
        let value = match removed.value {
            Child::Leaf { value } => value,
            Child::Inner { .. } => {
                return Err(TreeError::ExpectedLeafChild);
            },
        };
        let degree = entries.len();
        if node_index == 1 {
            if path.len() != 1 {
                return Err(TreeError::MalformedTree);
            }
            if !is_leaf && degree == 1 {
                let child_slot = match entries[0].value {
                    Child::Inner { node_index } => node_index.slot_index,
                    Child::Leaf { .. } => {
                        self.set_root(make_node(is_leaf, entries, prev, next));
                        return Ok((Some(value), writes));
                    },
                };
                let child = self.read_node(child_slot, store)?;
                if node_is_leaf(&child) {
                    self.set_leaf_bounds(1, 1);
                }
                self.set_root(child);
                if let Some(tw) = self.free_slot(child_slot)? {
                    writes.push(tw);
                }
            } else {
                self.set_root(make_node(is_leaf, entries, prev, next));
            }
            return Ok((Some(value), writes));
        }
        let max_degree = if is_leaf {
            self.leaf_max()
        } else {
            self.inner_max()
        };
        let big_enough = degree >= (max_degree + 1) / 2;
        let max_key_changed = pos == degree && degree >= 1;
        let new_max_key: Option<K> = if max_key_changed {
            Some(entries[degree - 1].key)
        } else {
            None
        };
        let ghost es_after = entries@;
        let node = make_node(is_leaf, entries, prev, next);
        if big_enough {
            let ghost before_leaf = *self;
            if let Some(tw) = self.write_node(node_index, node, false) {
                writes.push(tw);
            }
            if let Some(nmk) = new_max_key {
                proof {
                    if old(self).shrink_remove_at(*store, path@, *key) {
                        let es0 = old(self).node_at(*store, node_index).unwrap().entry_seq();
                        assert(es_after =~= es0.drop_last());
                        assert forall|i: int| 0 <= i < path@.len() - 1 implies #[trigger] self.node_at(
                            *store,
                            path@[i],
                        ) == old(self).node_at(*store, path@[i]) by {
                            assert(path@[i] != node_index);
                            if path@[i] != 1 {
                                assert(self.cache().content(path@[i]) == before_leaf.cache().content(path@[i]));
                            }
                        }
                        assert(self.spine_rename(*store, path@, path@.len() - 1, *key));
                    }
                }
                let ghost wl = writes@;
                let mut uw = self.tree_update_parent_key(&path, path.len() - 1, key, &nmk, store)?;
                let ghost uws = uw@;
                writes.append(&mut uw);
                proof {
                    if old(self).shrink_remove_at(*store, path@, *key) {
                        assert(writes@ == wl + uws);
                        assert forall|k: int| 0 <= k < path@.len() - 2 implies Self::writes_node(
                            #[trigger] writes@[1 + k],
                            path@[path@.len() - 2 - k],
                            false,
                            renamed_last(old(self).node_at(*store, path@[path@.len() - 2 - k]).unwrap(), nmk),
                        ) by {
                            assert(writes@[1 + k] == uws[k]);
                        }
                    }
                }
            }
            proof {
                if old(self).shrink_remove_at(*store, path@, *key) {
                    let es0 = old(self).node_at(*store, node_index).unwrap().entry_seq();
                    assert(es_after =~= es0.drop_last());
                    assert(es0.remove(es0.len() - 1) =~= es0.drop_last());
                }
            }
            return Ok((Some(value), writes));
        }
        if let Some(tw) = self.write_node(node_index, copy_node(&node), false) {
            writes.push(tw);
        }
        if let Some(nmk) = new_max_key {
            let mut uw = self.tree_update_parent_key(&path, path.len() - 1, key, &nmk, store)?;
            writes.append(&mut uw);
        }
        proof {
            if old(self).underfull_merge_at(*store, path@, *key) {
                let n = old(self).node_at(*store, node_index).unwrap();
                let pi = path@[path@.len() - 2];
                let pe = old(self).node_at(*store, pi).unwrap().entry_seq();
                let is_r = points_to(pe.last().value, node_index);
                let si = if is_r {
                    n.prev_link()
                } else {
                    n.next_link()
                };
                let sib = old(self).node_at(*store, si).unwrap();
                assert(new_max_key is None);
                assert forall|x: u64| x != node_index implies #[trigger] self.node_at(*store, x) == old(self).node_at(
                    *store,
                    x,
                ) by {
                    if x != 1 {
                        assert(self.cache().content(x) == old(self).cache().content(x));
                    }
                }
                assert(self.node_at(*store, pi) == old(self).node_at(*store, pi));
                assert(self.node_at(*store, si) == old(self).node_at(*store, si));
                assert(is_r ==> self.node_at(*store, n.next_link()) == old(self).node_at(*store, n.next_link()));
                assert(is_r ==> self.node_at(*store, sib.prev_link()) == old(self).node_at(*store, sib.prev_link()));
                assert(!is_r ==> self.node_at(*store, sib.next_link()) == old(self).node_at(*store, sib.next_link()));
                assert(!is_r ==> self.node_at(*store, n.prev_link()) == old(self).node_at(*store, n.prev_link()));
                assert(node_view(node) == (true, n.entry_seq().remove(lower_bound_spec(n.entry_seq(), *key)), n.prev_link(), n.next_link()));
            }
        }
        let ghost wl = writes@;
        let mut rw = self.process_rebalance_after_removal(node_index, &node, is_leaf, path, store)?;
        let ghost rws = rw@;
        writes.append(&mut rw);
        proof {
            if old(self).underfull_merge_at(*store, path@, *key) {
                assert(wl.len() == 1);
                assert(writes@.skip(1) =~= rws);
            }
        }
        Ok((Some(value), writes))
    }

    /// A node under half full takes an entry from its neighbour in the same
    /// parent (the previous one for the parent's last child, else the next)
    /// where the neighbour can spare one, else merges with it.
    fn process_rebalance_after_removal(
        &mut self,
        node_index: u64,
        node: &Node<K, V>,
        is_leaf: bool,
        path: Vec<u64>,
        store: &SlotStore<K, V>,
    ) -> (r: Result<Vec<TableWrite<K, V>>, TreeError>)
        ensures
            path@.len() < 2 ==> (r matches Err(TreeError::MalformedTree)),
            ({
                let pi = path@[path@.len() - 2];
                let pe = old(self).node_at(*store, pi).unwrap().entry_seq();
                let is_rightmost = points_to(pe.last().value, node_index);
                let si = if is_rightmost {
                    node.prev_link()
                } else {
                    node.next_link()
                };
                let sib = old(self).node_at(*store, si).unwrap();
                let max_degree: int = if is_leaf {
                    old(self).leaf_degree() as int
                } else {
                    old(self).inner_degree() as int
                };
                let t = Self::merge_target(node_view(*node), node_index, sib, si, is_rightmost);
                &&& path@.len() >= 2 && old(self).node_at(*store, pi) is None ==> r is Err
                &&& path@.len() >= 2 && old(self).node_at(*store, pi) is Some && pe.len() < 2 ==> (r matches Err(
                    TreeError::MalformedTree,
                ))
                &&& path@.len() >= 2 && old(self).node_at(*store, pi) is Some && pe.len() >= 2 ==> {
                    &&& si == 0 ==> (r matches Err(TreeError::MalformedTree))
                    &&& si != 0 && old(self).node_at(*store, si) is None ==> r is Err
                    &&& si != 0 && old(self).node_at(*store, si) is Some && sib.entry_seq().len() == 0 ==> (r matches Err(
                        TreeError::MalformedTree,
                    ))
                    &&& si != 0 && old(self).node_at(*store, si) is Some && sib.entry_seq().len() > 0
                        && node_index != 1 && si != 1 ==> {
                        &&& sib.entry_seq().len() - 1 >= (max_degree + 1) / 2 ==> (r matches Ok(w) ==> Self::borrow_writes(
                            node_view(*node),
                            node_index,
                            sib,
                            si,
                            is_rightmost,
                            w@,
                        ))
                        &&& sib.entry_seq().len() - 1 >= (max_degree + 1) / 2 && pi != node_index && pi != si
                            && node.entry_seq().len() > 0 && sib.entry_seq().len() > (if is_rightmost {
                            1int
                        } else {
                            0int
                        }) && old(self).rename_stops_at(
                            *store,
                            path@,
                            path@.len() - 1,
                            Self::borrow_rename(node_view(*node), sib, is_rightmost).0,
                        ) ==> ({
                            let ok = Self::borrow_rename(node_view(*node), sib, is_rightmost).0;
                            let nk = Self::borrow_rename(node_view(*node), sib, is_rightmost).1;
                            let pn = old(self).node_at(*store, pi).unwrap();
                            let q = lower_bound_spec(pn.entry_seq(), ok);
                            &&& r matches Ok(w)
                            &&& pi != 1 ==> w@.len() == 3 && Self::writes_node(w@[2], pi, false, renamed_at(pn, q, nk))
                        && final(self).root_node() == old(self).root_node()
                            &&& pi == 1 ==> w@.len() == 2 && node_view(final(self).root_node()) == renamed_at(pn, q, nk)
                        })
                        &&& sib.entry_seq().len() - 1 < (max_degree + 1) / 2 && old(self).merge_goes_through(
                            *store,
                            path@,
                            node_view(*node),
                            node_index,
                            sib,
                            si,
                            is_rightmost,
                        ) ==> (r matches Ok(w) && old(self).merge_result(
                            node_view(*node),
                            node_index,
                            sib,
                            si,
                            is_rightmost,
                            *final(self),
                            w@,
                        ))
                        &&& sib.entry_seq().len() - 1 < (max_degree + 1) / 2 && !is_rightmost && old(
                            self,
                        ).merge_next_plain(*store, path@, node_view(*node), node_index, sib, si) ==> (r matches Ok(w)
                            && old(self).merge_next_writes(*store, node_view(*node), sib, si, w@))
                        &&& sib.entry_seq().len() - 1 < (max_degree + 1) / 2 && is_rightmost && old(
                            self,
                        ).merge_prev_plain(*store, path@, node_view(*node), node_index, sib, si) ==> (r matches Ok(w)
                            && old(self).merge_prev_writes(*store, node_view(*node), node_index, sib, w@))
                        &&& sib.entry_seq().len() - 1 < (max_degree + 1) / 2 && node.prev_link() != 1
                            && node.next_link() != 1 && sib.prev_link() != 1 && sib.next_link() != 1 ==> (r matches Ok(
                            w,
                        ) ==> w@.len() > t.1 && Self::writes_node(w@[t.1], t.0, false, t.2))
                    }
                }
            }),
        decreases path@.len(), 1nat,
    {
        let mut writes: Vec<TableWrite<K, V>> = Vec::new();
        let max_degree = if is_leaf {
            self.leaf_max()
        } else {
            self.inner_max()
        };
        let (_, _, n_prev, n_next) = node_parts(copy_node(node));
        if path.len() < 2 {
            return Err(TreeError::MalformedTree);
        }
        let parent_index = path[path.len() - 2];
        let parent = self.read_node(parent_index, store)?;
        let parent_len = node_entry_count(&parent);
        if parent_len < 2 {
            return Err(TreeError::MalformedTree);
        }
        let is_rightmost = match node_entry_at(&parent, parent_len - 1).value {
            Child::Inner { node_index: ni } => ni.slot_index == node_index,
            Child::Leaf { .. } => false,
        };
        let sibling_index = if is_rightmost {
            n_prev
        } else {
            n_next
        };
        if sibling_index == 0 {
            return Err(TreeError::MalformedTree);
        }
        let sibling = self.read_node(sibling_index, store)?;
        let sibling_degree = node_entry_count(&sibling);
        if sibling_degree == 0 {
            return Err(TreeError::MalformedTree);
        }
        if sibling_degree - 1 >= (max_degree + 1) / 2 {
            let mut bw = self.rebalance_borrow(
                node_index,
                node,
                sibling_index,
                &sibling,
                is_rightmost,
                is_leaf,
                &path,
                store,
            )?;
            writes.append(&mut bw);
        } else {
            let mut mw = self.rebalance_merge(
                node_index,
                node,
                sibling_index,
                &sibling,
                is_rightmost,
                is_leaf,
                path,
                store,
            )?;
            writes.append(&mut mw);
        }
        Ok(writes)
    }

    /// Moves one entry from the neighbour into the node: the neighbour's
    /// first where it comes next, its last where it comes before; the
    /// parent keys follow.
    fn rebalance_borrow(
        &mut self,
        node_index: u64,
        node: &Node<K, V>,
        sibling_index: u64,
        sibling: &Node<K, V>,
        is_rightmost: bool,
        is_leaf: bool,
        path: &Vec<u64>,
        store: &SlotStore<K, V>,
    ) -> (r: Result<Vec<TableWrite<K, V>>, TreeError>)
        ensures
            path@.len() == 0 ==> r matches Err(TreeError::EmptyPath),
            path@.len() > 0 && (node.entry_seq().len() == 0 || sibling.entry_seq().len() == 0 || (is_rightmost
                && sibling.entry_seq().len() == 1)) ==> r matches Err(TreeError::MalformedTree),
            node_index != 1 && sibling_index != 1 ==> (r matches Ok(w) ==> Self::borrow_writes(
                node_view(*node),
                node_index,
                *sibling,
                sibling_index,
                is_rightmost,
                w@,
            )),
            ({
                let ok = Self::borrow_rename(node_view(*node), *sibling, is_rightmost).0;
                let nk = Self::borrow_rename(node_view(*node), *sibling, is_rightmost).1;
                let pi = path@[path@.len() - 2];
                let pn = old(self).node_at(*store, pi).unwrap();
                let q = lower_bound_spec(pn.entry_seq(), ok);
                node_index != 1 && sibling_index != 1 && path@.len() >= 2 && node.entry_seq().len() > 0
                    && sibling.entry_seq().len() > (if is_rightmost {
                    1int
                } else {
                    0int
                }) && pi != node_index && pi != sibling_index && old(self).rename_stops_at(
                    *store,
                    path@,
                    path@.len() - 1,
                    ok,
                ) ==> {
                    &&& r matches Ok(w)
                    &&& pi != 1 ==> w@.len() == 3 && Self::writes_node(w@[2], pi, false, renamed_at(pn, q, nk))
                        && final(self).root_node() == old(self).root_node()
                    &&& pi == 1 ==> w@.len() == 2 && node_view(final(self).root_node()) == renamed_at(pn, q, nk)
                }
            }),
    {
        let mut writes: Vec<TableWrite<K, V>> = Vec::new();
        if path.len() == 0 {
            return Err(TreeError::EmptyPath);
        }
        let ghost start = *self;
        let (n_leaf, mut n_entries, n_prev, n_next) = node_parts(copy_node(node));
        let (s_leaf, mut s_entries, s_prev, s_next) = node_parts(copy_node(sibling));
        if n_entries.len() == 0 || s_entries.len() == 0 {
            return Err(TreeError::MalformedTree);
        }
        if !is_rightmost {
            let old_max_key = n_entries[n_entries.len() - 1].key;
            let borrowed = s_entries.remove(0);
            n_entries.push(borrowed);
            let new_max_key = borrowed.key;
            proof {
                assert(s_entries@ =~= sibling.entry_seq().drop_first());
            }
            if let Some(tw) = self.write_node(node_index, make_node(n_leaf, n_entries, n_prev, n_next), false) {
                writes.push(tw);
            }
            if let Some(tw) = self.write_node(sibling_index, make_node(s_leaf, s_entries, s_prev, s_next), false) {
                writes.push(tw);
            }
            let ghost local = writes@;
            let mut uw = self.tree_update_parent_key(path, path.len() - 1, &old_max_key, &new_max_key, store)?;
            let ghost uws = uw@;
            writes.append(&mut uw);
            proof {
                assert(writes@ == local + uws);
                if node_index != 1 && sibling_index != 1 {
                    assert(writes@[0] == local[0] && writes@[1] == local[1]);
                }
            }
        } else {
            let borrowed = s_entries.remove(s_entries.len() - 1);
            let borrowed_max_key = borrowed.key;
            n_entries.insert(0, borrowed);
            if s_entries.len() == 0 {
                return Err(TreeError::MalformedTree);
            }
            let new_sibling_max = s_entries[s_entries.len() - 1].key;
            proof {
                let se = sibling.entry_seq();
                assert(s_entries@ =~= se.drop_last());
                assert(n_entries@ =~= seq![se.last()] + node.entry_seq());
                assert(new_sibling_max == se[se.len() - 2].key);
            }
            if let Some(tw) = self.write_node(node_index, make_node(n_leaf, n_entries, n_prev, n_next), false) {
                writes.push(tw);
            }
            if let Some(tw) = self.write_node(sibling_index, make_node(s_leaf, s_entries, s_prev, s_next), false) {
                writes.push(tw);
            }
            let ghost local = writes@;
            let mut uw = self.tree_update_parent_key(
                path,
                path.len() - 1,
                &borrowed_max_key,
                &new_sibling_max,
                store,
            )?;
            let ghost uws = uw@;
            writes.append(&mut uw);
            proof {
                assert(writes@ == local + uws);
                if node_index != 1 && sibling_index != 1 {
                    assert(writes@[0] == local[0] && writes@[1] == local[1]);
                }
            }
        }
        Ok(writes)
    }

    /// Merges the node with its neighbour into the slot of the one with the
    /// larger keys, frees the other slot, and removes the smaller one's
    /// entry from the parent.
    #[verifier::spinoff_prover]
    #[verifier::rlimit(60)]
    fn rebalance_merge(
        &mut self,
        node_index: u64,
        node: &Node<K, V>,
        sibling_index: u64,
        sibling: &Node<K, V>,
        is_rightmost: bool,
        is_leaf: bool,
        path: Vec<u64>,
        store: &SlotStore<K, V>,
    ) -> (r: Result<Vec<TableWrite<K, V>>, TreeError>)
        ensures
            path@.len() == 0 ==> (r matches Err(TreeError::EmptyPath)),
            path@.len() > 0 && !is_rightmost && node.entry_seq().len() == 0 ==> (r matches Err(
                TreeError::MalformedTree,
            )),
            path@.len() > 0 && is_rightmost && sibling.entry_seq().len() == 0 ==> (r matches Err(
                TreeError::MalformedTree,
            )),
            ({
                let sn = sibling.next_link();
                let np = node.prev_link();
                let k = (if sn != 0 {
                    1int
                } else {
                    0int
                }) + (if np != 0 {
                    1int
                } else {
                    0int
                });
                path@.len() > 0 && !is_rightmost && node.entry_seq().len() > 0 ==> {
                    &&& sn != 0 && old(self).node_at(*store, sn) is None ==> r is Err
                    &&& sn != 0 && (old(self).node_at(*store, sn) matches Some(x) && x.prev_link() != sibling_index)
                        ==> (r matches Err(TreeError::MalformedTree))
                    &&& sn != 1 && np != 1 && sibling_index != 1 ==> (r matches Ok(w) ==> w@.len() > k && (sn != 0
                        ==> Self::writes_node(w@[0], sn, false, node_view(old(self).node_at(*store, sn).unwrap())))
                        && (np != 0 ==> (old(self).node_at(*store, np) matches Some(x) && Self::writes_node(
                        w@[k - 1],
                        np,
                        false,
                        (x.leaf_flag(), x.entry_seq(), x.prev_link(), sibling_index),
                    ))) && Self::writes_node(
                        w@[k],
                        sibling_index,
                        false,
                        (node.leaf_flag(), node.entry_seq() + sibling.entry_seq(), np, sn),
                    ))
                }
            }),
            ({
                let nn = node.next_link();
                let sp = sibling.prev_link();
                let k = if sp != 0 {
                    1int
                } else {
                    0int
                };
                path@.len() > 0 && is_rightmost && sibling.entry_seq().len() > 0 ==> {
                    &&& nn != 0 && old(self).node_at(*store, nn) is None ==> r is Err
                    &&& nn != 0 && (old(self).node_at(*store, nn) matches Some(x) && x.prev_link() != node_index)
                        ==> (r matches Err(TreeError::MalformedTree))
                    &&& sp != 1 && node_index != 1 ==> (r matches Ok(w) ==> w@.len() > k && (sp != 0 ==> (old(
                        self,
                    ).node_at(*store, sp) matches Some(x) && Self::writes_node(
                        w@[0],
                        sp,
                        false,
                        (x.leaf_flag(), x.entry_seq(), x.prev_link(), node_index),
                    ))) && Self::writes_node(
                        w@[k],
                        node_index,
                        false,
                        (sibling.leaf_flag(), sibling.entry_seq() + node.entry_seq(), sp, nn),
                    ))
                }
            }),
            old(self).merge_goes_through(*store, path@, node_view(*node), node_index, *sibling, sibling_index, is_rightmost)
                ==> (r matches Ok(w) && old(self).merge_result(
                node_view(*node),
                node_index,
                *sibling,
                sibling_index,
                is_rightmost,
                *final(self),
                w@,
            )),
            !is_rightmost && old(self).merge_next_plain(*store, path@, node_view(*node), node_index, *sibling, sibling_index)
                ==> (r matches Ok(w) && old(self).merge_next_writes(*store, node_view(*node), *sibling, sibling_index, w@)),
            is_rightmost && old(self).merge_prev_plain(*store, path@, node_view(*node), node_index, *sibling, sibling_index)
                ==> (r matches Ok(w) && old(self).merge_prev_writes(*store, node_view(*node), node_index, *sibling, w@)),
        decreases path@.len(), 0nat,
    {
        let mut writes: Vec<TableWrite<K, V>> = Vec::new();
        if path.len() == 0 {
            return Err(TreeError::EmptyPath);
        }
        let (n_leaf, mut n_entries, node_prev_idx, node_next_idx) = node_parts(copy_node(node));
        let (s_leaf, mut s_entries, sibling_prev_idx, sibling_next_idx) = node_parts(copy_node(sibling));
        let parent_path = path_prefix(&path, path.len() - 1);
        if !is_rightmost {
            if n_entries.len() == 0 {
                return Err(TreeError::MalformedTree);
            }
            let key_to_remove = n_entries[n_entries.len() - 1].key;
            let mut tail = copy_entries(&s_entries);
            n_entries.append(&mut tail);
            if sibling_next_idx != 0 {
                let next_node = self.read_node(sibling_next_idx, store)?;
                let (nn_leaf, nn_entries, nn_prev, nn_next) = node_parts(next_node);
                if nn_prev != sibling_index {
                    return Err(TreeError::MalformedTree);
                }
                if let Some(tw) = self.write_node(
                    sibling_next_idx,
                    make_node(nn_leaf, nn_entries, nn_prev, nn_next),
                    false,
                ) {
                    writes.push(tw);
                }
            }
            if node_prev_idx != 0 {
                let prev_node = self.read_node(node_prev_idx, store)?;
                if let Some(tw) = self.write_node(node_prev_idx, with_next(prev_node, sibling_index), false) {
                    writes.push(tw);
                }
            }
            if is_leaf {
                let min_leaf = self.min_leaf_index_value();
                if min_leaf == node_index {
                    let max_leaf = self.max_leaf_index_value();
                    self.set_leaf_bounds(sibling_index, max_leaf);
                }
            }
            if let Some(tw) = self.write_node(
                sibling_index,
                make_node(n_leaf, n_entries, node_prev_idx, sibling_next_idx),
                false,
            ) {
                writes.push(tw);
            }
            if let Some(tw) = self.free_slot(node_index)? {
                writes.push(tw);
            }
            let mut rw = self.tree_remove_inner_child(parent_path, &key_to_remove, store)?;
            writes.append(&mut rw);
        } else {
            if s_entries.len() == 0 {
                return Err(TreeError::MalformedTree);
            }
            let key_to_remove = s_entries[s_entries.len() - 1].key;
            let mut tail = copy_entries(&n_entries);
            s_entries.append(&mut tail);
            if node_next_idx != 0 {
                let next_node = self.read_node(node_next_idx, store)?;
                let (_, _, nn_prev, _) = node_parts(next_node);
                if nn_prev != node_index {
                    return Err(TreeError::MalformedTree);
                }
            }
            if sibling_prev_idx != 0 {
                let prev_node = self.read_node(sibling_prev_idx, store)?;
                if let Some(tw) = self.write_node(sibling_prev_idx, with_next(prev_node, node_index), false) {
                    writes.push(tw);
                }
            }
            if is_leaf {
                let min_leaf = self.min_leaf_index_value();
                if min_leaf == sibling_index {
                    let max_leaf = self.max_leaf_index_value();
                    self.set_leaf_bounds(node_index, max_leaf);
                }
            }
            if let Some(tw) = self.write_node(
                node_index,
                make_node(s_leaf, s_entries, sibling_prev_idx, node_next_idx),
                false,
            ) {
                writes.push(tw);
            }
            if let Some(tw) = self.free_slot(sibling_index)? {
                writes.push(tw);
            }
            let mut rw = self.tree_remove_inner_child(parent_path, &key_to_remove, store)?;
            writes.append(&mut rw);
        }
        Ok(writes)
    }

    /// Removes the child entry of `key` from the inner node at the end of
    /// `path`, frees the child's slot, and restores the shape above.
    fn tree_remove_inner_child(&mut self, path: Vec<u64>, key: &K, store: &SlotStore<K, V>) -> (r: Result<
        Vec<TableWrite<K, V>>,
        TreeError,
    >)
        ensures
            path@.len() == 0 ==> r matches Err(TreeError::EmptyPath),
            ({
                let ni = path@.last();
                let n = old(self).node_at(*store, ni).unwrap();
                let es = n.entry_seq();
                let p = lower_bound_spec(es, *key);
                let rest = es.remove(p);
                &&& path@.len() > 0 && old(self).node_at(*store, ni) is None ==> r is Err
                &&& path@.len() > 0 && old(self).node_at(*store, ni) is Some && n.leaf_flag() ==> (r matches Err(TreeError::MalformedTree))
                &&& path@.len() > 0 && old(self).node_at(*store, ni) is Some && !n.leaf_flag() && !has_key_at_bound(
                    es,
                    *key,
                ) ==> (r matches Err(TreeError::InnerKeyNotFound))
                &&& path@.len() > 0 && old(self).node_at(*store, ni) is Some && !n.leaf_flag() && has_key_at_bound(
                    es,
                    *key,
                ) && es[p].value is Leaf ==> (r matches Err(TreeError::ExpectedInnerChild))
                &&& path@.len() > 0 && old(self).node_at(*store, ni) is Some && !n.leaf_flag() && has_key_at_bound(
                    es,
                    *key,
                ) && es[p].value is Inner ==> {
                    &&& ni == 1 && rest.len() != 1 ==> (r matches Ok(w) ==> node_view(final(self).root_node()) == (
                        false,
                        rest,
                        n.prev_link(),
                        n.next_link(),
                    ))
                    &&& ni == 1 && rest.len() != 1 && !old(self).allocator().reuses() ==> (r matches Ok(w) && w@.len()
                        == 0)
                    &&& ni == 1 && rest.len() != 1 && (!old(self).allocator().reuses() || old(
                        self,
                    ).allocator().spare_count() < u32::MAX) ==> (r matches Ok(w) && node_view(final(self).root_node()) == (
                        false,
                        rest,
                        n.prev_link(),
                        n.next_link(),
                    ))
                    &&& ni == 1 && rest.len() == 1 && rest[0].value is Inner && old(self).node_at(
                        *store,
                        rest[0].value->node_index.slot_index,
                    ) is Some && (!old(self).allocator().reuses() || old(self).allocator().spare_count() < u32::MAX
                        - 1) ==> (r matches Ok(w) && node_view(final(self).root_node()) == node_view(
                        old(self).node_at(*store, rest[0].value->node_index.slot_index).unwrap(),
                    ))
                    &&& ni == 1 && rest.len() == 1 && rest[0].value is Leaf ==> (r matches Ok(w) && w@.len() == 0
                        && node_view(final(self).root_node()) == (false, rest, n.prev_link(), n.next_link()))
                    &&& ni == 1 && rest.len() == 1 && rest[0].value is Inner ==> (r matches Ok(w) ==> old(
                        self,
                    ).node_at(*store, rest[0].value->node_index.slot_index) matches Some(c) && node_view(
                        final(self).root_node(),
                    ) == node_view(c) && (c.leaf_flag() ==> final(self).min_leaf() == 1 && final(self).max_leaf()
                        == 1))
                    &&& ni != 1 ==> (r matches Ok(w) ==> w@.len() >= 1 && Self::writes_node(
                        w@[0],
                        ni,
                        false,
                        (false, rest, n.prev_link(), n.next_link()),
                    ))
                }
            }),
        decreases path@.len(), 2nat,
    {
        let mut writes: Vec<TableWrite<K, V>> = Vec::new();
        if path.len() == 0 {
            return Err(TreeError::EmptyPath);
        }
        let node_index = path[path.len() - 1];
        let node = self.read_node(node_index, store)?;
        let (is_leaf, mut entries, prev, next) = node_parts(node);
        if is_leaf {
            return Err(TreeError::MalformedTree);
        }
        let pos = match find_key(&entries, key) {
            Ok(p) => p,
            Err(_) => {
                return Err(TreeError::InnerKeyNotFound);
            },
        };
        let removed_slot = match entries[pos].value {
            Child::Inner { node_index } => node_index.slot_index,
            Child::Leaf { .. } => {
                return Err(TreeError::ExpectedInnerChild);
            },
        };
        entries.remove(pos);
        let degree = entries.len();
        if node_index == 1 {
            if degree == 1 {
                let child_slot = match entries[0].value {
                    Child::Inner { node_index } => node_index.slot_index,
                    Child::Leaf { .. } => {
                        self.set_root(make_node(is_leaf, entries, prev, next));
                        return Ok(writes);
                    },
                };
                let child = self.read_node(child_slot, store)?;
                if node_is_leaf(&child) {
                    self.set_leaf_bounds(1, 1);
                }
                self.set_root(child);
                if let Some(tw) = self.free_slot(child_slot)? {
                    writes.push(tw);
                }
            } else {
                self.set_root(make_node(is_leaf, entries, prev, next));
            }
            if let Some(tw) = self.free_slot(removed_slot)? {
                writes.push(tw);
            }
            return Ok(writes);
        }
        let max_degree = self.inner_max();
        let big_enough = degree >= (max_degree + 1) / 2;
        let max_key_changed = pos == degree && degree >= 1;
        let new_max_key: Option<K> = if max_key_changed {
            Some(entries[degree - 1].key)
        } else {
            None
        };
        let node = make_node(is_leaf, entries, prev, next);
        if let Some(tw) = self.write_node(node_index, copy_node(&node), false) {
            writes.push(tw);
        }
        if let Some(nmk) = new_max_key {
            let mut uw = self.tree_update_parent_key(&path, path.len() - 1, key, &nmk, store)?;
            writes.append(&mut uw);
        }
        if let Some(tw) = self.free_slot(removed_slot)? {
            writes.push(tw);
        }
        if big_enough || degree == 0 {
            return Ok(writes);
        }
        let mut rw = self.process_rebalance_after_removal(node_index, &node, false, path, store)?;
        writes.append(&mut rw);
        Ok(writes)
    }
}


/// The first entry of `s` as a key and a value, where it holds a value.
pub open spec fn front_pair<K, V>(s: Seq<Entry<K, Child<V>>>) -> Option<(K, V)> {
    if s.len() > 0 && s[0].value is Leaf {
        Some((s[0].key, s[0].value->value))
    } else {
        None
    }
}

/// The last entry of `s` as a key and a value, where it holds a value.
pub open spec fn back_pair<K, V>(s: Seq<Entry<K, Child<V>>>) -> Option<(K, V)> {
    if s.len() > 0 && s.last().value is Leaf {
        Some((s.last().key, s.last().value->value))
    } else {
        None
    }
}

/// The value of `key` in `s`, where its entry stands at its lower bound
/// and holds one.
pub open spec fn value_at_bound<K: TreeKey, V>(s: Seq<Entry<K, Child<V>>>, key: K) -> Option<V> {
    let p = lower_bound_spec(s, key);
    if has_key_at_bound(s, key) && s[p].value is Leaf {
        Some(s[p].value->value)
    } else {
        None
    }
}

fn entries_front<K: Copy, V: Copy>(entries: &Vec<Entry<K, Child<V>>>) -> (r: Option<(K, V)>)
    ensures
        r == front_pair(entries@),
{
    if entries.len() == 0 {
        return None;
    }
    match entries[0].value {
        Child::Leaf { value } => Some((entries[0].key, value)),
        Child::Inner { .. } => None,
    }
}

fn entries_back<K: Copy, V: Copy>(entries: &Vec<Entry<K, Child<V>>>) -> (r: Option<(K, V)>)
    ensures
        r == back_pair(entries@),
{
    if entries.len() == 0 {
        return None;
    }
    let last = entries.len() - 1;
    match entries[last].value {
        Child::Leaf { value } => Some((entries[last].key, value)),
        Child::Inner { .. } => None,
    }
}

fn entries_value_of<K: TreeKey, V: Copy>(entries: &Vec<Entry<K, Child<V>>>, key: &K) -> (r: Option<V>)
    ensures
        r == value_at_bound(entries@, *key),
{
    match find_key(entries, key) {
        Ok(pos) => match entries[pos].value {
            Child::Leaf { value } => Some(value),
            Child::Inner { .. } => None,
        },
        Err(_) => None,
    }
}

impl<K: TreeKey, V: Copy> BigOrderedMap<K, V> {
    /// Takes out the entry of the smallest key. While the root is a leaf it
    /// gives up its first entry; else the first key of the smallest leaf is
    /// removed from the tree.
    #[verifier::spinoff_prover]
    #[verifier::rlimit(80)]
    pub fn tree_pop_front(&mut self, store: &SlotStore<K, V>) -> (r: Result<
        (Option<(K, V)>, Vec<TableWrite<K, V>>),
        TreeError,
    >)
        ensures
            old(self).root_node().leaf_flag() ==> {
                let es = old(self).root_entries();
                &&& r matches Ok((p, w)) && w@.len() == 0 && p == front_pair(es)
                &&& final(self).root_entries() == (if es.len() > 0 {
                    es.drop_first()
                } else {
                    es
                })
                &&& final(self).root_node().leaf_flag()
                &&& final(self).min_leaf() == old(self).min_leaf()
                &&& final(self).max_leaf() == old(self).max_leaf()
            },
            !old(self).root_node().leaf_flag() && (old(self).min_leaf() == 0 || old(self).min_leaf()
                == 1) ==> (r matches Ok((p, w)) && p is None && w@.len() == 0),
            ({
                let k0 = old(self).node_at(*store, old(self).min_leaf()).unwrap().entry_seq()[0].key;
                old(self).at_rest() && !old(self).root_node().leaf_flag() && old(self).min_leaf() > 1 && old(
                    self,
                ).node_at(*store, old(self).min_leaf()) is Some && old(self).node_at(
                    *store,
                    old(self).min_leaf(),
                ).unwrap().entry_seq().len() > 0 && old(self).in_place_remove(*store, k0) ==> (r matches Ok(
                    (Some((k, v)), w),
                ) && k == k0 && old(self).in_place_remove_result(*store, k0, Some(v), *final(self), w@))
            }),
            ({
                let k0 = old(self).node_at(*store, old(self).min_leaf()).unwrap().entry_seq()[0].key;
                old(self).at_rest() && !old(self).root_node().leaf_flag() && old(self).min_leaf() > 1 && old(
                    self,
                ).node_at(*store, old(self).min_leaf()) is Some && old(self).node_at(
                    *store,
                    old(self).min_leaf(),
                ).unwrap().entry_seq().len() > 0 && old(self).in_place_remove(*store, k0) && sorted_keys(
                    old(self).search_end(*store, k0).unwrap().entry_seq(),
                ) ==> (r matches Ok((_, w)) && forall|s1: SlotStore<K, V>|
                    stored_after(*store, w@, s1) ==> #[trigger] final(self).map_view(s1) == old(self).map_view(
                        *store,
                    ).remove(k0))
            }),
            ({
                let k0 = old(self).node_at(*store, old(self).min_leaf()).unwrap().entry_seq()[0].key;
                let ks = old(self).key_search(*store, k0);
                old(self).at_rest() && !old(self).root_node().leaf_flag() && old(self).min_leaf() > 1 && old(
                    self,
                ).node_at(*store, old(self).min_leaf()) is Some && old(self).node_at(
                    *store,
                    old(self).min_leaf(),
                ).unwrap().entry_seq().len() > 0 && ks is Some && old(self).underfull_remove_at(*store, ks.unwrap(), k0)
                    ==> (r matches Ok((p, w)) ==> (p matches Some((k, v)) && k == k0 && old(
                    self,
                ).underfull_remove_result_at(*store, ks.unwrap(), k0, Some(v), w@) && final(self).at_rest()))
            }),
            ({
                let k0 = old(self).node_at(*store, old(self).min_leaf()).unwrap().entry_seq()[0].key;
                let ks = old(self).key_search(*store, k0);
                old(self).at_rest() && !old(self).root_node().leaf_flag() && old(self).min_leaf() > 1 && old(
                    self,
                ).node_at(*store, old(self).min_leaf()) is Some && old(self).node_at(
                    *store,
                    old(self).min_leaf(),
                ).unwrap().entry_seq().len() > 0 && ks is Some && old(self).underfull_borrow_at(*store, ks.unwrap(), k0)
                    ==> (r matches Ok((Some((k, v)), w)) && k == k0 && old(self).underfull_remove_result_at(
                    *store,
                    ks.unwrap(),
                    k0,
                    Some(v),
                    w@,
                ) && old(self).underfull_borrow_result_at(*store, ks.unwrap(), k0, *final(self), w@)
                    && final(self).at_rest())
            }),
            ({
                let k0 = old(self).node_at(*store, old(self).min_leaf()).unwrap().entry_seq()[0].key;
                let ks = old(self).key_search(*store, k0);
                old(self).at_rest() && !old(self).root_node().leaf_flag() && old(self).min_leaf() > 1 && old(
                    self,
                ).node_at(*store, old(self).min_leaf()) is Some && old(self).node_at(
                    *store,
                    old(self).min_leaf(),
                ).unwrap().entry_seq().len() > 0 && ks is Some && old(self).underfull_merge_at(*store, ks.unwrap(), k0)
                    ==> (r matches Ok((Some((k, v)), w)) && k == k0 && old(self).underfull_remove_result_at(
                    *store,
                    ks.unwrap(),
                    k0,
                    Some(v),
                    w@,
                ) && old(self).underfull_merge_result_at(*store, ks.unwrap(), k0, *final(self), w@)
                    && final(self).at_rest())
            }),
            ({
                let k0 = old(self).node_at(*store, old(self).min_leaf()).unwrap().entry_seq()[0].key;
                let ks = old(self).key_search(*store, k0);
                old(self).at_rest() && !old(self).root_node().leaf_flag() && old(self).min_leaf() > 1 && old(
                    self,
                ).node_at(*store, old(self).min_leaf()) is Some && old(self).node_at(
                    *store,
                    old(self).min_leaf(),
                ).unwrap().entry_seq().len() > 0 && ks is Some && old(self).underfull_merge_next_at(
                    *store,
                    ks.unwrap(),
                    k0,
                ) && merge_next_shape(*old(self), *store, k0) ==> (r matches Ok((Some((k, v)), w)) && k == k0
                    && forall|s1: SlotStore<K, V>|
                    stored_after(*store, w@, s1) ==> #[trigger] final(self).map_view(s1) == old(self).map_view(
                        *store,
                    ).remove(k0))
            }),
            ({
                let k0 = old(self).node_at(*store, old(self).min_leaf()).unwrap().entry_seq()[0].key;
                let ks = old(self).key_search(*store, k0);
                old(self).at_rest() && !old(self).root_node().leaf_flag() && old(self).min_leaf() > 1 && old(
                    self,
                ).node_at(*store, old(self).min_leaf()) is Some && old(self).node_at(
                    *store,
                    old(self).min_leaf(),
                ).unwrap().entry_seq().len() > 0 && ks is Some && old(self).underfull_borrow_at(
                    *store,
                    ks.unwrap(),
                    k0,
                ) && borrow_valid(*old(self), *store, k0) && borrow_next_ok(*old(self), *store, k0)
                    && all_borrow_searches_ok(*old(self), *store, k0) ==> (r matches Ok((Some((k, v)), w)) && k == k0
                    && forall|s1: SlotStore<K, V>|
                    stored_after(*store, w@, s1) ==> #[trigger] final(self).map_view(s1) == old(self).map_view(
                        *store,
                    ).remove(k0))
            }),
            old(self).at_rest() && two_level_ordered(*old(self), *store) ==> (r matches Ok((Some((k, v)), w))
                ==> forall|k2: K| #[trigger] old(self).map_view(*store).contains_key(k2) ==> !k2.key_lt(k)),
            old(self).at_rest() && !old(self).root_node().leaf_flag() && crate::tree_add_law::valid_searches(
                *old(self),
                *store,
            ) && crate::tree_order_law::leftmost_leaf(*old(self), *store) ==> (r matches Ok((Some((k, v)), w))
                ==> forall|k2: K| #[trigger] old(self).map_view(*store).contains_key(k2) ==> !k2.key_lt(k)),
    {
        self.clear_cache();
        proof {
            if old(self).at_rest() {
                assert forall|idx: u64| #[trigger] self.node_at(*store, idx) == old(self).node_at(*store, idx) by {
                    assert(old(self).cache().content(idx) is None);
                }
                old(self).lemma_search_same_nodes(
                    *self,
                    *store,
                    old(self).node_at(*store, old(self).min_leaf()).unwrap().entry_seq()[0].key,
                    1,
                    20,
                );
            }
        }
        if node_is_leaf(self.root_ref()) {
            match self {
                BigOrderedMap::BPlusTreeMap { root, .. } => match root {
                    Node::V1 { children, .. } => match children {
                        OrderedMap::SortedVectorMap { entries } => {
                            if entries.len() == 0 {
                                return Ok((None, Vec::new()));
                            }
                            let e = entries.remove(0);
                            return Ok(
                                match e.value {
                                    Child::Leaf { value } => (Some((e.key, value)), Vec::new()),
                                    Child::Inner { .. } => (None, Vec::new()),
                                },
                            );
                        },
                    },
                },
            }
        }
        let min_idx = self.min_leaf_index_value();
        if min_idx == 0 || min_idx == 1 {
            return Ok((None, Vec::new()));
        }
        let leaf = self.read_node(min_idx, store)?;
        if node_entry_count(&leaf) == 0 {
            return Ok((None, Vec::new()));
        }
        let key = node_entry_at(&leaf, 0).key;
        let ghost cleared = *self;
        proof {
            if old(self).at_rest() && two_level_ordered(*old(self), *store) {
                assert(old(self).node_at(*store, min_idx) == self.node_at(*store, min_idx)) by {
                    assert(old(self).cache().content(min_idx) is None);
                }
                assert forall|k2: K| #[trigger] old(self).map_view(*store).contains_key(k2) implies !k2.key_lt(key) by {
                    lemma_front_key_is_least(*old(self), *store, k2);
                }
            }
            if old(self).at_rest() && crate::tree_add_law::valid_searches(*old(self), *store)
                && crate::tree_order_law::leftmost_leaf(*old(self), *store) {
                assert(old(self).node_at(*store, min_idx) == self.node_at(*store, min_idx)) by {
                    assert(old(self).cache().content(min_idx) is None);
                }
                assert forall|k2: K| #[trigger] old(self).map_view(*store).contains_key(k2) implies !k2.key_lt(key) by {
                    crate::tree_order_law::lemma_front_key_least(*old(self), *store, k2);
                }
            }
        }
        let (val, writes) = self.tree_remove(&key, store)?;
        proof {
            if old(self).at_rest() {
                assert forall|idx: u64| #[trigger] cleared.node_at(*store, idx) == old(self).node_at(*store, idx) by {
                    assert(old(self).cache().content(idx) is None);
                }
                assert forall|k: K| #[trigger] cleared.key_search(*store, k) == old(self).key_search(*store, k) by {
                    old(self).lemma_search_same_nodes(cleared, *store, k, 1, 20);
                }
                if old(self).key_search(*store, key) is Some {
                    assert(borrow_valid(cleared, *store, key) == borrow_valid(*old(self), *store, key));
                    assert(borrow_next_ok(cleared, *store, key) == borrow_next_ok(*old(self), *store, key));
                    assert forall|o: K| #[trigger] borrow_search_ok(cleared, *store, key, o) == borrow_search_ok(
                        *old(self),
                        *store,
                        key,
                        o,
                    ) by {
                        assert(cleared.key_search(*store, o) == old(self).key_search(*store, o));
                    }
                    if all_borrow_searches_ok(*old(self), *store, key) {
                        assert forall|o: K| o != key implies #[trigger] borrow_search_ok(cleared, *store, key, o) by {
                            assert(borrow_search_ok(*old(self), *store, key, o));
                        }
                    }
                }
            }
            if old(self).at_rest() {
                assert forall|idx: u64| #[trigger] cleared.node_at(*store, idx) == old(self).node_at(*store, idx) by {
                    assert(old(self).cache().content(idx) is None);
                }
                assert forall|k: K| #[trigger] cleared.search_end(*store, k) == old(self).search_end(*store, k) by {
                    old(self).lemma_search_same_nodes(cleared, *store, k, 1, 20);
                }
                assert(cleared.map_view(*store) =~= old(self).map_view(*store));
            }
        }
        Ok(
            (
                match val {
                    Some(v) => Some((key, v)),
                    None => None,
                },
                writes,
            ),
        )
    }

    /// Takes out the entry of the largest key. While the root is a leaf it
    /// gives up its last entry; else the last key of the largest leaf is
    /// removed from the tree.
    pub fn tree_pop_back(&mut self, store: &SlotStore<K, V>) -> (r: Result<
        (Option<(K, V)>, Vec<TableWrite<K, V>>),
        TreeError,
    >)
        ensures
            old(self).root_node().leaf_flag() ==> {
                let es = old(self).root_entries();
                &&& r matches Ok((p, w)) && w@.len() == 0 && p == back_pair(es)
                &&& final(self).root_entries() == (if es.len() > 0 {
                    es.drop_last()
                } else {
                    es
                })
                &&& final(self).root_node().leaf_flag()
                &&& final(self).min_leaf() == old(self).min_leaf()
                &&& final(self).max_leaf() == old(self).max_leaf()
            },
            !old(self).root_node().leaf_flag() && (old(self).max_leaf() == 0 || old(self).max_leaf()
                == 1) ==> (r matches Ok((p, w)) && p is None && w@.len() == 0),
            ({
                let es = old(self).node_at(*store, old(self).max_leaf()).unwrap().entry_seq();
                let k0 = es.last().key;
                old(self).at_rest() && !old(self).root_node().leaf_flag() && old(self).max_leaf() > 1 && old(
                    self,
                ).node_at(*store, old(self).max_leaf()) is Some && es.len() > 0 && old(self).key_search(*store, k0)
                    is Some && old(self).shrink_remove_at(*store, old(self).key_search(*store, k0).unwrap(), k0)
                    ==> (r matches Ok((Some((k, v)), w)) && k == k0 && old(self).shrink_remove_result_at(
                    *store,
                    old(self).key_search(*store, k0).unwrap(),
                    k0,
                    Some(v),
                    *final(self),
                    w@,
                ))
            }),
    {
        self.clear_cache();
        proof {
            if old(self).at_rest() {
                assert forall|idx: u64| #[trigger] self.node_at(*store, idx) == old(self).node_at(*store, idx) by {
                    assert(old(self).cache().content(idx) is None);
                }
                old(self).lemma_search_same_nodes(
                    *self,
                    *store,
                    old(self).node_at(*store, old(self).max_leaf()).unwrap().entry_seq().last().key,
                    1,
                    20,
                );
            }
        }
        if node_is_leaf(self.root_ref()) {
            match self {
                BigOrderedMap::BPlusTreeMap { root, .. } => match root {
                    Node::V1 { children, .. } => match children {
                        OrderedMap::SortedVectorMap { entries } => {
                            if entries.len() == 0 {
                                return Ok((None, Vec::new()));
                            }
                            let last = entries.len() - 1;
                            let e = entries.remove(last);
                            return Ok(
                                match e.value {
                                    Child::Leaf { value } => (Some((e.key, value)), Vec::new()),
                                    Child::Inner { .. } => (None, Vec::new()),
                                },
                            );
                        },
                    },
                },
            }
        }
        let max_idx = self.max_leaf_index_value();
        if max_idx == 0 || max_idx == 1 {
            return Ok((None, Vec::new()));
        }
        let leaf = self.read_node(max_idx, store)?;
        let n = node_entry_count(&leaf);
        if n == 0 {
            return Ok((None, Vec::new()));
        }
        let key = node_entry_at(&leaf, n - 1).key;
        let (val, writes) = self.tree_remove(&key, store)?;
        Ok(
            (
                match val {
                    Some(v) => Some((key, v)),
                    None => None,
                },
                writes,
            ),
        )
    }

    /// The entry of the smallest key: the root's first while the root is a
    /// leaf, else the first of the smallest leaf.
    pub fn tree_borrow_front(&self, store: &SlotStore<K, V>) -> (r: Result<Option<(K, V)>, TreeError>)
        ensures
            self.root_node().leaf_flag() ==> r == Ok::<Option<(K, V)>, TreeError>(
                front_pair(self.root_entries()),
            ),
            !self.root_node().leaf_flag() ==> (if self.min_leaf() == 0 || self.min_leaf() == 1 {
                r == Ok::<Option<(K, V)>, TreeError>(None)
            } else {
                match self.node_at(*store, self.min_leaf()) {
                    Some(n) => r == Ok::<Option<(K, V)>, TreeError>(front_pair(n.entry_seq())),
                    None => r is Err,
                }
            }),
    {
        if node_is_leaf(self.root_ref()) {
            let (_, entries, _, _) = node_parts(copy_node(self.root_ref()));
            return Ok(entries_front(&entries));
        }
        let mi = self.min_leaf_index_value();
        if mi == 0 || mi == 1 {
            return Ok(None);
        }
        let leaf = self.read_node(mi, store)?;
        let (_, entries, _, _) = node_parts(leaf);
        Ok(entries_front(&entries))
    }

    /// The entry of the largest key: the root's last while the root is a
    /// leaf, else the last of the largest leaf.
    pub fn tree_borrow_back(&self, store: &SlotStore<K, V>) -> (r: Result<Option<(K, V)>, TreeError>)
        ensures
            self.root_node().leaf_flag() ==> r == Ok::<Option<(K, V)>, TreeError>(
                back_pair(self.root_entries()),
            ),
            !self.root_node().leaf_flag() ==> (if self.max_leaf() == 0 || self.max_leaf() == 1 {
                r == Ok::<Option<(K, V)>, TreeError>(None)
            } else {
                match self.node_at(*store, self.max_leaf()) {
                    Some(n) => r == Ok::<Option<(K, V)>, TreeError>(back_pair(n.entry_seq())),
                    None => r is Err,
                }
            }),
    {
        if node_is_leaf(self.root_ref()) {
            let (_, entries, _, _) = node_parts(copy_node(self.root_ref()));
            return Ok(entries_back(&entries));
        }
        let mi = self.max_leaf_index_value();
        if mi == 0 || mi == 1 {
            return Ok(None);
        }
        let leaf = self.read_node(mi, store)?;
        let (_, entries, _, _) = node_parts(leaf);
        Ok(entries_back(&entries))
    }

    /// Whether the tree holds `key`: in the root while it is a leaf, else in
    /// the leaf that the walk from the root reaches.
    pub fn tree_contains(&self, key: &K, store: &SlotStore<K, V>) -> (r: Result<bool, TreeError>)
        ensures
            match self.search_end(*store, *key) {
                Some(n) => r == Ok::<bool, TreeError>(has_key_at_bound(n.entry_seq(), *key)),
                None => r is Err,
            },
            self.root_node().leaf_flag() ==> r == Ok::<bool, TreeError>(
                has_key_at_bound(self.root_entries(), *key),
            ),
    {
        proof {
            self.lemma_search_path_ends(*store, *key, 1, 20);
            reveal_with_fuel(BigOrderedMap::search_path, 2);
        }
        if node_is_leaf(self.root_ref()) {
            let (_, entries, _, _) = node_parts(copy_node(self.root_ref()));
            return Ok(find_key(&entries, key).is_ok());
        }
        let path = self.tree_find_leaf_path(key, store)?;
        if path.len() == 0 {
            return Ok(false);
        }
        let li = path[path.len() - 1];
        let leaf = self.read_node(li, store)?;
        let (_, entries, _, _) = node_parts(leaf);
        Ok(find_key(&entries, key).is_ok())
    }

    /// The smallest key: the root's first while the root is a leaf, else
    /// the first of the smallest leaf.
    pub fn tree_first_key(&self, store: &SlotStore<K, V>) -> (r: Result<Option<K>, TreeError>)
        ensures
            self.root_node().leaf_flag() ==> r == Ok::<Option<K>, TreeError>(
                if self.root_entries().len() > 0 {
                    Some(self.root_entries()[0].key)
                } else {
                    None
                },
            ),
            !self.root_node().leaf_flag() ==> (if self.min_leaf() == 0 || self.min_leaf() == 1 {
                r == Ok::<Option<K>, TreeError>(None)
            } else {
                match self.node_at(*store, self.min_leaf()) {
                    Some(n) => r == Ok::<Option<K>, TreeError>(
                        if n.entry_seq().len() > 0 {
                            Some(n.entry_seq()[0].key)
                        } else {
                            None
                        },
                    ),
                    None => r is Err,
                }
            }),
    {
        if node_is_leaf(self.root_ref()) {
            let root = self.root_ref();
            if node_entry_count(root) == 0 {
                return Ok(None);
            }
            return Ok(Some(node_entry_at(root, 0).key));
        }
        let mi = self.min_leaf_index_value();
        if mi == 0 || mi == 1 {
            return Ok(None);
        }
        let leaf = self.read_node(mi, store)?;
        if node_entry_count(&leaf) == 0 {
            return Ok(None);
        }
        Ok(Some(node_entry_at(&leaf, 0).key))
    }

    /// Whether the tree is empty: the root while it is a leaf, else the
    /// smallest leaf; a tree whose smallest leaf cannot be read counts as
    /// empty.
    pub fn tree_is_empty(&self, store: &SlotStore<K, V>) -> (r: Result<bool, TreeError>)
        ensures
            r == Ok::<bool, TreeError>(
                if self.root_node().leaf_flag() {
                    self.root_entries().len() == 0
                } else if self.min_leaf() == 0 || self.min_leaf() == 1 {
                    true
                } else {
                    match self.node_at(*store, self.min_leaf()) {
                        Some(n) => n.entry_seq().len() == 0,
                        None => true,
                    }
                },
            ),
    {
        if node_is_leaf(self.root_ref()) {
            return Ok(node_entry_count(self.root_ref()) == 0);
        }
        let mi = self.min_leaf_index_value();
        if mi == 0 {
            return Ok(true);
        }
        if mi == 1 {
            return Ok(true);
        }
        match self.read_node(mi, store) {
            Ok(leaf) => Ok(node_entry_count(&leaf) == 0),
            Err(_) => Ok(true),
        }
    }

    /// The value of `key`: from the root while it is a leaf, else from the
    /// leaf that the walk from the root reaches.
    pub fn tree_get(&self, key: &K, store: &SlotStore<K, V>) -> (r: Result<Option<V>, TreeError>)
        ensures
            match self.search_end(*store, *key) {
                Some(n) => r == Ok::<Option<V>, TreeError>(value_at_bound(n.entry_seq(), *key)),
                None => r is Err,
            },
            self.root_node().leaf_flag() ==> r == Ok::<Option<V>, TreeError>(
                value_at_bound(self.root_entries(), *key),
            ),
            r matches Ok(o) ==> o == (if self.map_view(*store).dom().contains(*key) {
                Some(self.map_view(*store)[*key])
            } else {
                None::<V>
            }),
    {
        proof {
            self.lemma_search_path_ends(*store, *key, 1, 20);
            reveal_with_fuel(BigOrderedMap::search_path, 2);
        }
        if node_is_leaf(self.root_ref()) {
            let (_, entries, _, _) = node_parts(copy_node(self.root_ref()));
            return Ok(entries_value_of(&entries, key));
        }
        let path = self.tree_find_leaf_path(key, store)?;
        if path.len() == 0 {
            return Ok(None);
        }
        let li = path[path.len() - 1];
        let leaf = self.read_node(li, store)?;
        let (_, entries, _, _) = node_parts(leaf);
        Ok(entries_value_of(&entries, key))
    }
}


/// Every search goes as before after only slot `li`, a leaf, was
/// rewritten with another leaf.
proof fn lemma_search_after_leaf_write<K: TreeKey, V>(
    m0: BigOrderedMap<K, V>,
    m1: BigOrderedMap<K, V>,
    s0: SlotStore<K, V>,
    s1: SlotStore<K, V>,
    key: K,
    current: u64,
    fuel: nat,
    li: u64,
    nd: Node<K, V>,
)
    requires
        m0.at_rest(),
        m1.at_rest(),
        m1.root_node() == m0.root_node(),
        li != 1,
        s1.content(li) == Some(Link::Occupied { value: nd }),
        nd.leaf_flag(),
        forall|idx: u64| idx != li ==> #[trigger] s1.content(idx) == s0.content(idx),
        m0.node_at(s0, li) matches Some(n) && n.leaf_flag(),
    ensures
        m1.search_path(s1, key, current, fuel) == m0.search_path(s0, key, current, fuel),
    decreases fuel,
{
    assert(m0.cache().content(current) is None);
    assert(m1.cache().content(current) is None);
    if fuel == 0 {
    } else if current == li {
        assert(m1.node_at(s1, current) == Some(nd));
    } else {
        assert(m1.node_at(s1, current) == m0.node_at(s0, current));
        let n = m0.node_at(s0, current).unwrap();
        if !(n.leaf_flag() || n.entry_seq().len() == 0) {
            if let Child::Inner { node_index } = n.entry_seq()[descend_index(n.entry_seq(), key)].value {
                lemma_search_after_leaf_write(m0, m1, s0, s1, key, node_index.slot_index, (fuel - 1) as nat, li, nd);
            }
        }
    }
}

/// Reading a key back after adding it, when the add changes only the leaf
/// that the search for the key reaches and its writes are stored: the
/// search ends at that leaf again, and it holds the value added.
pub proof fn lemma_in_place_add_then_get<K: TreeKey, V>(
    m0: BigOrderedMap<K, V>,
    s0: SlotStore<K, V>,
    key: K,
    value: V,
    m1: BigOrderedMap<K, V>,
    writes: Seq<TableWrite<K, V>>,
    s1: SlotStore<K, V>,
)
    requires
        m0.at_rest(),
        m0.in_place_add(s0, key),
        m0.in_place_add_result(s0, key, value, m1, writes),
        forall|idx: u64| #[trigger] s1.content(idx) == after_writes(writes, idx, s0.content(idx)),
    ensures
        m1.key_search(s1, key) == m0.key_search(s0, key),
        m1.search_end(s1, key) matches Some(n) && value_at_bound(n.entry_seq(), key) == Some(value),
{
    let li = m0.key_search(s0, key).unwrap().last();
    let n0 = m0.search_end(s0, key).unwrap();
    let nd = writes[0].data->value;
    assert(s1.content(li) == Some(writes[0].data)) by {
        assert(writes.last() == writes[0]);
    }
    assert forall|idx: u64| idx != li implies #[trigger] s1.content(idx) == s0.content(idx) by {
        assert(writes.last() == writes[0]);
        assert(writes.drop_last().len() == 0);
        assert(after_writes(writes, idx, s0.content(idx)) == after_writes(writes.drop_last(), idx, s0.content(idx)));
    }
    lemma_search_after_leaf_write(m0, m1, s0, s1, key, 1, 20, li, nd);
    assert(m1.cache().content(li) is None);
    assert(m1.node_at(s1, li) == Some(nd));
    lemma_upsert_then_value(n0.entry_seq(), key, value);
}

/// Adding a key in place leaves every other key's value as it was, once
/// the writes are stored.
pub proof fn lemma_in_place_add_keeps_others<K: TreeKey, V>(
    m0: BigOrderedMap<K, V>,
    s0: SlotStore<K, V>,
    key: K,
    value: V,
    m1: BigOrderedMap<K, V>,
    writes: Seq<TableWrite<K, V>>,
    s1: SlotStore<K, V>,
    other: K,
)
    requires
        m0.at_rest(),
        m0.in_place_add(s0, key),
        sorted_keys(m0.search_end(s0, key).unwrap().entry_seq()),
        m0.in_place_add_result(s0, key, value, m1, writes),
        forall|idx: u64| #[trigger] s1.content(idx) == after_writes(writes, idx, s0.content(idx)),
        other != key,
    ensures
        m1.key_search(s1, other) == m0.key_search(s0, other),
        match m0.search_end(s0, other) {
            Some(n) => m1.search_end(s1, other) matches Some(n1) && value_at_bound(n1.entry_seq(), other)
                == value_at_bound(n.entry_seq(), other),
            None => m1.search_end(s1, other) is None,
        },
{
    let li = m0.key_search(s0, key).unwrap().last();
    let n0 = m0.search_end(s0, key).unwrap();
    let nd = writes[0].data->value;
    assert(s1.content(li) == Some(writes[0].data)) by {
        assert(writes.last() == writes[0]);
    }
    assert forall|idx: u64| idx != li implies #[trigger] s1.content(idx) == s0.content(idx) by {
        assert(writes.last() == writes[0]);
        assert(writes.drop_last().len() == 0);
        assert(after_writes(writes, idx, s0.content(idx)) == after_writes(writes.drop_last(), idx, s0.content(idx)));
    }
    lemma_search_after_leaf_write(m0, m1, s0, s1, other, 1, 20, li, nd);
    m0.lemma_search_path_ends(s0, other, 1, 20);
    if let Some(p) = m0.key_search(s0, other) {
        let e = p.last();
        assert(m0.cache().content(e) is None);
        assert(m1.cache().content(e) is None);
        if e == li {
            assert(m1.node_at(s1, li) == Some(nd));
            lemma_upsert_keeps_other(n0.entry_seq(), key, Child::Leaf { value }, other);
        } else {
            assert(m1.node_at(s1, e) == m0.node_at(s0, e));
        }
    }
}

/// Reading a key back after removing it in place, once the writes are
/// stored: the search ends at the same leaf, which no longer holds it.
pub proof fn lemma_in_place_remove_then_get<K: TreeKey, V>(
    m0: BigOrderedMap<K, V>,
    s0: SlotStore<K, V>,
    key: K,
    removed: Option<V>,
    m1: BigOrderedMap<K, V>,
    writes: Seq<TableWrite<K, V>>,
    s1: SlotStore<K, V>,
)
    requires
        m0.at_rest(),
        m0.in_place_remove(s0, key),
        sorted_keys(m0.search_end(s0, key).unwrap().entry_seq()),
        m0.in_place_remove_result(s0, key, removed, m1, writes),
        forall|idx: u64| #[trigger] s1.content(idx) == after_writes(writes, idx, s0.content(idx)),
    ensures
        m1.key_search(s1, key) == m0.key_search(s0, key),
        m1.search_end(s1, key) matches Some(n) && value_at_bound(n.entry_seq(), key) is None && !has_key_at_bound(
            n.entry_seq(),
            key,
        ),
{
    let li = m0.key_search(s0, key).unwrap().last();
    let n0 = m0.search_end(s0, key).unwrap();
    let nd = writes[0].data->value;
    assert(s1.content(li) == Some(writes[0].data)) by {
        assert(writes.last() == writes[0]);
    }
    assert forall|idx: u64| idx != li implies #[trigger] s1.content(idx) == s0.content(idx) by {
        assert(writes.last() == writes[0]);
        assert(writes.drop_last().len() == 0);
        assert(after_writes(writes, idx, s0.content(idx)) == after_writes(writes.drop_last(), idx, s0.content(idx)));
    }
    lemma_search_after_leaf_write(m0, m1, s0, s1, key, 1, 20, li, nd);
    assert(m1.cache().content(li) is None);
    assert(m1.node_at(s1, li) == Some(nd));
    lemma_remove_then_absent(n0.entry_seq(), key);
}

/// Removing a key in place leaves every other key's value as it was, once
/// the writes are stored.
pub proof fn lemma_in_place_remove_keeps_others<K: TreeKey, V>(
    m0: BigOrderedMap<K, V>,
    s0: SlotStore<K, V>,
    key: K,
    removed: Option<V>,
    m1: BigOrderedMap<K, V>,
    writes: Seq<TableWrite<K, V>>,
    s1: SlotStore<K, V>,
    other: K,
)
    requires
        m0.at_rest(),
        m0.in_place_remove(s0, key),
        sorted_keys(m0.search_end(s0, key).unwrap().entry_seq()),
        m0.in_place_remove_result(s0, key, removed, m1, writes),
        forall|idx: u64| #[trigger] s1.content(idx) == after_writes(writes, idx, s0.content(idx)),
        other != key,
    ensures
        m1.key_search(s1, other) == m0.key_search(s0, other),
        match m0.search_end(s0, other) {
            Some(n) => m1.search_end(s1, other) matches Some(n1) && value_at_bound(n1.entry_seq(), other)
                == value_at_bound(n.entry_seq(), other),
            None => m1.search_end(s1, other) is None,
        },
{
    let li = m0.key_search(s0, key).unwrap().last();
    let n0 = m0.search_end(s0, key).unwrap();
    let nd = writes[0].data->value;
    assert(s1.content(li) == Some(writes[0].data)) by {
        assert(writes.last() == writes[0]);
    }
    assert forall|idx: u64| idx != li implies #[trigger] s1.content(idx) == s0.content(idx) by {
        assert(writes.last() == writes[0]);
        assert(writes.drop_last().len() == 0);
        assert(after_writes(writes, idx, s0.content(idx)) == after_writes(writes.drop_last(), idx, s0.content(idx)));
    }
    lemma_search_after_leaf_write(m0, m1, s0, s1, other, 1, 20, li, nd);
    m0.lemma_search_path_ends(s0, other, 1, 20);
    if let Some(p) = m0.key_search(s0, other) {
        let e = p.last();
        assert(m0.cache().content(e) is None);
        assert(m1.cache().content(e) is None);
        if e == li {
            assert(m1.node_at(s1, li) == Some(nd));
            lemma_remove_keeps_other_entry(n0.entry_seq(), key, other);
        } else {
            assert(m1.node_at(s1, e) == m0.node_at(s0, e));
        }
    }
}

/// After a root split the search for a key goes to the new leaf that
/// holds the key's place: the first where the key is not above the first
/// leaf's largest key, else the second.
proof fn lemma_split_halves_find<K: TreeKey, V>(g: Seq<Entry<K, Child<V>>>, t: int, key: K, p: int)
    requires
        sorted_keys(g),
        1 <= t < g.len(),
        0 <= p < g.len(),
        g[p].key == key,
    ensures
        p < t ==> !g[t - 1].key.key_lt(key) && lower_bound_spec(g.take(t), key) == p && has_key_at_bound(
            g.take(t),
            key,
        ),
        p >= t ==> g[t - 1].key.key_lt(key) && lower_bound_spec(g.skip(t), key) == p - t && has_key_at_bound(
            g.skip(t),
            key,
        ),
{
    K::lemma_key_lt_irreflexive(key);
    assert(sorted_keys(g.take(t))) by {
        assert forall|i: int, j: int| 0 <= i < j < g.take(t).len() implies #[trigger] g.take(t)[i].key.key_lt(
            #[trigger] g.take(t)[j].key,
        ) by {
            assert(g.take(t)[i] == g[i] && g.take(t)[j] == g[j]);
        }
    }
    assert(sorted_keys(g.skip(t))) by {
        assert forall|i: int, j: int| 0 <= i < j < g.skip(t).len() implies #[trigger] g.skip(t)[i].key.key_lt(
            #[trigger] g.skip(t)[j].key,
        ) by {
            assert(g.skip(t)[i] == g[i + t] && g.skip(t)[j] == g[j + t]);
        }
    }
    if p < t {
        if p < t - 1 {
            assert(g[p].key.key_lt(g[t - 1].key));
            if g[t - 1].key.key_lt(key) {
                K::lemma_key_lt_transitive(key, g[t - 1].key, key);
            }
        }
        assert(g.take(t)[p] == g[p]);
        lemma_sorted_index_is_bound(g.take(t), key, p);
    } else {
        assert(g[t - 1].key.key_lt(g[p].key));
        assert(g.skip(t)[p - t] == g[p]);
        lemma_sorted_index_is_bound(g.skip(t), key, p - t);
    }
}

/// Reading a key back after the add that split the root, once the writes
/// are stored: the search goes from the new root to the leaf that took the
/// key, and it holds the value added.
pub proof fn lemma_root_split_add_then_get<K: TreeKey, V>(
    m0: BigOrderedMap<K, V>,
    s0: SlotStore<K, V>,
    key: K,
    value: V,
    m1: BigOrderedMap<K, V>,
    writes: Seq<TableWrite<K, V>>,
    s1: SlotStore<K, V>,
)
    requires
        m0.root_split_add(key),
        sorted_keys(m0.root_entries()),
        m0.root_split_result(key, Child::Leaf { value }, m1, writes),
        m1.at_rest(),
        forall|idx: u64| #[trigger] s1.content(idx) == after_writes(writes, idx, s0.content(idx)),
    ensures
        m1.search_end(s1, key) matches Some(n) && value_at_bound(n.entry_seq(), key) == Some(value),
{
    let es = m0.root_entries();
    let g = m0.grown_root(key, Child::Leaf { value });
    let t = (m0.leaf_degree() + 1) / 2;
    let right = m0.allocator().next_fresh();
    let left = (right + 1) as u64;
    let p = lower_bound_spec(es, key);
    lemma_lower_bound_range(es, key);
    assert(g == upsert_entries(es, key, Child::Leaf { value }));
    lemma_upsert_keeps_sorted(es, key, Child::Leaf { value });
    lemma_upsert_then_value(es, key, value);
    assert(g[p] == Entry { key, value: Child::Leaf { value } });
    lemma_split_halves_find(g, t, key, p);
    K::lemma_key_lt_irreflexive(key);
    assert(s1.content(left) == Some(writes[0].data)) by {
        assert(writes.last() == writes[1]);
        assert(writes.drop_last().last() == writes[0]);
        assert(after_writes(writes, left, s0.content(left)) == after_writes(
            writes.drop_last(),
            left,
            s0.content(left),
        ));
    }
    assert(s1.content(right) == Some(writes[1].data)) by {
        assert(writes.last() == writes[1]);
    }
    assert(m1.cache().content(left) is None);
    assert(m1.cache().content(right) is None);
    let es1 = m1.root_entries();
    let a = writes[0].data->value;
    let b = writes[1].data->value;
    if p < t {
        assert(lower_bound_spec(es1, key) == 0);
        assert(descend_index(es1, key) == 0);
        assert(m1.node_at(s1, left) == Some(a));
        assert(m1.search_path(s1, key, left, 19) == Some(seq![left]));
        assert(m1.key_search(s1, key) == Some(seq![1u64] + seq![left]));
        assert((seq![1u64] + seq![left]).last() == left);
        assert(a.entry_seq()[p] == g[p]);
    } else {
        let top = if es.len() > 0 && !es.last().key.key_lt(key) {
            es.last().key
        } else {
            key
        };
        assert(!top.key_lt(key));
        assert(es1.drop_first() =~= seq![es1[1]]);
        assert(lower_bound_spec(seq![es1[1]], key) == 0) by {
            assert(seq![es1[1]][0] == es1[1]);
        }
        assert(lower_bound_spec(es1, key) == 1);
        assert(descend_index(es1, key) == 1);
        assert(m1.node_at(s1, right) == Some(b));
        assert(m1.search_path(s1, key, right, 19) == Some(seq![right]));
        assert(m1.key_search(s1, key) == Some(seq![1u64] + seq![right]));
        assert((seq![1u64] + seq![right]).last() == right);
        assert(b.entry_seq()[p - t] == g[p]);
    }
}

pub proof fn lemma_after_writes_at<K, V>(w: Seq<TableWrite<K, V>>, idx: u64, before: Option<Link<Node<K, V>>>, j: int)
    requires
        0 <= j < w.len(),
        w[j].slot_index == idx,
        forall|k: int| j < k < w.len() ==> #[trigger] w[k].slot_index != idx,
    ensures
        after_writes(w, idx, before) == Some(w[j].data),
    decreases w.len(),
{
    if j < w.len() - 1 {
        assert(w.last() == w[w.len() - 1]);
        assert forall|k: int| j < k < w.drop_last().len() implies #[trigger] w.drop_last()[k].slot_index != idx by {
            assert(w.drop_last()[k] == w[k]);
        }
        lemma_after_writes_at(w.drop_last(), idx, before, j);
    }
}

pub proof fn lemma_after_writes_untouched<K, V>(w: Seq<TableWrite<K, V>>, idx: u64, before: Option<Link<Node<K, V>>>)
    requires
        forall|k: int| 0 <= k < w.len() ==> #[trigger] w[k].slot_index != idx,
    ensures
        after_writes(w, idx, before) == before,
    decreases w.len(),
{
    if w.len() > 0 {
        assert(w.last() == w[w.len() - 1]);
        assert forall|k: int| 0 <= k < w.drop_last().len() implies #[trigger] w.drop_last()[k].slot_index != idx by {
            assert(w.drop_last()[k] == w[k]);
        }
        lemma_after_writes_untouched(w.drop_last(), idx, before);
    }
}

/// After a leaf split, the search key goes from the parent to the half
/// that took it: the new left child where the key is not above the left
/// half's largest key, else the old child.
proof fn lemma_split_parent_descend<K: TreeKey, V>(
    pe: Seq<Entry<K, Child<V>>>,
    es: Seq<Entry<K, Child<V>>>,
    key: K,
    v: V,
    ni: u64,
    left: u64,
    t: int,
)
    requires
        sorted_keys(pe),
        sorted_keys(es),
        es.len() >= 1,
        !has_key_at_bound(es, key),
        1 <= t <= es.len(),
        pe.len() >= 1,
        points_to(pe[descend_index(pe, key)].value, ni),
        forall|j: int| 0 <= j < descend_index(pe, key) ==> !points_to(#[trigger] pe[j].value, ni),
        descend_index(pe, key) == 0 || pe[descend_index(pe, key) - 1].key.key_lt(es[0].key),
        !pe[descend_index(pe, key)].key.key_lt(es.last().key),
    ensures
        ({
            let np = split_parent_entries(
                pe,
                ni,
                grown_key_at(es, key, es.len() as int),
                left,
                grown_key_at(es, key, t - 1),
            );
            let pos = lower_bound_spec(es, key);
            let d = descend_index(pe, key);
            &&& np.len() == pe.len() + 1
            &&& np.len() > 0
            &&& points_to(
                np[descend_index(np, key)].value,
                if pos < t {
                    left
                } else {
                    ni
                },
            )
            &&& lower_bound_spec(np, key) == (if pos < t {
                d
            } else {
                d + 1
            })
            &&& sorted_keys(renamed_child_entries(pe, ni, grown_key_at(es, key, es.len() as int))) ==> sorted_keys(np)
        }),
{
    let d = descend_index(pe, key);
    let lb = lower_bound_spec(pe, key);
    lemma_lower_bound_range(pe, key);
    lemma_lower_bound_props(pe, key);
    lemma_child_slot_index(pe, ni, d);
    let pos = lower_bound_spec(es, key);
    lemma_lower_bound_range(es, key);
    let g = es.insert(pos, Entry { key, value: Child::Leaf { value: v } });
    assert(g == upsert_entries(es, key, Child::Leaf { value: v }));
    lemma_upsert_keeps_sorted(es, key, Child::Leaf { value: v });
    let last = es.len() as int;
    let rm = grown_key_at(es, key, last);
    let lm = grown_key_at(es, key, t - 1);
    assert(g[last].key == rm);
    assert(g[t - 1].key == lm);
    assert(g[pos].key == key);
    K::lemma_key_lt_irreflexive(key);
    K::lemma_key_lt_irreflexive(lm);
    K::lemma_key_lt_irreflexive(rm);
    // the left half's largest key is not above the right half's
    assert(!rm.key_lt(lm)) by {
        if t - 1 < last {
            assert(g[t - 1].key.key_lt(g[last].key));
            if rm.key_lt(lm) {
                K::lemma_key_lt_transitive(lm, rm, lm);
            }
        }
    }
    // the key is not above the right half's largest key
    assert(!rm.key_lt(key)) by {
        if pos < last {
            assert(g[pos].key.key_lt(g[last].key));
            if rm.key_lt(key) {
                K::lemma_key_lt_transitive(key, rm, key);
            }
        }
    }
    let u = pe.update(d, Entry { key: rm, value: pe[d].value });
    assert(renamed_child_entries(pe, ni, rm) == u);
    // the entries before the child's are below the key and below the grown entries
    assert forall|j: int| 0 <= j < d implies #[trigger] pe[j].key.key_lt(key) && pe[j].key.key_lt(lm) by {
        assert(pe[j].key.key_lt(key));
        assert(pe[j].key.key_lt(es[0].key)) by {
            if j < d - 1 {
                assert(pe[j].key.key_lt(pe[d - 1].key));
                K::lemma_key_lt_transitive(pe[j].key, pe[d - 1].key, es[0].key);
            }
        }
        assert(pe[j].key.key_lt(g[0].key)) by {
            if pos > 0 {
                assert(g[0] == es[0]);
            }
        }
        if 0 < t - 1 {
            assert(g[0].key.key_lt(g[t - 1].key));
            K::lemma_key_lt_transitive(pe[j].key, g[0].key, lm);
        }
    }
    assert forall|j: int| 0 <= j < d implies #[trigger] u[j].key.key_lt(lm) by {
        assert(u[j] == pe[j]);
        assert(pe[j].key.key_lt(key) && pe[j].key.key_lt(lm));
    }
    lemma_lower_bound_char(u, lm, d);
    let np = u.insert(d, Entry { key: lm, value: Child::Inner { node_index: StoredSlot { slot_index: left } } });
    assert(split_parent_entries(pe, ni, rm, left, lm) == np);
    assert forall|j: int| 0 <= j < d implies #[trigger] np[j].key.key_lt(key) by {
        assert(np[j] == pe[j]);
    }
    lemma_split_halves_find(g, t, key, pos);
    if pos < t {
        lemma_lower_bound_char(np, key, d);
        assert(np[d].key == lm);
    } else {
        assert(np[d].key == lm);
        assert(np[d + 1].key == rm);
        lemma_lower_bound_char(np, key, d + 1);
        assert(np[d + 1].value == pe[d].value);
    }
    // the left half's largest key is below the right half's, so it is new to the parent
    assert(lm.key_lt(rm)) by {
        assert(t - 1 < last);
        assert(g[t - 1].key.key_lt(g[last].key));
    }
    assert(!has_key_at_bound(u, lm)) by {
        assert(u[d].key == rm);
    }
    assert(np == upsert_entries(u, lm, Child::Inner { node_index: StoredSlot { slot_index: left } }));
    if sorted_keys(u) {
        lemma_upsert_keeps_sorted(u, lm, Child::Inner { node_index: StoredSlot { slot_index: left } });
    }
}

/// The search key goes to the half of a split node that its lower bound
/// falls in, at the same place within that half.
pub proof fn lemma_halves_descend<K: TreeKey, C>(np: Seq<Entry<K, C>>, key: K, t2: int, e: int)
    requires
        sorted_keys(np),
        1 <= t2 < np.len(),
        0 <= e < np.len(),
        lower_bound_spec(np, key) == e,
    ensures
        e < t2 ==> !np[t2 - 1].key.key_lt(key) && descend_index(np.take(t2), key) == e && np.take(t2)[e] == np[e],
        e >= t2 ==> np[t2 - 1].key.key_lt(key) && !np.last().key.key_lt(key) && descend_index(np.skip(t2), key) == e
            - t2 && np.skip(t2)[e - t2] == np[e],
{
    lemma_lower_bound_props(np, key);
    K::lemma_key_lt_irreflexive(key);
    if e < t2 {
        assert(!np[t2 - 1].key.key_lt(key)) by {
            if e < t2 - 1 {
                assert(np[e].key.key_lt(np[t2 - 1].key));
                if np[t2 - 1].key.key_lt(key) {
                    K::lemma_key_lt_transitive(np[e].key, np[t2 - 1].key, key);
                }
            }
        }
        assert forall|j: int| 0 <= j < e implies #[trigger] np.take(t2)[j].key.key_lt(key) by {
            assert(np.take(t2)[j] == np[j]);
        }
        assert(np.take(t2)[e] == np[e]);
        lemma_lower_bound_char(np.take(t2), key, e);
    } else {
        assert(np[t2 - 1].key.key_lt(key));
        assert(!np.last().key.key_lt(key)) by {
            if e < np.len() - 1 {
                assert(np[e].key.key_lt(np[np.len() - 1].key));
                if np.last().key.key_lt(key) {
                    K::lemma_key_lt_transitive(np[e].key, np.last().key, key);
                }
            }
        }
        assert forall|j: int| 0 <= j < e - t2 implies #[trigger] np.skip(t2)[j].key.key_lt(key) by {
            assert(np.skip(t2)[j] == np[j + t2]);
        }
        assert(np.skip(t2)[e - t2] == np[e]);
        lemma_lower_bound_char(np.skip(t2), key, e - t2);
    }
}

/// Whether two reads of a slot guide a search alike: both fail, or both
/// give nodes with the same leaf flag and entries.
pub open spec fn same_search_view<K, V>(a: Option<Node<K, V>>, b: Option<Node<K, V>>) -> bool {
    ||| a is None && b is None
    ||| a is Some && b is Some && a.unwrap().leaf_flag() == b.unwrap().leaf_flag() && a.unwrap().entry_seq()
        == b.unwrap().entry_seq()
}

/// Each step of a search goes from an inner node to the child that the
/// search key picks in it.
pub proof fn lemma_search_path_step<K: TreeKey, V>(
    m: BigOrderedMap<K, V>,
    s: SlotStore<K, V>,
    key: K,
    c: u64,
    f: nat,
    i: int,
)
    requires
        m.search_path(s, key, c, f) matches Some(q) && 0 <= i < q.len() - 1,
    ensures
        ({
            let q = m.search_path(s, key, c, f).unwrap();
            let n = m.node_at(s, q[i]).unwrap();
            &&& m.node_at(s, q[i]) is Some
            &&& !n.leaf_flag()
            &&& n.entry_seq().len() > 0
            &&& points_to(n.entry_seq()[descend_index(n.entry_seq(), key)].value, q[i + 1])
        }),
    decreases f,
{
    let q = m.search_path(s, key, c, f).unwrap();
    let n = m.node_at(s, c).unwrap();
    if let Child::Inner { node_index } = n.entry_seq()[descend_index(n.entry_seq(), key)].value {
        let q2 = m.search_path(s, key, node_index.slot_index, (f - 1) as nat).unwrap();
        m.lemma_search_path_ends(s, key, node_index.slot_index, (f - 1) as nat);
        assert(q == seq![c] + q2);
        if i > 0 {
            assert(q[i] == q2[i - 1] && q[i + 1] == q2[i]);
            lemma_search_path_step(m, s, key, node_index.slot_index, (f - 1) as nat, i - 1);
        } else {
            assert(q[1] == q2[0]);
        }
    }
}

/// A search that went through slot `pi` into leaf `ni` goes, once `pi`
/// sends the key to `target` instead and no other slot on the way reads
/// differently, the same way up to `pi` and then to `target`.
proof fn lemma_search_reroute<K: TreeKey, V>(
    m0: BigOrderedMap<K, V>,
    s0: SlotStore<K, V>,
    m1: BigOrderedMap<K, V>,
    s1: SlotStore<K, V>,
    key: K,
    c: u64,
    f: nat,
    pi: u64,
    ni: u64,
    target: u64,
    avoid: u64,
)
    requires
        forall|x: u64|
            x != pi && x != ni && x != avoid ==> same_search_view(#[trigger] m0.node_at(s0, x), m1.node_at(s1, x)),
        m1.node_at(s1, pi) is Some,
        !m1.node_at(s1, pi).unwrap().leaf_flag(),
        m1.node_at(s1, pi).unwrap().entry_seq().len() > 0,
        points_to(
            m1.node_at(s1, pi).unwrap().entry_seq()[descend_index(m1.node_at(s1, pi).unwrap().entry_seq(), key)].value,
            target,
        ),
        m1.node_at(s1, target) matches Some(tn) && tn.leaf_flag(),
        m0.node_at(s0, ni) matches Some(n) && n.leaf_flag(),
        m0.search_path(s0, key, c, f) matches Some(q) && q.len() >= 2 && q.last() == ni && q[q.len() - 2] == pi
            && !q.contains(avoid),
    ensures
        m1.search_path(s1, key, c, f) == Some(m0.search_path(s0, key, c, f).unwrap().drop_last().push(target)),
    decreases f,
{
    let q = m0.search_path(s0, key, c, f).unwrap();
    m0.lemma_search_path_ends(s0, key, c, f);
    lemma_search_path_step(m0, s0, key, c, f, 0);
    let n = m0.node_at(s0, c).unwrap();
    let child = n.entry_seq()[descend_index(n.entry_seq(), key)].value->node_index.slot_index;
    let q2 = m0.search_path(s0, key, child, (f - 1) as nat).unwrap();
    assert(q == seq![c] + q2);
    m0.lemma_search_path_ends(s0, key, child, (f - 1) as nat);
    let tn = m1.node_at(s1, target).unwrap();
    if c == pi {
        lemma_search_path_step(m0, s0, key, c, f, q.len() - 2);
        assert(q2 =~= seq![ni]) by {
            assert(child == q[q.len() - 1]);
            assert(m0.search_path(s0, key, ni, (f - 1) as nat) == Some(seq![ni]));
        }
        assert(m1.search_path(s1, key, target, (f - 1) as nat) == Some(seq![target]));
        assert(q.drop_last().push(target) =~= seq![c] + seq![target]);
    } else {
        assert(c != ni) by {
            if c == ni {
                assert(q.len() == 1);
            }
        }
        assert(c != avoid) by {
            assert(q[0] == c);
        }
        assert(same_search_view(m0.node_at(s0, c), m1.node_at(s1, c)));
        assert(q2.len() >= 2) by {
            if q2.len() == 1 {
                assert(q[q.len() - 2] == c);
            }
        }
        assert(q2.last() == ni && q2[q2.len() - 2] == pi);
        assert(!q2.contains(avoid)) by {
            if q2.contains(avoid) {
                let k = choose|k: int| 0 <= k < q2.len() && q2[k] == avoid;
                assert(q[k + 1] == avoid);
            }
        }
        lemma_search_reroute(m0, s0, m1, s1, key, child, (f - 1) as nat, pi, ni, target, avoid);
        assert(q.drop_last().push(target) =~= seq![c] + q2.drop_last().push(target));
    }
}

/// Reading a key back after the add that split the leaf where the key
/// belongs, its parent having room, once the writes are stored: the search
/// goes as before to the parent, then to the half that took the key, and
/// that half holds the value added.
pub proof fn lemma_leaf_split_add_then_get<K: TreeKey, V>(
    m0: BigOrderedMap<K, V>,
    s0: SlotStore<K, V>,
    key: K,
    value: V,
    m1: BigOrderedMap<K, V>,
    writes: Seq<TableWrite<K, V>>,
    s1: SlotStore<K, V>,
)
    requires
        m0.at_rest(),
        m0.key_search(s0, key) is Some,
        m0.leaf_split_at(s0, m0.key_search(s0, key).unwrap(), key),
        m0.leaf_split_valid(s0, key),
        m0.leaf_split_result_at(s0, m0.key_search(s0, key).unwrap(), key, Child::Leaf { value }, m1, writes),
        m1.at_rest(),
        forall|idx: u64| #[trigger] s1.content(idx) == after_writes(writes, idx, s0.content(idx)),
    ensures
        m1.search_end(s1, key) matches Some(n) && value_at_bound(n.entry_seq(), key) == Some(value),
{
    let p = m0.key_search(s0, key).unwrap();
    let ni = p.last();
    let pi = p[p.len() - 2];
    let n = m0.node_at(s0, ni).unwrap();
    let es = n.entry_seq();
    let pn = m0.node_at(s0, pi).unwrap();
    let pe = pn.entry_seq();
    let prev = n.prev_link();
    let pv = m0.node_at(s0, prev).unwrap();
    let left = m0.allocator().next_fresh();
    let t = (m0.leaf_degree() + 1) / 2;
    let pos = lower_bound_spec(es, key);
    let g = es.insert(pos, Entry { key, value: Child::Leaf { value } });
    let off: int = if prev != 0 {
        1
    } else {
        0
    };
    m0.lemma_search_path_ends(s0, key, 1, 20);
    lemma_search_path_step(m0, s0, key, 1, 20, p.len() - 2);
    lemma_lower_bound_range(es, key);
    lemma_split_parent_descend(pe, es, key, value, ni, left, t);
    let np = split_parent_entries(pe, ni, grown_key_at(es, key, es.len() as int), left, grown_key_at(es, key, t - 1));
    let target = if pos < t {
        left
    } else {
        ni
    };
    assert(pi < left && ni < left);
    assert(!p.contains(left)) by {
        if p.contains(left) {
            let k = choose|k: int| 0 <= k < p.len() && p[k] == left;
            assert(p[k] < left);
        }
    }
    assert(pi != ni);
    assert(writes[off].slot_index == left && writes[off + 1].slot_index == ni);
    assert(pi != 1 ==> writes[off + 2].slot_index == pi);
    // the slots as the writes leave them
    assert(s1.content(left) == Some(writes[off].data)) by {
        lemma_after_writes_at(writes, left, s0.content(left), off);
    }
    assert(s1.content(ni) == Some(writes[off + 1].data)) by {
        lemma_after_writes_at(writes, ni, s0.content(ni), off + 1);
    }
    if pi != 1 {
        assert(s1.content(pi) == Some(writes[off + 2].data)) by {
            lemma_after_writes_at(writes, pi, s0.content(pi), off + 2);
        }
    }
    assert forall|x: u64| x != pi && x != ni && x != left implies same_search_view(
        #[trigger] m0.node_at(s0, x),
        m1.node_at(s1, x),
    ) by {
        assert(m0.cache().content(x) is None);
        assert(m1.cache().content(x) is None);
        if x != 1 {
            if prev != 0 && x == prev {
                lemma_after_writes_at(writes, x, s0.content(x), 0);
            } else {
                lemma_after_writes_untouched(writes, x, s0.content(x));
            }
        }
    }
    assert(m1.cache().content(left) is None);
    assert(m1.cache().content(ni) is None);
    assert(m1.cache().content(pi) is None);
    assert(m1.node_at(s1, pi).unwrap().entry_seq() == np);
    lemma_search_reroute(m0, s0, m1, s1, key, 1, 20, pi, ni, target, left);
    assert(p.drop_last().push(target).last() == target);
    lemma_upsert_keeps_sorted(es, key, Child::Leaf { value });
    assert(g == upsert_entries(es, key, Child::Leaf { value }));
    lemma_split_halves_find(g, t, key, pos);
    if pos < t {
        assert(g.take(t)[pos] == g[pos]);
    } else {
        assert(g.skip(t)[pos - t] == g[pos]);
    }
}

/// A search goes the same way again where every node on its way still
/// sends the key on to the next slot and its last slot still holds a leaf.
proof fn lemma_search_follows<K: TreeKey, V>(
    m0: BigOrderedMap<K, V>,
    s0: SlotStore<K, V>,
    m1: BigOrderedMap<K, V>,
    s1: SlotStore<K, V>,
    key: K,
    c: u64,
    f: nat,
)
    requires
        m0.search_path(s0, key, c, f) is Some,
        forall|i: int|
            0 <= i < m0.search_path(s0, key, c, f).unwrap().len() - 1 ==> {
                let x = #[trigger] m0.search_path(s0, key, c, f).unwrap()[i];
                let nx = m1.node_at(s1, x).unwrap();
                &&& m1.node_at(s1, x) is Some
                &&& !nx.leaf_flag()
                &&& nx.entry_seq().len() > 0
                &&& points_to(
                    nx.entry_seq()[descend_index(nx.entry_seq(), key)].value,
                    m0.search_path(s0, key, c, f).unwrap()[i + 1],
                )
            },
        m1.node_at(s1, m0.search_path(s0, key, c, f).unwrap().last()) matches Some(l) && l.leaf_flag(),
    ensures
        m1.search_path(s1, key, c, f) == m0.search_path(s0, key, c, f),
    decreases f,
{
    let q = m0.search_path(s0, key, c, f).unwrap();
    m0.lemma_search_path_ends(s0, key, c, f);
    if q.len() > 1 {
        lemma_search_path_step(m0, s0, key, c, f, 0);
        let n = m0.node_at(s0, c).unwrap();
        let child = n.entry_seq()[descend_index(n.entry_seq(), key)].value->node_index.slot_index;
        let q2 = m0.search_path(s0, key, child, (f - 1) as nat).unwrap();
        assert(q == seq![c] + q2);
        assert(q[0] == c);
        assert(child == q[1]);
        assert forall|i: int| 0 <= i < q2.len() - 1 implies {
            let x = #[trigger] q2[i];
            let nx = m1.node_at(s1, x).unwrap();
            &&& m1.node_at(s1, x) is Some
            &&& !nx.leaf_flag()
            &&& nx.entry_seq().len() > 0
            &&& points_to(nx.entry_seq()[descend_index(nx.entry_seq(), key)].value, q2[i + 1])
        } by {
            assert(q2[i] == q[i + 1] && q2[i + 1] == q[i + 2]);
        }
        assert(q2.last() == q.last());
        lemma_search_follows(m0, s0, m1, s1, key, child, (f - 1) as nat);
    }
}

/// Reading a key back after an add that made it the new largest key of a
/// leaf with room, once the writes are stored: the search goes the same
/// way, every node above now keyed by the new key, and the leaf holds the
/// value added.
pub proof fn lemma_extend_add_then_get<K: TreeKey, V>(
    m0: BigOrderedMap<K, V>,
    s0: SlotStore<K, V>,
    key: K,
    value: V,
    m1: BigOrderedMap<K, V>,
    writes: Seq<TableWrite<K, V>>,
    s1: SlotStore<K, V>,
)
    requires
        m0.at_rest(),
        m0.key_search(s0, key) is Some,
        m0.extend_add_at(s0, m0.key_search(s0, key).unwrap(), key),
        forall|i: int|
            0 <= i < m0.key_search(s0, key).unwrap().len() - 1 ==> sorted_keys(
                m0.node_at(s0, #[trigger] m0.key_search(s0, key).unwrap()[i]).unwrap().entry_seq(),
            ),
        m0.extend_add_result_at(s0, m0.key_search(s0, key).unwrap(), key, Child::Leaf { value }, m1, writes),
        m1.at_rest(),
        forall|idx: u64| #[trigger] s1.content(idx) == after_writes(writes, idx, s0.content(idx)),
    ensures
        m1.key_search(s1, key) == m0.key_search(s0, key),
        m1.search_end(s1, key) matches Some(n) && value_at_bound(n.entry_seq(), key) == Some(value),
{
    let p = m0.key_search(s0, key).unwrap();
    let len = p.len();
    let ni = p.last();
    let n = m0.node_at(s0, ni).unwrap();
    let om = n.entry_seq().last().key;
    m0.lemma_search_path_ends(s0, key, 1, 20);
    K::lemma_key_lt_irreflexive(key);
    // the leaf
    assert(s1.content(ni) == Some(writes[0].data)) by {
        assert forall|k: int| 0 < k < writes.len() implies #[trigger] writes[k].slot_index != ni by {
            assert(writes[1 + (k - 1)].slot_index == p[len - 2 - (k - 1)]);
        }
        lemma_after_writes_at(writes, ni, s0.content(ni), 0);
    }
    assert(m1.cache().content(ni) is None);
    // every node above
    assert forall|i: int| 0 <= i < len - 1 implies {
        let x = #[trigger] p[i];
        let nx = m1.node_at(s1, x).unwrap();
        &&& m1.node_at(s1, x) is Some
        &&& !nx.leaf_flag()
        &&& nx.entry_seq().len() > 0
        &&& points_to(nx.entry_seq()[descend_index(nx.entry_seq(), key)].value, p[i + 1])
    } by {
        let x = p[i];
        let n0 = m0.node_at(s0, x).unwrap();
        let es = n0.entry_seq();
        lemma_search_path_step(m0, s0, key, 1, 20, i);
        assert(m1.cache().content(x) is None);
        assert(m1.node_at(s1, x) matches Some(nx) && node_view(nx) == renamed_last(n0, key)) by {
            if i == 0 {
                assert(x == 1);
            } else {
                let k = len - 2 - i;
                assert(writes[1 + k].slot_index == x);
                assert forall|kk: int| 1 + k < kk < writes.len() implies #[trigger] writes[kk].slot_index != x by {
                    assert(writes[1 + (kk - 1)].slot_index == p[len - 2 - (kk - 1)]);
                }
                lemma_after_writes_at(writes, x, s0.content(x), 1 + k);
            }
        }
        let nx = m1.node_at(s1, x).unwrap();
        let last = es.len() - 1;
        // all keys of the node lie below the new key, the last being the old largest key
        lemma_lower_bound_range(es, om);
        assert(es[last].key == om);
        assert forall|j: int| 0 <= j < es.len() implies #[trigger] es[j].key.key_lt(key) by {
            if j < last {
                assert(es[j].key.key_lt(es[last].key));
                K::lemma_key_lt_transitive(es[j].key, om, key);
            }
        }
        lemma_lower_bound_char(es, key, es.len() as int);
        let r = nx.entry_seq();
        assert forall|j: int| 0 <= j < last implies #[trigger] r[j].key.key_lt(key) by {
            assert(r[j] == es[j]);
        }
        lemma_lower_bound_char(r, key, last);
    }
    lemma_search_follows(m0, s0, m1, s1, key, 1, 20);
    lemma_upsert_then_value(n.entry_seq(), key, value);
}

/// Reading a key back after removing it as the largest key of its leaf,
/// once the writes are stored: the search goes the same way, every node
/// above now keyed by the leaf's new largest key, and the leaf no longer
/// holds the key.
#[verifier::spinoff_prover]
pub proof fn lemma_shrink_remove_then_get<K: TreeKey, V>(
    m0: BigOrderedMap<K, V>,
    s0: SlotStore<K, V>,
    key: K,
    removed: Option<V>,
    m1: BigOrderedMap<K, V>,
    writes: Seq<TableWrite<K, V>>,
    s1: SlotStore<K, V>,
)
    requires
        m0.at_rest(),
        m0.key_search(s0, key) is Some,
        m0.shrink_remove_at(s0, m0.key_search(s0, key).unwrap(), key),
        forall|i: int|
            0 <= i < m0.key_search(s0, key).unwrap().len() ==> sorted_keys(
                m0.node_at(s0, #[trigger] m0.key_search(s0, key).unwrap()[i]).unwrap().entry_seq(),
            ),
        m0.shrink_remove_result_at(s0, m0.key_search(s0, key).unwrap(), key, removed, m1, writes),
        m1.at_rest(),
        forall|idx: u64| #[trigger] s1.content(idx) == after_writes(writes, idx, s0.content(idx)),
    ensures
        m1.key_search(s1, key) == m0.key_search(s0, key),
        m1.search_end(s1, key) matches Some(n) && value_at_bound(n.entry_seq(), key) is None && !has_key_at_bound(
            n.entry_seq(),
            key,
        ),
{
    let p = m0.key_search(s0, key).unwrap();
    let len = p.len();
    let ni = p.last();
    let n = m0.node_at(s0, ni).unwrap();
    let les = n.entry_seq();
    let nmk = les[les.len() - 2].key;
    m0.lemma_search_path_ends(s0, key, 1, 20);
    K::lemma_key_lt_irreflexive(key);
    assert(sorted_keys(les)) by {
        assert(p[len - 1] == ni);
    }
    lemma_lower_bound_range(les, key);
    assert(les[les.len() - 1].key == key);
    assert(nmk.key_lt(key));
    // the leaf
    assert(s1.content(ni) == Some(writes[0].data)) by {
        assert forall|k: int| 0 < k < writes.len() implies #[trigger] writes[k].slot_index != ni by {
            assert(writes[1 + (k - 1)].slot_index == p[len - 2 - (k - 1)]);
        }
        lemma_after_writes_at(writes, ni, s0.content(ni), 0);
    }
    assert(m1.cache().content(ni) is None);
    // every node above
    assert forall|i: int| 0 <= i < len - 1 implies {
        let x = #[trigger] p[i];
        let nx = m1.node_at(s1, x).unwrap();
        &&& m1.node_at(s1, x) is Some
        &&& !nx.leaf_flag()
        &&& nx.entry_seq().len() > 0
        &&& points_to(nx.entry_seq()[descend_index(nx.entry_seq(), key)].value, p[i + 1])
    } by {
        let x = p[i];
        let n0 = m0.node_at(s0, x).unwrap();
        let es = n0.entry_seq();
        lemma_search_path_step(m0, s0, key, 1, 20, i);
        assert(m1.cache().content(x) is None);
        assert(m1.node_at(s1, x) matches Some(nx) && node_view(nx) == renamed_last(n0, nmk)) by {
            if i == 0 {
                assert(x == 1);
            } else {
                let k = len - 2 - i;
                assert(writes[1 + k].slot_index == x);
                assert forall|kk: int| 1 + k < kk < writes.len() implies #[trigger] writes[kk].slot_index != x by {
                    assert(writes[1 + (kk - 1)].slot_index == p[len - 2 - (kk - 1)]);
                }
                lemma_after_writes_at(writes, x, s0.content(x), 1 + k);
            }
        }
        let nx = m1.node_at(s1, x).unwrap();
        let last = es.len() - 1;
        lemma_lower_bound_range(es, key);
        assert(es[last].key == key);
        assert(sorted_keys(es));
        assert forall|j: int| 0 <= j < last implies #[trigger] es[j].key.key_lt(key) by {
            assert(es[j].key.key_lt(es[last].key));
        }
        lemma_lower_bound_char(es, key, last);
        let r = nx.entry_seq();
        assert forall|j: int| 0 <= j < r.len() implies #[trigger] r[j].key.key_lt(key) by {
            if j < last {
                assert(r[j] == es[j]);
            } else {
                assert(node_view(nx) == renamed_last(n0, nmk));
                assert(r[j].key == nmk);
            }
        }
        lemma_lower_bound_char(r, key, r.len() as int);
    }
    lemma_search_follows(m0, s0, m1, s1, key, 1, 20);
    assert(les.drop_last() == remove_entries(les, key)) by {
        assert(les.remove(les.len() - 1) =~= les.drop_last());
    }
    lemma_remove_then_absent(les, key);
}

/// Reading a key back after the add that split its leaf under a full
/// root, the root splitting in turn, once the writes are stored: the search
/// goes from the new root to the half of the old root that took the key's
/// place, then to the leaf half that took the key, which holds the value
/// added.
pub proof fn lemma_root_full_split_add_then_get<K: TreeKey, V>(
    m0: BigOrderedMap<K, V>,
    s0: SlotStore<K, V>,
    key: K,
    value: V,
    m1: BigOrderedMap<K, V>,
    writes: Seq<TableWrite<K, V>>,
    s1: SlotStore<K, V>,
)
    requires
        m0.at_rest(),
        m0.key_search(s0, key) is Some,
        m0.leaf_split_root_full_at(s0, m0.key_search(s0, key).unwrap(), key),
        m0.leaf_split_valid(s0, key),
        m0.leaf_split_root_full_result_at(
            s0,
            m0.key_search(s0, key).unwrap(),
            key,
            Child::Leaf { value },
            m1,
            writes,
        ),
        m1.at_rest(),
        forall|idx: u64| #[trigger] s1.content(idx) == after_writes(writes, idx, s0.content(idx)),
    ensures
        m1.search_end(s1, key) matches Some(n) && value_at_bound(n.entry_seq(), key) == Some(value),
{
    let p = m0.key_search(s0, key).unwrap();
    let ni = p.last();
    let n = m0.node_at(s0, ni).unwrap();
    let es = n.entry_seq();
    let pe = m0.root_node().entry_seq();
    let prev = n.prev_link();
    let nf = m0.allocator().next_fresh();
    let t = (m0.leaf_degree() + 1) / 2;
    let t2 = (m0.inner_degree() + 1) / 2;
    let pos = lower_bound_spec(es, key);
    let g = es.insert(pos, Entry { key, value: Child::Leaf { value } });
    let off: int = if prev != 0 {
        1
    } else {
        0
    };
    m0.lemma_search_path_ends(s0, key, 1, 20);
    lemma_search_path_step(m0, s0, key, 1, 20, 0);
    assert(m0.node_at(s0, 1) == Some(m0.root_node()));
    lemma_lower_bound_range(es, key);
    lemma_split_parent_descend(pe, es, key, value, ni, nf, t);
    let d = descend_index(pe, key);
    let np = split_parent_entries(pe, ni, grown_key_at(es, key, es.len() as int), nf, grown_key_at(es, key, t - 1));
    let e = if pos < t {
        d
    } else {
        d + 1
    };
    let target = if pos < t {
        nf
    } else {
        ni
    };
    lemma_lower_bound_range(pe, key);
    assert(0 <= d < pe.len());
    lemma_halves_descend(np, key, t2, e);
    let c1: u64 = if e < t2 {
        (nf + 2) as u64
    } else {
        (nf + 1) as u64
    };
    assert(ni < nf);
    // the slots as the writes leave them
    assert(s1.content(nf) == Some(writes[off].data)) by {
        lemma_after_writes_at(writes, nf, s0.content(nf), off);
    }
    assert(s1.content(ni) == Some(writes[off + 1].data)) by {
        lemma_after_writes_at(writes, ni, s0.content(ni), off + 1);
    }
    assert(s1.content((nf + 2) as u64) == Some(writes[off + 2].data)) by {
        lemma_after_writes_at(writes, (nf + 2) as u64, s0.content((nf + 2) as u64), off + 2);
    }
    assert(s1.content((nf + 1) as u64) == Some(writes[off + 3].data)) by {
        lemma_after_writes_at(writes, (nf + 1) as u64, s0.content((nf + 1) as u64), off + 3);
    }
    assert(m1.cache().content(nf) is None);
    assert(m1.cache().content(ni) is None);
    assert(m1.cache().content((nf + 1) as u64) is None);
    assert(m1.cache().content((nf + 2) as u64) is None);
    // the new root sends the key to the half that holds its place
    let r = m1.root_node().entry_seq();
    K::lemma_key_lt_irreflexive(key);
    if e < t2 {
        lemma_lower_bound_char(r, key, 0);
    } else {
        assert(r.drop_first() =~= seq![r[1]]);
        assert(lower_bound_spec(seq![r[1]], key) == 0) by {
            assert(seq![r[1]][0] == r[1]);
        }
        assert(lower_bound_spec(r, key) == 1);
    }
    let half = m1.node_at(s1, c1).unwrap();
    assert(m1.node_at(s1, target) matches Some(l) && l.leaf_flag());
    assert(m1.search_path(s1, key, target, 18) == Some(seq![target]));
    assert(points_to(half.entry_seq()[descend_index(half.entry_seq(), key)].value, target));
    assert(m1.search_path(s1, key, c1, 19) == Some(seq![c1] + seq![target]));
    assert(m1.search_path(s1, key, 1, 20) == Some(seq![1u64] + (seq![c1] + seq![target])));
    assert((seq![1u64] + (seq![c1] + seq![target])).last() == target);
    lemma_upsert_keeps_sorted(es, key, Child::Leaf { value });
    assert(g == upsert_entries(es, key, Child::Leaf { value }));
    lemma_split_halves_find(g, t, key, pos);
    if pos < t {
        assert(g.take(t)[pos] == g[pos]);
    } else {
        assert(g.skip(t)[pos - t] == g[pos]);
    }
}

/// The entries of a slot's content; none for a free slot.
pub open spec fn link_entries<K, V>(l: Link<Node<K, V>>) -> Seq<Entry<K, Child<V>>> {
    match l {
        Link::Occupied { value } => value.entry_seq(),
        Link::Vacant { .. } => Seq::empty(),
    }
}

/// The entries of the written nodes, one after the other.
pub open spec fn written_entries<K, V>(items: Seq<(u64, Link<Node<K, V>>)>) -> Seq<Entry<K, Child<V>>>
    decreases items.len(),
{
    if items.len() == 0 {
        Seq::empty()
    } else {
        written_entries(items.drop_last()) + link_entries(items.last().1)
    }
}

/// Whether `items` are the leaves that a root split of `es` into chunks
/// of `t` writes, and `inner` the new root's entries over them: leaf `i`
/// holds chunk `i`, linked to the leaves before and after it, and its
/// entry in the root is keyed by its last key.
pub open spec fn split_chunks_at<K, V>(
    es: Seq<Entry<K, Child<V>>>,
    t: int,
    items: Seq<(u64, Link<Node<K, V>>)>,
    inner: Seq<Entry<K, Child<V>>>,
) -> bool {
    let n = es.len() as int;
    &&& chunk_start(n, t, items.len()) == n
    &&& forall|i: int|
        0 <= i < items.len() ==> {
            let a = chunk_start(n, t, i as nat);
            let b = chunk_start(n, t, (i + 1) as nat);
            &&& a < b
            &&& (#[trigger] items[i]).1 matches Link::Occupied { value: nd } && node_view(nd) == (
                true,
                es.subrange(a, b),
                if i == 0 {
                    0u64
                } else {
                    (items[i].0 - 1) as u64
                },
                if b < n {
                    (items[i].0 + 1) as u64
                } else {
                    0u64
                },
            )
            &&& inner[i].key == es[b - 1].key
        }
}

/// Where the chunk of a root split that starts at `start` ends: `t`
/// entries on, or the end where fewer than `t` are left, or where what
/// would be left after them is under half of `t`.
pub open spec fn chunk_end(n: int, t: int, start: int) -> int {
    if n - start <= t {
        n
    } else if n - start - t < t / 2 {
        n
    } else {
        start + t
    }
}

/// Where chunk `i` of a root split of `n` entries into chunks of `t`
/// starts.
pub open spec fn chunk_start(n: int, t: int, i: nat) -> int
    decreases i,
{
    if i == 0 {
        0
    } else {
        chunk_end(n, t, chunk_start(n, t, (i - 1) as nat))
    }
}

/// Whether the root is a leaf over its degree with values only, and the
/// map has a node table: the case in which the root gets split.
pub open spec fn root_split_due<K, V>(m: BigOrderedMap<K, V>) -> bool {
    &&& m.root_node().leaf_flag()
    &&& m.root_entries().len() > m.leaf_degree()
    &&& forall|i: int| 0 <= i < m.root_entries().len() ==> #[trigger] m.root_entries()[i].value is Leaf
    &&& m.allocator().table() is Some
    &&& m.leaf_degree() > 0
}

fn entries_range<K: Copy, V: Copy>(entries: &Vec<Entry<K, Child<V>>>, start: usize, end: usize) -> (r: Vec<
    Entry<K, Child<V>>,
>)
    requires
        start <= end <= entries@.len(),
    ensures
        r@ == entries@.subrange(start as int, end as int),
{
    let mut out: Vec<Entry<K, Child<V>>> = Vec::new();
    let mut i = start;
    while i < end
        invariant
            start <= i <= end <= entries@.len(),
            out@ == entries@.subrange(start as int, i as int),
        decreases end - i,
    {
        out.push(entries[i]);
        i += 1;
        assert(out@ =~= entries@.subrange(start as int, i as int));
    }
    out
}

impl<K: TreeKey, V: Copy> BigOrderedMap<K, V> {
    /// Splits a leaf root that has grown past its degree into leaves of
    /// `(degree + 1) / 2` entries each (a last leaf under half that size
    /// joins the one before), stored in fresh slots and linked in order;
    /// the root becomes an inner node over them. The new slots and their
    /// nodes come back; a root that is not due for a split stays as it is.
    pub fn split_root_if_needed(&mut self) -> (r: Vec<(u64, Link<Node<K, V>>)>)
        requires
            root_split_due(*old(self)) ==> old(self).allocator().next_fresh() + old(self).root_entries().len()
                <= u64::MAX && old(self).allocator().table()->0.length + old(self).root_entries().len()
                <= u64::MAX,
        ensures
            !root_split_due(*old(self)) ==> r@.len() == 0 && *final(self) == *old(self),
            root_split_due(*old(self)) ==> {
                &&& r@.len() >= 1
                &&& written_entries(r@) == old(self).root_entries()
                &&& !final(self).root_node().leaf_flag()
                &&& final(self).root_entries().len() == r@.len()
                &&& forall|i: int|
                    0 <= i < r@.len() ==> #[trigger] r@[i].0 == old(self).allocator().next_fresh() + i
                        && final(self).root_entries()[i].value == (Child::<V>::Inner {
                        node_index: StoredSlot { slot_index: r@[i].0 },
                    })
                &&& final(self).allocator().next_fresh() == old(self).allocator().next_fresh() + r@.len()
                &&& final(self).min_leaf() == r@[0].0
                &&& final(self).max_leaf() == r@.last().0
                &&& final(self).root_node().prev_link() == 0 && final(self).root_node().next_link() == 0
                &&& split_chunks_at(old(self).root_entries(), (old(self).leaf_degree() + 1) / 2, r@, final(self).root_entries())
            },
    {
        let root_is_leaf = node_is_leaf(self.root_ref());
        if !root_is_leaf {
            return Vec::new();
        }
        let n = node_entry_count(self.root_ref());
        let leaf_max = self.leaf_max();
        if n <= leaf_max {
            return Vec::new();
        }
        let mut k: usize = 0;
        while k < n
            invariant
                k <= n == self.root_entries().len(),
                forall|i: int| 0 <= i < k ==> #[trigger] self.root_entries()[i].value is Leaf,
            decreases n - k,
        {
            if let Child::Inner { .. } = node_entry_at(self.root_ref(), k).value {
                assert(!(self.root_entries()[k as int].value is Leaf));
                return Vec::new();
            }
            k += 1;
        }
        let has_table = match self {
            BigOrderedMap::BPlusTreeMap { nodes, .. } => match nodes {
                StorageSlotsAllocator::V1 { slots, .. } => slots.is_some(),
            },
        };
        if !has_table {
            return Vec::new();
        }
        let target_size = (leaf_max + 1) / 2;
        if target_size == 0 {
            return Vec::new();
        }
        assert(root_split_due(*old(self)));
        let ghost old_entries = self.root_entries();
        let (_, all, _, _) = node_parts(copy_node(self.root_ref()));
        let first_slot = match self {
            BigOrderedMap::BPlusTreeMap { nodes, .. } => match nodes {
                StorageSlotsAllocator::V1 { new_slot_index, .. } => *new_slot_index,
            },
        };
        let mut items: Vec<(u64, Link<Node<K, V>>)> = Vec::new();
        let mut inner_entries: Vec<Entry<K, Child<V>>> = Vec::new();
        let mut start: usize = 0;
        let mut count: u64 = 0;
        while start < n
            invariant
                n == all@.len() == old_entries.len(),
                all@ == old_entries,
                0 < target_size,
                start <= n,
                count <= start,
                first_slot + n <= u64::MAX,
                items@.len() == count,
                inner_entries@.len() == count,
                written_entries(items@) == all@.take(start as int),
                start == 0 <==> count == 0,
                target_size == (old(self).leaf_degree() + 1) / 2,
                start == chunk_start(n as int, target_size as int, count as nat),
                forall|i: int|
                    0 <= i < count ==> {
                        let a = chunk_start(n as int, target_size as int, i as nat);
                        let b = chunk_start(n as int, target_size as int, (i + 1) as nat);
                        &&& a < b <= start
                        &&& (#[trigger] items@[i]).1 matches Link::Occupied { value: nd } && node_view(nd) == (
                            true,
                            all@.subrange(a, b),
                            if i == 0 {
                                0u64
                            } else {
                                (items@[i].0 - 1) as u64
                            },
                            if b < n {
                                (items@[i].0 + 1) as u64
                            } else {
                                0u64
                            },
                        )
                        &&& inner_entries@[i].key == all@[b - 1].key
                    },
                forall|i: int|
                    0 <= i < count ==> #[trigger] items@[i].0 == first_slot + i && inner_entries@[i].value
                        == (Child::<V>::Inner { node_index: StoredSlot { slot_index: items@[i].0 } }),
            decreases n - start,
        {
            let remaining = n - start;
            let end = if remaining <= target_size {
                n
            } else if remaining - target_size < target_size / 2 {
                n
            } else {
                start + target_size
            };
            let chunk = entries_range(&all, start, end);
            let slot = first_slot + count;
            let prev = if count == 0 {
                0
            } else {
                slot - 1
            };
            let next = if end < n {
                slot + 1
            } else {
                0
            };
            let max_key = chunk[chunk.len() - 1].key;
            let ghost before = items@;
            let ghost before_inner = inner_entries@;
            proof {
                assert(chunk_start(n as int, target_size as int, (count + 1) as nat) == end);
            }
            items.push((slot, Link::Occupied { value: make_node(true, chunk, prev, next) }));
            inner_entries.push(
                Entry { key: max_key, value: Child::Inner { node_index: StoredSlot { slot_index: slot } } },
            );
            proof {
                assert forall|i: int| 0 <= i < count implies #[trigger] items@[i] == before[i] && inner_entries@[i]
                    == before_inner[i] by {}
                assert(items@.drop_last() =~= before);
                assert(all@.take(start as int) + all@.subrange(start as int, end as int) =~= all@.take(
                    end as int,
                ));
            }
            start = end;
            count = count + 1;
        }
        assert(all@.take(n as int) =~= all@);
        match self {
            BigOrderedMap::BPlusTreeMap { nodes, .. } => match nodes {
                StorageSlotsAllocator::V1 { new_slot_index, slots, .. } => {
                    *new_slot_index = first_slot + count;
                    if let Some(twl) = slots {
                        twl.length = twl.length + count;
                    }
                },
            },
        }
        self.set_root(make_node(false, inner_entries, 0, 0));
        self.set_leaf_bounds(first_slot, first_slot + count - 1);
        items
    }
}


/// Whether no entry of `s` points to a child node.
pub open spec fn all_leaf_entries<K, V>(s: Seq<Entry<K, Child<V>>>) -> bool {
    forall|i: int| 0 <= i < s.len() ==> #[trigger] s[i].value is Leaf
}

fn first_inner_from_back<K: Copy, V: Copy>(entries: &Vec<Entry<K, Child<V>>>) -> (r: bool)
    ensures
        r == !all_leaf_entries(entries@),
{
    let mut i: usize = 0;
    while i < entries.len()
        invariant
            i <= entries@.len(),
            forall|j: int| 0 <= j < i ==> #[trigger] entries@[j].value is Leaf,
        decreases entries@.len() - i,
    {
        if let Child::Inner { .. } = entries[i].value {
            return true;
        }
        i += 1;
    }
    false
}

impl<K: TreeKey, V: Copy> BigOrderedMap<K, V> {
    /// Replaces each root entry that points to a child node by the child's
    /// own entries, read from storage, pass after pass until none is left;
    /// the root is then a leaf. A root with no such entry stays as it is.
    pub fn resolve_inner_nodes(&mut self, store: &SlotStore<K, V>) -> (r: Result<(), TreeError>)
        ensures
            all_leaf_entries(old(self).root_entries()) ==> r is Ok && *final(self) == *old(self),
            r is Ok && !all_leaf_entries(old(self).root_entries()) ==> final(self).root_node().leaf_flag()
                && all_leaf_entries(final(self).root_entries()),
            final(self).allocator() == old(self).allocator(),
            final(self).min_leaf() == old(self).min_leaf(),
            final(self).max_leaf() == old(self).max_leaf(),
    {
        let (is_leaf0, entries0, _, _) = node_parts(copy_node(self.root_ref()));
        if !first_inner_from_back(&entries0) {
            return Ok(());
        }
        let max_passes: usize = 20;
        let mut pass: usize = 0;
        while pass < max_passes
            invariant
                pass <= max_passes,
                !all_leaf_entries(old(self).root_entries()),
                self.allocator() == old(self).allocator(),
                self.min_leaf() == old(self).min_leaf(),
                self.max_leaf() == old(self).max_leaf(),
            decreases max_passes - pass,
        {
            let (is_leaf, mut entries, prev, next) = node_parts(copy_node(self.root_ref()));
            let mut idx = entries.len();
            while idx > 0
                invariant
                    idx <= entries@.len(),
                    !all_leaf_entries(old(self).root_entries()),
                    self.allocator() == old(self).allocator(),
                    self.min_leaf() == old(self).min_leaf(),
                    self.max_leaf() == old(self).max_leaf(),
                decreases idx,
            {
                idx -= 1;
                if let Child::Inner { node_index } = entries[idx].value {
                    let slot_index = node_index.slot_index;
                    let child_entries = match store.get(slot_index) {
                        Some(link) => match link {
                            Link::Occupied { value } => {
                                let (_, ce, _, _) = node_parts(copy_node(value));
                                ce
                            },
                            Link::Vacant { .. } => {
                                return Err(TreeError::SlotVacant(slot_index));
                            },
                        },
                        None => {
                            return Err(TreeError::SlotNotFound(slot_index));
                        },
                    };
                    let mut spliced = entries_range(&entries, 0, idx);
                    let mut middle = child_entries;
                    let mut tail = entries_range(&entries, idx + 1, entries.len());
                    spliced.append(&mut middle);
                    spliced.append(&mut tail);
                    entries = spliced;
                    if idx > entries.len() {
                        idx = entries.len();
                    }
                }
            }
            let still_inner = first_inner_from_back(&entries);
            if !still_inner {
                self.set_root(make_node(true, entries, prev, next));
                return Ok(());
            }
            self.set_root(make_node(is_leaf, entries, prev, next));
            pass += 1;
        }
        Err(TreeError::MaxDepthExceeded)
    }

    /// Adds an entry below a root with child nodes one level deep: into the
    /// root while it is a leaf, else into the child whose key range takes
    /// `key`, splitting that child in two when it grows past the leaf
    /// degree. The child slots to write come back, with whether each is new;
    /// nothing changes where the child cannot be read.
    pub fn add_to_tree(&mut self, key: K, value: V, store: &SlotStore<K, V>) -> (r: Vec<
        (u64, Link<Node<K, V>>, bool),
    >)
        ensures
            old(self).root_node().leaf_flag() ==> r@.len() == 0 && final(self).only_root_entries_changed(
                *old(self),
            ) && final(self).root_entries() == old(self).root_entries().insert(
                lower_bound_spec(old(self).root_entries(), key),
                Entry { key, value: Child::Leaf { value } },
            ),
            r@.len() <= 2,
            ({
                let es = old(self).root_entries();
                let ci = descend_index(es, key);
                let slot = es[ci].value->node_index.slot_index;
                let cn = store.content(slot).unwrap()->value;
                let ce = cn.entry_seq().insert(
                    lower_bound_spec(cn.entry_seq(), key),
                    Entry { key, value: Child::Leaf { value } },
                );
                let raised = if es[ci].key.key_lt(key) {
                    es.update(ci, Entry { key, value: es[ci].value })
                } else {
                    es
                };
                let t = (old(self).leaf_degree() + 1) / 2;
                let nf = old(self).allocator().next_fresh();
                let rv = old(self).root_node();
                !rv.leaf_flag() && es.len() > 0 && es[ci].value is Inner && store.content(slot) is Some && store.content(
                    slot,
                ).unwrap() is Occupied ==> {
                    &&& ce.len() <= old(self).leaf_degree() ==> {
                        &&& r@.len() == 1 && r@[0].0 == slot && !r@[0].2
                        &&& r@[0].1 matches Link::Occupied { value: nd } && node_view(nd) == (
                            cn.leaf_flag(),
                            ce,
                            cn.prev_link(),
                            cn.next_link(),
                        )
                        &&& node_view(final(self).root_node()) == (false, raised, rv.prev_link(), rv.next_link())
                        &&& final(self).allocator() == old(self).allocator()
                    }
                    &&& ce.len() > old(self).leaf_degree() && 1 <= t < ce.len() && nf < u64::MAX && (old(
                        self,
                    ).allocator().table() is Some ==> old(self).allocator().table().unwrap().length < u64::MAX) ==> {
                        &&& r@.len() == 2 && r@[0].0 == slot && !r@[0].2 && r@[1].0 == nf && r@[1].2
                        &&& r@[0].1 matches Link::Occupied { value: a } && node_view(a) == (
                            true,
                            ce.take(t),
                            cn.prev_link(),
                            nf,
                        )
                        &&& r@[1].1 matches Link::Occupied { value: b } && node_view(b) == (
                            true,
                            ce.skip(t),
                            slot,
                            cn.next_link(),
                        )
                        &&& node_view(final(self).root_node()) == (
                            false,
                            raised.update(ci, Entry { key: ce[t - 1].key, value: es[ci].value }).insert(
                                ci + 1,
                                Entry {
                                    key: ce.last().key,
                                    value: Child::Inner { node_index: StoredSlot { slot_index: nf } },
                                },
                            ),
                            rv.prev_link(),
                            rv.next_link(),
                        )
                        &&& final(self).allocator().next_fresh() == nf + 1
                    }
                }
            }),
    {
        let (is_leaf, mut entries, root_prev, root_next) = node_parts(copy_node(self.root_ref()));
        if is_leaf {
            let pos = lower_bound(&entries, &key);
            entries.insert(pos, Entry { key, value: Child::Leaf { value } });
            self.set_root(make_node(is_leaf, entries, root_prev, root_next));
            return Vec::new();
        }
        if entries.len() == 0 {
            return Vec::new();
        }
        let mut child_idx = lower_bound(&entries, &key);
        if child_idx > entries.len() - 1 {
            child_idx = entries.len() - 1;
        }
        let slot_index = match entries[child_idx].value {
            Child::Inner { node_index } => node_index.slot_index,
            Child::Leaf { .. } => {
                let pos = lower_bound(&entries, &key);
                entries.insert(pos, Entry { key, value: Child::Leaf { value } });
                self.set_root(make_node(is_leaf, entries, root_prev, root_next));
                return Vec::new();
            },
        };
        let child_node = match store.get(slot_index) {
            Some(link) => match link {
                Link::Occupied { value } => copy_node(value),
                Link::Vacant { .. } => {
                    return Vec::new();
                },
            },
            None => {
                return Vec::new();
            },
        };
        let (c_leaf, mut child_entries, child_prev, child_next) = node_parts(child_node);
        let pos = lower_bound(&child_entries, &key);
        child_entries.insert(pos, Entry { key, value: Child::Leaf { value } });
        let ghost ce = child_entries@;
        if key_less(&entries[child_idx].key, &key) {
            let e = entries[child_idx];
            entries.set(child_idx, Entry { key, value: e.value });
        }
        let ghost raised = entries@;
        let leaf_max = self.leaf_max();
        let mut table_items: Vec<(u64, Link<Node<K, V>>, bool)> = Vec::new();
        if child_entries.len() > leaf_max {
            let target_size = (leaf_max + 1) / 2;
            if target_size == 0 || target_size >= child_entries.len() {
                return Vec::new();
            }
            let new_slot = match self {
                BigOrderedMap::BPlusTreeMap { nodes, .. } => match nodes {
                    StorageSlotsAllocator::V1 { new_slot_index, slots, .. } => {
                        if *new_slot_index == u64::MAX {
                            return Vec::new();
                        }
                        if let Some(twl) = slots {
                            if twl.length == u64::MAX {
                                return Vec::new();
                            }
                        }
                        let ns = *new_slot_index;
                        *new_slot_index = ns + 1;
                        if let Some(twl) = slots {
                            twl.length = twl.length + 1;
                        }
                        ns
                    },
                },
            };
            let right_entries = child_entries.split_off(target_size);
            proof {
                assert(child_entries@ =~= ce.take(target_size as int));
                assert(right_entries@ =~= ce.skip(target_size as int));
            }
            let left_max_key = child_entries[child_entries.len() - 1].key;
            let right_max_key = right_entries[right_entries.len() - 1].key;
            let left_child = make_node(true, child_entries, child_prev, new_slot);
            let right_child = make_node(true, right_entries, slot_index, child_next);
            table_items.push((slot_index, Link::Occupied { value: left_child }, false));
            table_items.push((new_slot, Link::Occupied { value: right_child }, true));
            let e = entries[child_idx];
            entries.set(child_idx, Entry { key: left_max_key, value: e.value });
            entries.insert(
                child_idx + 1,
                Entry { key: right_max_key, value: Child::Inner { node_index: StoredSlot { slot_index: new_slot } } },
            );
        } else {
            table_items.push((slot_index, Link::Occupied { value: make_node(c_leaf, child_entries, child_prev, child_next) }, false));
        }
        self.set_root(make_node(is_leaf, entries, root_prev, root_next));
        table_items
    }
}


/// The entries after `key` is removed where it stands at its lower bound.
pub open spec fn remove_entries<K: TreeKey, C>(s: Seq<Entry<K, C>>, key: K) -> Seq<Entry<K, C>> {
    if has_key_at_bound(s, key) {
        s.remove(lower_bound_spec(s, key))
    } else {
        s
    }
}

/// A key written is read back: after `key` is mapped to `v`, looking
/// `key` up gives `v`.
pub proof fn lemma_upsert_then_value<K: TreeKey, V>(s: Seq<Entry<K, Child<V>>>, key: K, v: V)
    ensures
        value_at_bound(upsert_entries(s, key, Child::Leaf { value: v }), key) == Some(v),
        lower_bound_spec(upsert_entries(s, key, Child::Leaf { value: v }), key) == lower_bound_spec(s, key),
{
    let p = lower_bound_spec(s, key);
    let t = upsert_entries(s, key, Child::Leaf { value: v });
    lemma_lower_bound_range(s, key);
    lemma_lower_bound_props(s, key);
    K::lemma_key_lt_irreflexive(key);
    assert forall|j: int| 0 <= j < p implies #[trigger] t[j].key.key_lt(key) by {
        assert(t[j] == s[j]);
        assert(s[j].key.key_lt(key));
    }
    lemma_lower_bound_char(t, key, p);
}

/// Mapping a key keeps the keys sorted.
pub proof fn lemma_upsert_keeps_sorted<K: TreeKey, C>(s: Seq<Entry<K, C>>, key: K, c: C)
    requires
        sorted_keys(s),
    ensures
        sorted_keys(upsert_entries(s, key, c)),
{
    let p = lower_bound_spec(s, key);
    let t = upsert_entries(s, key, c);
    lemma_lower_bound_range(s, key);
    lemma_lower_bound_props(s, key);
    if has_key_at_bound(s, key) {
        assert forall|i: int, j: int| 0 <= i < j < t.len() implies #[trigger] t[i].key.key_lt(
            #[trigger] t[j].key,
        ) by {
            assert(t[i].key == s[i].key);
            assert(t[j].key == s[j].key);
            assert(s[i].key.key_lt(s[j].key));
        }
    } else {
        assert forall|i: int, j: int| 0 <= i < j < t.len() implies #[trigger] t[i].key.key_lt(
            #[trigger] t[j].key,
        ) by {
            if j < p {
                assert(s[i].key.key_lt(s[j].key));
            } else if j == p {
                assert(t[i] == s[i]);
                assert(s[i].key.key_lt(key));
            } else if i < p {
                assert(t[i] == s[i]);
                assert(t[j] == s[j - 1]);
                assert(s[i].key.key_lt(s[j - 1].key));
            } else if i == p {
                assert(t[j] == s[j - 1]);
                K::lemma_key_lt_total(key, s[p].key);
                assert(key.key_lt(s[p].key));
                if j - 1 > p {
                    assert(s[p].key.key_lt(s[j - 1].key));
                    K::lemma_key_lt_transitive(key, s[p].key, s[j - 1].key);
                }
            } else {
                assert(t[i] == s[i - 1]);
                assert(t[j] == s[j - 1]);
                assert(s[i - 1].key.key_lt(s[j - 1].key));
            }
        }
    }
}

/// A key removed is gone: in sorted entries, after `key` is removed,
/// looking it up finds nothing.
pub proof fn lemma_remove_then_absent<K: TreeKey, C>(s: Seq<Entry<K, C>>, key: K)
    requires
        sorted_keys(s),
    ensures
        !has_key_at_bound(remove_entries(s, key), key),
        sorted_keys(remove_entries(s, key)),
{
    let p = lower_bound_spec(s, key);
    lemma_lower_bound_range(s, key);
    lemma_lower_bound_props(s, key);
    if has_key_at_bound(s, key) {
        let t = s.remove(p);
        assert forall|i: int, j: int| 0 <= i < j < t.len() implies #[trigger] t[i].key.key_lt(
            #[trigger] t[j].key,
        ) by {
            let si = if i < p { i } else { i + 1 };
            let sj = if j < p { j } else { j + 1 };
            assert(t[i] == s[si]);
            assert(t[j] == s[sj]);
            assert(s[si].key.key_lt(s[sj].key));
        }
        assert forall|j: int| 0 <= j < p implies #[trigger] t[j].key.key_lt(key) by {
            assert(t[j] == s[j]);
            assert(s[j].key.key_lt(key));
        }
        if p < t.len() {
            assert(t[p] == s[p + 1]);
            assert(s[p].key.key_lt(s[p + 1].key));
            if s[p + 1].key.key_lt(key) {
                K::lemma_key_lt_transitive(key, s[p + 1].key, key);
                K::lemma_key_lt_irreflexive(key);
            }
            K::lemma_key_lt_irreflexive(key);
        }
        lemma_lower_bound_char(t, key, p);
    }
}


/// In sorted entries, an entry of `key` stands at the lower bound of `key`.
proof fn lemma_sorted_index_is_bound<K: TreeKey, C>(s: Seq<Entry<K, C>>, key: K, i: int)
    requires
        sorted_keys(s),
        0 <= i < s.len(),
        s[i].key == key,
    ensures
        lower_bound_spec(s, key) == i,
{
    lemma_lower_bound_range(s, key);
    lemma_lower_bound_props(s, key);
    let p = lower_bound_spec(s, key);
    K::lemma_key_lt_irreflexive(key);
    if i < p {
        assert(s[i].key.key_lt(key));
    } else if i > p {
        assert(s[p].key.key_lt(s[i].key));
    }
}

/// Writing one key leaves every other key as it was.
pub proof fn lemma_upsert_keeps_other<K: TreeKey, V>(
    s: Seq<Entry<K, Child<V>>>,
    key: K,
    c: Child<V>,
    other: K,
)
    requires
        sorted_keys(s),
        other != key,
    ensures
        has_key_at_bound(upsert_entries(s, key, c), other) == has_key_at_bound(s, other),
        value_at_bound(upsert_entries(s, key, c), other) == value_at_bound(s, other),
{
    lemma_upsert_keeps_other_entry(s, key, c, other);
}

/// The entry of `key` where it stands at its lower bound.
pub open spec fn entry_value_at_bound<K: TreeKey, C>(s: Seq<Entry<K, C>>, key: K) -> Option<C> {
    if has_key_at_bound(s, key) {
        Some(s[lower_bound_spec(s, key)].value)
    } else {
        None
    }
}

/// Writing one key leaves the entry of every other key as it was.
pub proof fn lemma_upsert_keeps_other_entry<K: TreeKey, C>(s: Seq<Entry<K, C>>, key: K, c: C, other: K)
    requires
        sorted_keys(s),
        other != key,
    ensures
        has_key_at_bound(upsert_entries(s, key, c), other) == has_key_at_bound(s, other),
        entry_value_at_bound(upsert_entries(s, key, c), other) == entry_value_at_bound(s, other),
{
    let p = lower_bound_spec(s, key);
    let t = upsert_entries(s, key, c);
    let found = has_key_at_bound(s, key);
    lemma_lower_bound_range(s, key);
    lemma_upsert_keeps_sorted(s, key, c);
    lemma_sorted_find(s, other);
    lemma_sorted_find(t, other);
    lemma_lower_bound_range(s, other);
    lemma_lower_bound_range(t, other);
    if has_key_at_bound(s, other) {
        let i = lower_bound_spec(s, other);
        let j = if found || i < p {
            i
        } else {
            i + 1
        };
        assert(t[j] == s[i]);
        lemma_sorted_index_is_bound(t, other, j);
    } else if has_key_at_bound(t, other) {
        let j = lower_bound_spec(t, other);
        assert(j != p);
        let i = if found || j < p {
            j
        } else {
            j - 1
        };
        assert(t[j] == s[i]);
        assert(s[i].key == other);
    }
}


/// A key written is found with what was written, whatever the entries hold.
pub proof fn lemma_upsert_then_entry<K: TreeKey, C>(s: Seq<Entry<K, C>>, key: K, c: C)
    ensures
        entry_value_at_bound(upsert_entries(s, key, c), key) == Some(c),
        has_key_at_bound(upsert_entries(s, key, c), key),
{
    let p = lower_bound_spec(s, key);
    let t = upsert_entries(s, key, c);
    lemma_lower_bound_range(s, key);
    lemma_lower_bound_props(s, key);
    K::lemma_key_lt_irreflexive(key);
    assert forall|j: int| 0 <= j < p implies #[trigger] t[j].key.key_lt(key) by {
        assert(t[j] == s[j]);
        assert(s[j].key.key_lt(key));
    }
    lemma_lower_bound_char(t, key, p);
}

/// Removing one key leaves the entry of every other key as it was.
pub proof fn lemma_remove_keeps_other_entry<K: TreeKey, C>(s: Seq<Entry<K, C>>, key: K, other: K)
    requires
        sorted_keys(s),
        other != key,
    ensures
        has_key_at_bound(remove_entries(s, key), other) == has_key_at_bound(s, other),
        entry_value_at_bound(remove_entries(s, key), other) == entry_value_at_bound(s, other),
{
    if has_key_at_bound(s, key) {
        let p = lower_bound_spec(s, key);
        let t = remove_entries(s, key);
        lemma_lower_bound_range(s, key);
        lemma_remove_then_absent(s, key);
        lemma_sorted_find(s, other);
        lemma_sorted_find(t, other);
        lemma_lower_bound_range(s, other);
        lemma_lower_bound_range(t, other);
        if has_key_at_bound(s, other) {
            let i = lower_bound_spec(s, other);
            assert(i != p);
            let j = if i < p {
                i
            } else {
                i - 1
            };
            assert(t[j] == s[i]);
            lemma_sorted_index_is_bound(t, other, j);
        } else if has_key_at_bound(t, other) {
            let j = lower_bound_spec(t, other);
            let i = if j < p {
                j
            } else {
                j + 1
            };
            assert(t[j] == s[i]);
            assert(s[i].key == other);
        }
    }
}


/// In sorted entries, an entry of `key` stands at the lower bound of `key`.
pub proof fn lemma_sorted_index_is_bound_pub<K: TreeKey, C>(s: Seq<Entry<K, C>>, key: K, i: int)
    requires
        sorted_keys(s),
        0 <= i < s.len(),
        s[i].key == key,
    ensures
        lower_bound_spec(s, key) == i,
{
    lemma_sorted_index_is_bound(s, key, i);
}


/// Whether the nodes on the search for `key` are sorted, and those above
/// its last hold child nodes only.
pub open spec fn sorted_search<K: TreeKey, V>(m: BigOrderedMap<K, V>, store: SlotStore<K, V>, key: K) -> bool {
    let p = m.key_search(store, key).unwrap();
    &&& m.key_search(store, key) is Some
    &&& forall|i: int| 0 <= i < p.len() ==> sorted_keys(m.node_at(store, #[trigger] p[i]).unwrap().entry_seq())
    &&& forall|i: int, j: int|
        0 <= i < p.len() - 1 && 0 <= j < m.node_at(store, p[i]).unwrap().entry_seq().len() ==> (#[trigger] m.node_at(
            store,
            #[trigger] p[i],
        ).unwrap().entry_seq()[j]).value is Inner
}

/// Whether `s1` is `store` with `w` written, in order.
pub open spec fn stored_after<K, V>(store: SlotStore<K, V>, w: Seq<TableWrite<K, V>>, s1: SlotStore<K, V>) -> bool {
    forall|idx: u64| #[trigger] s1.content(idx) == after_writes(w, idx, store.content(idx))
}

/// While the root is a leaf, the map is what its entries hold, whatever
/// the slots.
pub proof fn lemma_leaf_root_view<K: TreeKey, V>(m: BigOrderedMap<K, V>, store: SlotStore<K, V>, k: K)
    requires
        m.root_node().leaf_flag(),
    ensures
        m.search_end(store, k) == Some(m.root_node()),
        m.map_view(store).dom().contains(k) == value_at_bound(m.root_entries(), k) is Some,
        m.map_view(store).dom().contains(k) ==> m.map_view(store)[k] == value_at_bound(m.root_entries(), k).unwrap(),
{
    assert(m.search_path(store, k, 1, 20) == Some(seq![1u64]));
}

/// Adding to a leaf root: the map holds the key with the value added and
/// every other key as before.
pub proof fn lemma_leaf_root_add_view<K: TreeKey, V>(
    m0: BigOrderedMap<K, V>,
    m1: BigOrderedMap<K, V>,
    store: SlotStore<K, V>,
    key: K,
    value: V,
)
    requires
        m0.root_node().leaf_flag(),
        sorted_keys(m0.root_entries()),
        m1.root_node().leaf_flag(),
        m1.root_entries() == upsert_entries(m0.root_entries(), key, Child::Leaf { value }),
    ensures
        m1.map_view(store) == m0.map_view(store).insert(key, value),
{
    let e0 = m0.root_entries();
    assert forall|k: K| #[trigger] m1.map_view(store).dom().contains(k) == m0.map_view(store).insert(
        key,
        value,
    ).dom().contains(k) && (m1.map_view(store).dom().contains(k) ==> m1.map_view(store)[k] == m0.map_view(
        store,
    ).insert(key, value)[k]) by {
        lemma_leaf_root_view(m0, store, k);
        lemma_leaf_root_view(m1, store, k);
        if k == key {
            lemma_upsert_then_value(e0, key, value);
        } else {
            lemma_upsert_keeps_other(e0, key, Child::Leaf { value }, k);
        }
    }
    assert(m1.map_view(store) =~= m0.map_view(store).insert(key, value));
}

/// Removing from a leaf root: the map no longer holds the key, and every
/// other key as before.
pub proof fn lemma_leaf_root_remove_view<K: TreeKey, V>(
    m0: BigOrderedMap<K, V>,
    m1: BigOrderedMap<K, V>,
    store: SlotStore<K, V>,
    key: K,
)
    requires
        m0.root_node().leaf_flag(),
        sorted_keys(m0.root_entries()),
        m1.root_node().leaf_flag(),
        m1.root_entries() == remove_entries(m0.root_entries(), key),
    ensures
        m1.map_view(store) == m0.map_view(store).remove(key),
{
    let e0 = m0.root_entries();
    assert forall|k: K| #[trigger] m1.map_view(store).dom().contains(k) == m0.map_view(store).remove(
        key,
    ).dom().contains(k) && (m1.map_view(store).dom().contains(k) ==> m1.map_view(store)[k] == m0.map_view(
        store,
    ).remove(key)[k]) by {
        lemma_leaf_root_view(m0, store, k);
        lemma_leaf_root_view(m1, store, k);
        if k == key {
            lemma_remove_then_absent(e0, key);
        } else {
            lemma_remove_keeps_other_entry(e0, key, k);
        }
    }
    assert(m1.map_view(store) =~= m0.map_view(store).remove(key));
}

/// Adding in place, once the writes are stored: the map holds the key
/// with the value added and every other key as before.
pub proof fn lemma_in_place_add_view<K: TreeKey, V>(
    m0: BigOrderedMap<K, V>,
    s0: SlotStore<K, V>,
    key: K,
    value: V,
    m1: BigOrderedMap<K, V>,
    writes: Seq<TableWrite<K, V>>,
    s1: SlotStore<K, V>,
)
    requires
        m0.at_rest(),
        m0.in_place_add(s0, key),
        sorted_keys(m0.search_end(s0, key).unwrap().entry_seq()),
        m0.in_place_add_result(s0, key, value, m1, writes),
        forall|idx: u64| #[trigger] s1.content(idx) == after_writes(writes, idx, s0.content(idx)),
    ensures
        m1.map_view(s1) == m0.map_view(s0).insert(key, value),
{
    assert forall|k: K| #[trigger] m1.map_view(s1).dom().contains(k) == m0.map_view(s0).insert(
        key,
        value,
    ).dom().contains(k) && (m1.map_view(s1).dom().contains(k) ==> m1.map_view(s1)[k] == m0.map_view(
        s0,
    ).insert(key, value)[k]) by {
        if k == key {
            lemma_in_place_add_then_get(m0, s0, key, value, m1, writes, s1);
        } else {
            lemma_in_place_add_keeps_others(m0, s0, key, value, m1, writes, s1, k);
        }
    }
    assert(m1.map_view(s1) =~= m0.map_view(s0).insert(key, value));
}

/// Removing in place, once the writes are stored: the map no longer holds
/// the key, and every other key as before.
pub proof fn lemma_in_place_remove_view<K: TreeKey, V>(
    m0: BigOrderedMap<K, V>,
    s0: SlotStore<K, V>,
    key: K,
    removed: Option<V>,
    m1: BigOrderedMap<K, V>,
    writes: Seq<TableWrite<K, V>>,
    s1: SlotStore<K, V>,
)
    requires
        m0.at_rest(),
        m0.in_place_remove(s0, key),
        sorted_keys(m0.search_end(s0, key).unwrap().entry_seq()),
        m0.in_place_remove_result(s0, key, removed, m1, writes),
        forall|idx: u64| #[trigger] s1.content(idx) == after_writes(writes, idx, s0.content(idx)),
    ensures
        m1.map_view(s1) == m0.map_view(s0).remove(key),
{
    assert forall|k: K| #[trigger] m1.map_view(s1).dom().contains(k) == m0.map_view(s0).remove(
        key,
    ).dom().contains(k) && (m1.map_view(s1).dom().contains(k) ==> m1.map_view(s1)[k] == m0.map_view(
        s0,
    ).remove(key)[k]) by {
        if k == key {
            lemma_in_place_remove_then_get(m0, s0, key, removed, m1, writes, s1);
        } else {
            lemma_in_place_remove_keeps_others(m0, s0, key, removed, m1, writes, s1, k);
        }
    }
    assert(m1.map_view(s1) =~= m0.map_view(s0).remove(key));
}


/// Whether the search for `key` steps alike through slot `x` in both
/// maps: the slot reads in both or in neither, as nodes of the same kind
/// and emptiness, and where the search goes on from it, to the same child.
pub open spec fn steps_alike<K: TreeKey, V>(
    m0: BigOrderedMap<K, V>,
    s0: SlotStore<K, V>,
    m1: BigOrderedMap<K, V>,
    s1: SlotStore<K, V>,
    key: K,
    x: u64,
) -> bool {
    let a = m0.node_at(s0, x);
    let b = m1.node_at(s1, x);
    ||| a is None && b is None
    ||| a is Some && b is Some && a.unwrap().leaf_flag() == b.unwrap().leaf_flag() && (a.unwrap().entry_seq().len()
        == 0) == (b.unwrap().entry_seq().len() == 0) && (!a.unwrap().leaf_flag() && a.unwrap().entry_seq().len()
        > 0 ==> a.unwrap().entry_seq()[descend_index(a.unwrap().entry_seq(), key)].value == b.unwrap().entry_seq()[descend_index(
        b.unwrap().entry_seq(),
        key,
    )].value)
}

/// Where every slot steps alike for `key`, the search for it goes alike.
proof fn lemma_search_steps_alike<K: TreeKey, V>(
    m0: BigOrderedMap<K, V>,
    s0: SlotStore<K, V>,
    m1: BigOrderedMap<K, V>,
    s1: SlotStore<K, V>,
    key: K,
    c: u64,
    f: nat,
)
    requires
        forall|x: u64| #[trigger] steps_alike(m0, s0, m1, s1, key, x),
    ensures
        m1.search_path(s1, key, c, f) == m0.search_path(s0, key, c, f),
    decreases f,
{
    assert(steps_alike(m0, s0, m1, s1, key, c));
    if f > 0 {
        if let Some(n) = m0.node_at(s0, c) {
            if !(n.leaf_flag() || n.entry_seq().len() == 0) {
                if let Child::Inner { node_index } = n.entry_seq()[descend_index(n.entry_seq(), key)].value {
                    lemma_search_steps_alike(m0, s0, m1, s1, key, node_index.slot_index, (f - 1) as nat);
                }
            }
        }
    }
}


/// Renaming the last key of a sorted node to a key still above the one
/// before it leaves every search going through the same entry.
proof fn lemma_renamed_last_descend<K: TreeKey, C>(es: Seq<Entry<K, C>>, nk: K, o: K)
    requires
        sorted_keys(es),
        es.len() > 0,
        es.len() > 1 ==> es[es.len() - 2].key.key_lt(nk),
    ensures
        descend_index(es.update(es.len() - 1, Entry { key: nk, value: es.last().value }), o) == descend_index(es, o),
{
    let l = es.len() - 1;
    let r = es.update(l, Entry { key: nk, value: es.last().value });
    let p = lower_bound_spec(es, o);
    lemma_lower_bound_range(es, o);
    lemma_lower_bound_props(es, o);
    if p < l {
        assert forall|j: int| 0 <= j < p implies #[trigger] r[j].key.key_lt(o) by {
            assert(r[j] == es[j]);
        }
        assert(r[p] == es[p]);
        lemma_lower_bound_char(r, o, p);
    } else {
        assert forall|j: int| 0 <= j < l implies #[trigger] r[j].key.key_lt(o) by {
            assert(r[j] == es[j]);
        }
        if nk.key_lt(o) {
            assert forall|j: int| 0 <= j < r.len() implies #[trigger] r[j].key.key_lt(o) by {
                if j < l {
                    assert(r[j] == es[j]);
                }
            }
            lemma_lower_bound_char(r, o, r.len() as int);
        } else {
            lemma_lower_bound_char(r, o, l);
        }
    }
}

/// Adding a key as the new largest key of its leaf leaves every other key's
/// value as it was, once the writes are stored, where the nodes above the
/// leaf hold child nodes only.
pub proof fn lemma_extend_add_keeps_others<K: TreeKey, V>(
    m0: BigOrderedMap<K, V>,
    s0: SlotStore<K, V>,
    key: K,
    value: V,
    m1: BigOrderedMap<K, V>,
    writes: Seq<TableWrite<K, V>>,
    s1: SlotStore<K, V>,
    other: K,
)
    requires
        m0.at_rest(),
        m0.key_search(s0, key) is Some,
        m0.extend_add_at(s0, m0.key_search(s0, key).unwrap(), key),
        forall|i: int|
            0 <= i < m0.key_search(s0, key).unwrap().len() ==> sorted_keys(
                m0.node_at(s0, #[trigger] m0.key_search(s0, key).unwrap()[i]).unwrap().entry_seq(),
            ),
        forall|i: int, j: int|
            0 <= i < m0.key_search(s0, key).unwrap().len() - 1 && 0 <= j < m0.node_at(
                s0,
                m0.key_search(s0, key).unwrap()[i],
            ).unwrap().entry_seq().len() ==> (#[trigger] m0.node_at(
                s0,
                #[trigger] m0.key_search(s0, key).unwrap()[i],
            ).unwrap().entry_seq()[j]).value is Inner,
        m0.extend_add_result_at(s0, m0.key_search(s0, key).unwrap(), key, Child::Leaf { value }, m1, writes),
        m1.at_rest(),
        forall|idx: u64| #[trigger] s1.content(idx) == after_writes(writes, idx, s0.content(idx)),
        other != key,
    ensures
        m1.key_search(s1, other) == m0.key_search(s0, other),
        match m0.search_end(s0, other) {
            Some(n) => m1.search_end(s1, other) matches Some(n1) && value_at_bound(n1.entry_seq(), other)
                == value_at_bound(n.entry_seq(), other),
            None => m1.search_end(s1, other) is None,
        },
{
    let p = m0.key_search(s0, key).unwrap();
    let len = p.len();
    let ni = p.last();
    let n = m0.node_at(s0, ni).unwrap();
    let om = n.entry_seq().last().key;
    m0.lemma_search_path_ends(s0, key, 1, 20);
    assert(sorted_keys(n.entry_seq())) by {
        assert(p[len - 1] == ni);
    }
    assert(s1.content(ni) == Some(writes[0].data)) by {
        assert forall|k: int| 0 < k < writes.len() implies #[trigger] writes[k].slot_index != ni by {
            assert(writes[1 + (k - 1)].slot_index == p[len - 2 - (k - 1)]);
        }
        lemma_after_writes_at(writes, ni, s0.content(ni), 0);
    }
    assert(m1.cache().content(ni) is None);
    assert forall|x: u64| #[trigger] steps_alike(m0, s0, m1, s1, other, x) by {
        assert(m0.cache().content(x) is None);
        assert(m1.cache().content(x) is None);
        if x == ni {
            assert(m1.node_at(s1, x) == Some(writes[0].data->value));
            let u = upsert_entries(n.entry_seq(), key, Child::Leaf { value });
            lemma_upsert_then_value(n.entry_seq(), key, value);
            assert(u.len() > 0);
        } else if exists|i: int| 0 <= i < len - 1 && p[i] == x {
            let i = choose|i: int| 0 <= i < len - 1 && p[i] == x;
            let n0 = m0.node_at(s0, x).unwrap();
            let es = n0.entry_seq();
            lemma_search_path_step(m0, s0, key, 1, 20, i);
            assert(m1.node_at(s1, x) matches Some(nx) && node_view(nx) == renamed_last(n0, key)) by {
                if i == 0 {
                    assert(x == 1);
                } else {
                    let k = len - 2 - i;
                    assert(writes[1 + k].slot_index == x);
                    assert forall|kk: int| 1 + k < kk < writes.len() implies #[trigger] writes[kk].slot_index
                        != x by {
                        assert(writes[1 + (kk - 1)].slot_index == p[len - 2 - (kk - 1)]);
                    }
                    lemma_after_writes_at(writes, x, s0.content(x), 1 + k);
                }
            }
            assert(sorted_keys(es));
            lemma_lower_bound_range(es, om);
            assert(es[es.len() - 1].key == om);
            if es.len() > 1 {
                assert(es[es.len() - 2].key.key_lt(om));
                K::lemma_key_lt_transitive(es[es.len() - 2].key, om, key);
            }
            lemma_renamed_last_descend(es, key, other);
            let r = m1.node_at(s1, x).unwrap().entry_seq();
            let d = descend_index(es, other);
            lemma_lower_bound_range(es, other);
            assert(0 <= d < es.len());
            assert(r == es.update(es.len() - 1, Entry { key, value: es.last().value }));
            assert(r[d].value == es[d].value);
        } else {
            assert(x != 1) by {
                assert(p[0] == 1);
            }
            assert forall|k: int| 0 <= k < writes.len() implies #[trigger] writes[k].slot_index != x by {
                if k > 0 {
                    assert(writes[1 + (k - 1)].slot_index == p[len - 2 - (k - 1)]);
                }
            }
            lemma_after_writes_untouched(writes, x, s0.content(x));
            assert(m1.node_at(s1, x) == m0.node_at(s0, x));
        }
    }
    lemma_search_steps_alike(m0, s0, m1, s1, other, 1, 20);
    m0.lemma_search_path_ends(s0, other, 1, 20);
    if let Some(q) = m0.key_search(s0, other) {
        let e = q.last();
        assert(m0.cache().content(e) is None);
        assert(m1.cache().content(e) is None);
        if e == ni {
            assert(m1.node_at(s1, ni) == Some(writes[0].data->value));
            lemma_upsert_keeps_other(n.entry_seq(), key, Child::Leaf { value }, other);
        } else if exists|i: int| 0 <= i < len - 1 && p[i] == e {
            let i = choose|i: int| 0 <= i < len - 1 && p[i] == e;
            let n0 = m0.node_at(s0, e).unwrap();
            let es = n0.entry_seq();
            assert(m1.node_at(s1, e) matches Some(nx) && node_view(nx) == renamed_last(n0, key)) by {
                if i == 0 {
                    assert(e == 1);
                } else {
                    let k = len - 2 - i;
                    assert(writes[1 + k].slot_index == e);
                    assert forall|kk: int| 1 + k < kk < writes.len() implies #[trigger] writes[kk].slot_index
                        != e by {
                        assert(writes[1 + (kk - 1)].slot_index == p[len - 2 - (kk - 1)]);
                    }
                    lemma_after_writes_at(writes, e, s0.content(e), 1 + k);
                }
            }
            let r = m1.node_at(s1, e).unwrap().entry_seq();
            let b0 = lower_bound_spec(es, other);
            let b1 = lower_bound_spec(r, other);
            lemma_lower_bound_range(es, other);
            lemma_lower_bound_range(r, other);
            if b0 < es.len() {
                assert(es[b0].value is Inner);
            }
            if b1 < r.len() {
                assert(r[b1].value == es[b1].value);
                assert(es[b1].value is Inner);
            }
        } else {
            assert(e != 1) by {
                assert(p[0] == 1);
            }
            assert forall|k: int| 0 <= k < writes.len() implies #[trigger] writes[k].slot_index != e by {
                if k > 0 {
                    assert(writes[1 + (k - 1)].slot_index == p[len - 2 - (k - 1)]);
                }
            }
            lemma_after_writes_untouched(writes, e, s0.content(e));
        }
    }
}

/// Removing the largest key of a leaf that stays half full leaves every
/// other key's value as it was, once the writes are stored, where the
/// nodes above the leaf hold child nodes only, keyed below the leaf's new
/// largest key but for their last.
pub proof fn lemma_shrink_remove_keeps_others<K: TreeKey, V>(
    m0: BigOrderedMap<K, V>,
    s0: SlotStore<K, V>,
    key: K,
    removed: Option<V>,
    m1: BigOrderedMap<K, V>,
    writes: Seq<TableWrite<K, V>>,
    s1: SlotStore<K, V>,
    other: K,
)
    requires
        m0.at_rest(),
        m0.key_search(s0, key) is Some,
        m0.shrink_remove_at(s0, m0.key_search(s0, key).unwrap(), key),
        forall|i: int|
            0 <= i < m0.key_search(s0, key).unwrap().len() - 1 && m0.node_at(
                s0,
                m0.key_search(s0, key).unwrap()[i],
            ).unwrap().entry_seq().len() > 1 ==> ({
                let es = m0.node_at(s0, #[trigger] m0.key_search(s0, key).unwrap()[i]).unwrap().entry_seq();
                let les = m0.node_at(s0, m0.key_search(s0, key).unwrap().last()).unwrap().entry_seq();
                es[es.len() - 2].key.key_lt(les[les.len() - 2].key)
            }),
        forall|i: int|
            0 <= i < m0.key_search(s0, key).unwrap().len() ==> sorted_keys(
                m0.node_at(s0, #[trigger] m0.key_search(s0, key).unwrap()[i]).unwrap().entry_seq(),
            ),
        forall|i: int, j: int|
            0 <= i < m0.key_search(s0, key).unwrap().len() - 1 && 0 <= j < m0.node_at(
                s0,
                m0.key_search(s0, key).unwrap()[i],
            ).unwrap().entry_seq().len() ==> (#[trigger] m0.node_at(
                s0,
                #[trigger] m0.key_search(s0, key).unwrap()[i],
            ).unwrap().entry_seq()[j]).value is Inner,
        m0.shrink_remove_result_at(s0, m0.key_search(s0, key).unwrap(), key, removed, m1, writes),
        m1.at_rest(),
        forall|idx: u64| #[trigger] s1.content(idx) == after_writes(writes, idx, s0.content(idx)),
        other != key,
    ensures
        m1.key_search(s1, other) == m0.key_search(s0, other),
        match m0.search_end(s0, other) {
            Some(n) => m1.search_end(s1, other) matches Some(n1) && value_at_bound(n1.entry_seq(), other)
                == value_at_bound(n.entry_seq(), other),
            None => m1.search_end(s1, other) is None,
        },
{
    let p = m0.key_search(s0, key).unwrap();
    let len = p.len();
    let ni = p.last();
    let n = m0.node_at(s0, ni).unwrap();
    let les = n.entry_seq();
    let nmk = les[les.len() - 2].key;
    m0.lemma_search_path_ends(s0, key, 1, 20);
    assert(sorted_keys(n.entry_seq())) by {
        assert(p[len - 1] == ni);
    }
    assert(s1.content(ni) == Some(writes[0].data)) by {
        assert forall|k: int| 0 < k < writes.len() implies #[trigger] writes[k].slot_index != ni by {
            assert(writes[1 + (k - 1)].slot_index == p[len - 2 - (k - 1)]);
        }
        lemma_after_writes_at(writes, ni, s0.content(ni), 0);
    }
    assert(m1.cache().content(ni) is None);
    assert forall|x: u64| #[trigger] steps_alike(m0, s0, m1, s1, other, x) by {
        assert(m0.cache().content(x) is None);
        assert(m1.cache().content(x) is None);
        if x == ni {
            assert(m1.node_at(s1, x) == Some(writes[0].data->value));
            assert(les.drop_last().len() > 0);
        } else if exists|i: int| 0 <= i < len - 1 && p[i] == x {
            let i = choose|i: int| 0 <= i < len - 1 && p[i] == x;
            let n0 = m0.node_at(s0, x).unwrap();
            let es = n0.entry_seq();
            lemma_search_path_step(m0, s0, key, 1, 20, i);
            assert(m1.node_at(s1, x) matches Some(nx) && node_view(nx) == renamed_last(n0, nmk)) by {
                if i == 0 {
                    assert(x == 1);
                } else {
                    let k = len - 2 - i;
                    assert(writes[1 + k].slot_index == x);
                    assert forall|kk: int| 1 + k < kk < writes.len() implies #[trigger] writes[kk].slot_index
                        != x by {
                        assert(writes[1 + (kk - 1)].slot_index == p[len - 2 - (kk - 1)]);
                    }
                    lemma_after_writes_at(writes, x, s0.content(x), 1 + k);
                }
            }
            assert(sorted_keys(es));
            lemma_renamed_last_descend(es, nmk, other);
            let r = m1.node_at(s1, x).unwrap().entry_seq();
            let d = descend_index(es, other);
            lemma_lower_bound_range(es, other);
            assert(0 <= d < es.len());
            assert(r == es.update(es.len() - 1, Entry { key: nmk, value: es.last().value }));
            assert(r[d].value == es[d].value);
        } else {
            assert(x != 1) by {
                assert(p[0] == 1);
            }
            assert forall|k: int| 0 <= k < writes.len() implies #[trigger] writes[k].slot_index != x by {
                if k > 0 {
                    assert(writes[1 + (k - 1)].slot_index == p[len - 2 - (k - 1)]);
                }
            }
            lemma_after_writes_untouched(writes, x, s0.content(x));
            assert(m1.node_at(s1, x) == m0.node_at(s0, x));
        }
    }
    lemma_search_steps_alike(m0, s0, m1, s1, other, 1, 20);
    m0.lemma_search_path_ends(s0, other, 1, 20);
    if let Some(q) = m0.key_search(s0, other) {
        let e = q.last();
        assert(m0.cache().content(e) is None);
        assert(m1.cache().content(e) is None);
        if e == ni {
            assert(m1.node_at(s1, ni) == Some(writes[0].data->value));
            assert(les.drop_last() == remove_entries(les, key)) by {
                K::lemma_key_lt_irreflexive(key);
                lemma_lower_bound_range(les, key);
                assert(les.remove(les.len() - 1) =~= les.drop_last());
            }
            lemma_remove_keeps_other_entry(les, key, other);
        } else if exists|i: int| 0 <= i < len - 1 && p[i] == e {
            let i = choose|i: int| 0 <= i < len - 1 && p[i] == e;
            let n0 = m0.node_at(s0, e).unwrap();
            let es = n0.entry_seq();
            assert(m1.node_at(s1, e) matches Some(nx) && node_view(nx) == renamed_last(n0, nmk)) by {
                if i == 0 {
                    assert(e == 1);
                } else {
                    let k = len - 2 - i;
                    assert(writes[1 + k].slot_index == e);
                    assert forall|kk: int| 1 + k < kk < writes.len() implies #[trigger] writes[kk].slot_index
                        != e by {
                        assert(writes[1 + (kk - 1)].slot_index == p[len - 2 - (kk - 1)]);
                    }
                    lemma_after_writes_at(writes, e, s0.content(e), 1 + k);
                }
            }
            let r = m1.node_at(s1, e).unwrap().entry_seq();
            let b0 = lower_bound_spec(es, other);
            let b1 = lower_bound_spec(r, other);
            lemma_lower_bound_range(es, other);
            lemma_lower_bound_range(r, other);
            if b0 < es.len() {
                assert(es[b0].value is Inner);
            }
            if b1 < r.len() {
                assert(r[b1].value == es[b1].value);
                assert(es[b1].value is Inner);
            }
        } else {
            assert(e != 1) by {
                assert(p[0] == 1);
            }
            assert forall|k: int| 0 <= k < writes.len() implies #[trigger] writes[k].slot_index != e by {
                if k > 0 {
                    assert(writes[1 + (k - 1)].slot_index == p[len - 2 - (k - 1)]);
                }
            }
            lemma_after_writes_untouched(writes, e, s0.content(e));
        }
    }
}


/// Adding a key as the new largest key of its leaf, once the writes are
/// stored: the map holds the key with the value added and every other key
/// as before.
pub proof fn lemma_extend_add_view<K: TreeKey, V>(
    m0: BigOrderedMap<K, V>,
    s0: SlotStore<K, V>,
    key: K,
    value: V,
    m1: BigOrderedMap<K, V>,
    writes: Seq<TableWrite<K, V>>,
    s1: SlotStore<K, V>,
)
    requires
        m0.at_rest(),
        m0.key_search(s0, key) is Some,
        m0.extend_add_at(s0, m0.key_search(s0, key).unwrap(), key),
        forall|i: int|
            0 <= i < m0.key_search(s0, key).unwrap().len() ==> sorted_keys(
                m0.node_at(s0, #[trigger] m0.key_search(s0, key).unwrap()[i]).unwrap().entry_seq(),
            ),
        forall|i: int, j: int|
            0 <= i < m0.key_search(s0, key).unwrap().len() - 1 && 0 <= j < m0.node_at(
                s0,
                m0.key_search(s0, key).unwrap()[i],
            ).unwrap().entry_seq().len() ==> (#[trigger] m0.node_at(
                s0,
                #[trigger] m0.key_search(s0, key).unwrap()[i],
            ).unwrap().entry_seq()[j]).value is Inner,
        m0.extend_add_result_at(s0, m0.key_search(s0, key).unwrap(), key, Child::Leaf { value }, m1, writes),
        m1.at_rest(),
        forall|idx: u64| #[trigger] s1.content(idx) == after_writes(writes, idx, s0.content(idx)),
    ensures
        m1.map_view(s1) == m0.map_view(s0).insert(key, value),
{
    assert forall|k: K| #[trigger] m1.map_view(s1).dom().contains(k) == m0.map_view(s0).insert(key, value).dom().contains(k) && (
    m1.map_view(s1).dom().contains(k) ==> m1.map_view(s1)[k] == m0.map_view(s0).insert(key, value)[k]) by {
        if k == key {
            lemma_extend_add_then_get(m0, s0, key, value, m1, writes, s1);
        } else {
            lemma_extend_add_keeps_others(m0, s0, key, value, m1, writes, s1, k);
        }
    }
    assert(m1.map_view(s1) =~= m0.map_view(s0).insert(key, value));
}

/// Removing the largest key of a leaf that stays half full, once the
/// writes are stored: the map no longer holds the key, and every other key
/// as before.
pub proof fn lemma_shrink_remove_view<K: TreeKey, V>(
    m0: BigOrderedMap<K, V>,
    s0: SlotStore<K, V>,
    key: K,
    removed: Option<V>,
    m1: BigOrderedMap<K, V>,
    writes: Seq<TableWrite<K, V>>,
    s1: SlotStore<K, V>,
)
    requires
        m0.at_rest(),
        m0.key_search(s0, key) is Some,
        m0.shrink_remove_at(s0, m0.key_search(s0, key).unwrap(), key),
        forall|i: int|
            0 <= i < m0.key_search(s0, key).unwrap().len() - 1 && m0.node_at(
                s0,
                m0.key_search(s0, key).unwrap()[i],
            ).unwrap().entry_seq().len() > 1 ==> ({
                let es = m0.node_at(s0, #[trigger] m0.key_search(s0, key).unwrap()[i]).unwrap().entry_seq();
                let les = m0.node_at(s0, m0.key_search(s0, key).unwrap().last()).unwrap().entry_seq();
                es[es.len() - 2].key.key_lt(les[les.len() - 2].key)
            }),
        forall|i: int|
            0 <= i < m0.key_search(s0, key).unwrap().len() ==> sorted_keys(
                m0.node_at(s0, #[trigger] m0.key_search(s0, key).unwrap()[i]).unwrap().entry_seq(),
            ),
        forall|i: int, j: int|
            0 <= i < m0.key_search(s0, key).unwrap().len() - 1 && 0 <= j < m0.node_at(
                s0,
                m0.key_search(s0, key).unwrap()[i],
            ).unwrap().entry_seq().len() ==> (#[trigger] m0.node_at(
                s0,
                #[trigger] m0.key_search(s0, key).unwrap()[i],
            ).unwrap().entry_seq()[j]).value is Inner,
        m0.shrink_remove_result_at(s0, m0.key_search(s0, key).unwrap(), key, removed, m1, writes),
        m1.at_rest(),
        forall|idx: u64| #[trigger] s1.content(idx) == after_writes(writes, idx, s0.content(idx)),
    ensures
        m1.map_view(s1) == m0.map_view(s0).remove(key),
{
    assert forall|k: K| #[trigger] m1.map_view(s1).dom().contains(k) == m0.map_view(s0).remove(key).dom().contains(k) && (
    m1.map_view(s1).dom().contains(k) ==> m1.map_view(s1)[k] == m0.map_view(s0).remove(key)[k]) by {
        if k == key {
            lemma_shrink_remove_then_get(m0, s0, key, removed, m1, writes, s1);
        } else {
            lemma_shrink_remove_keeps_others(m0, s0, key, removed, m1, writes, s1, k);
        }
    }
    assert(m1.map_view(s1) =~= m0.map_view(s0).remove(key));
}


/// A key's value in a sorted sequence is its value in the half that a
/// split at `t` gives it: the first where it is not above the first half's
/// largest key, else the second.
proof fn lemma_split_halves_value<K: TreeKey, V>(g: Seq<Entry<K, Child<V>>>, t: int, k: K)
    requires
        sorted_keys(g),
        1 <= t < g.len(),
    ensures
        !g[t - 1].key.key_lt(k) ==> value_at_bound(g.take(t), k) == value_at_bound(g, k),
        g[t - 1].key.key_lt(k) ==> value_at_bound(g.skip(t), k) == value_at_bound(g, k),
{
    let p = lower_bound_spec(g, k);
    lemma_lower_bound_range(g, k);
    lemma_lower_bound_props(g, k);
    if !g[t - 1].key.key_lt(k) {
        assert(p <= t - 1) by {
            if p > t - 1 {
                assert(g[t - 1].key.key_lt(k));
            }
        }
        let a = g.take(t);
        assert forall|j: int| 0 <= j < p implies #[trigger] a[j].key.key_lt(k) by {
            assert(a[j] == g[j]);
        }
        assert(a[p] == g[p]);
        lemma_lower_bound_char(a, k, p);
    } else {
        assert(p >= t) by {
            if p < t {
                if p < t - 1 {
                    assert(g[p].key.key_lt(g[t - 1].key));
                    K::lemma_key_lt_transitive(g[p].key, g[t - 1].key, k);
                }
            }
        }
        let b = g.skip(t);
        assert forall|j: int| 0 <= j < p - t implies #[trigger] b[j].key.key_lt(k) by {
            assert(b[j] == g[j + t]);
        }
        if p < g.len() {
            assert(b[p - t] == g[p]);
        }
        lemma_lower_bound_char(b, k, p - t);
    }
}

/// Adding the key that splits the root, once the writes are stored: the
/// map holds the key with the value added and every other key as before.
pub proof fn lemma_root_split_add_view<K: TreeKey, V>(
    m0: BigOrderedMap<K, V>,
    s0: SlotStore<K, V>,
    key: K,
    value: V,
    m1: BigOrderedMap<K, V>,
    writes: Seq<TableWrite<K, V>>,
    s1: SlotStore<K, V>,
)
    requires
        m0.root_split_add(key),
        sorted_keys(m0.root_entries()),
        m0.root_split_result(key, Child::Leaf { value }, m1, writes),
        m1.at_rest(),
        forall|idx: u64| #[trigger] s1.content(idx) == after_writes(writes, idx, s0.content(idx)),
    ensures
        m1.map_view(s1) == m0.map_view(s0).insert(key, value),
{
    let es = m0.root_entries();
    let g = m0.grown_root(key, Child::Leaf { value });
    let t = (m0.leaf_degree() + 1) / 2;
    let right = m0.allocator().next_fresh();
    let left = (right + 1) as u64;
    lemma_lower_bound_range(es, key);
    assert(g == upsert_entries(es, key, Child::Leaf { value }));
    lemma_upsert_keeps_sorted(es, key, Child::Leaf { value });
    assert(s1.content(left) == Some(writes[0].data)) by {
        assert(writes.last() == writes[1]);
        assert(writes.drop_last().last() == writes[0]);
        assert(after_writes(writes, left, s0.content(left)) == after_writes(
            writes.drop_last(),
            left,
            s0.content(left),
        ));
    }
    assert(s1.content(right) == Some(writes[1].data)) by {
        assert(writes.last() == writes[1]);
    }
    assert(m1.cache().content(left) is None);
    assert(m1.cache().content(right) is None);
    let es1 = m1.root_entries();
    let a = writes[0].data->value;
    let b = writes[1].data->value;
    let top = if es.len() > 0 && !es.last().key.key_lt(key) {
        es.last().key
    } else {
        key
    };
    assert forall|k: K| #[trigger] m1.map_view(s1).dom().contains(k) == m0.map_view(s0).insert(
        key,
        value,
    ).dom().contains(k) && (m1.map_view(s1).dom().contains(k) ==> m1.map_view(s1)[k] == m0.map_view(
        s0,
    ).insert(key, value)[k]) by {
        lemma_leaf_root_view(m0, s0, k);
        if k == key {
            lemma_upsert_then_value(es, key, value);
        } else {
            lemma_upsert_keeps_other(es, key, Child::Leaf { value }, k);
        }
        lemma_split_halves_value(g, t, k);
        if !g[t - 1].key.key_lt(k) {
            lemma_lower_bound_char(es1, k, 0);
            assert(descend_index(es1, k) == 0);
            assert(m1.node_at(s1, left) == Some(a));
            assert(m1.search_path(s1, k, left, 19) == Some(seq![left]));
            assert(m1.key_search(s1, k) == Some(seq![1u64] + seq![left]));
            assert((seq![1u64] + seq![left]).last() == left);
        } else {
            if top.key_lt(k) {
                assert(es1[0].key.key_lt(k));
                lemma_lower_bound_char(es1, k, 2);
            } else {
                lemma_lower_bound_char(es1, k, 1);
            }
            assert(descend_index(es1, k) == 1);
            assert(m1.node_at(s1, right) == Some(b));
            assert(m1.search_path(s1, k, right, 19) == Some(seq![right]));
            assert(m1.key_search(s1, k) == Some(seq![1u64] + seq![right]));
            assert((seq![1u64] + seq![right]).last() == right);
        }
    }
    assert(m1.map_view(s1) =~= m0.map_view(s0).insert(key, value));
}


/// After a leaf split whose parent keys the leaf by its largest key, any
/// other key goes from the parent to the child it went to before, but for
/// one that went to the split leaf: that one goes to the new left child
/// where it is not above the left half's largest key, else to the old one.
#[verifier::spinoff_prover]
proof fn lemma_split_parent_descend_other<K: TreeKey, V>(
    pe: Seq<Entry<K, Child<V>>>,
    es: Seq<Entry<K, Child<V>>>,
    key: K,
    v: V,
    ni: u64,
    left: u64,
    t: int,
    o: K,
)
    requires
        sorted_keys(pe),
        sorted_keys(es),
        es.len() >= 1,
        !has_key_at_bound(es, key),
        1 <= t <= es.len(),
        pe.len() >= 1,
        points_to(pe[descend_index(pe, key)].value, ni),
        forall|j: int| 0 <= j < descend_index(pe, key) ==> !points_to(#[trigger] pe[j].value, ni),
        descend_index(pe, key) == 0 || pe[descend_index(pe, key) - 1].key.key_lt(es[0].key),
        pe[descend_index(pe, key)].key == es.last().key,
        sorted_keys(renamed_child_entries(pe, ni, grown_key_at(es, key, es.len() as int))),
        o != key,
    ensures
        ({
            let np = split_parent_entries(
                pe,
                ni,
                grown_key_at(es, key, es.len() as int),
                left,
                grown_key_at(es, key, t - 1),
            );
            let d = descend_index(pe, key);
            let dn = descend_index(np, o);
            let lm = grown_key_at(es, key, t - 1);
            &&& 0 <= dn < np.len()
            &&& descend_index(pe, o) != d ==> np[dn].value == pe[descend_index(pe, o)].value
            &&& descend_index(pe, o) == d && !lm.key_lt(o) ==> points_to(np[dn].value, left)
            &&& descend_index(pe, o) == d && lm.key_lt(o) ==> np[dn].value == pe[d].value
        }),
{
    let d = descend_index(pe, key);
    K::lemma_key_lt_irreflexive(es.last().key);
    lemma_split_parent_descend(pe, es, key, v, ni, left, t);
    let pos = lower_bound_spec(es, key);
    lemma_lower_bound_range(es, key);
    lemma_lower_bound_range(pe, key);
    lemma_lower_bound_props(pe, key);
    let g = es.insert(pos, Entry { key, value: Child::Leaf { value: v } });
    let last = es.len() as int;
    let rm = grown_key_at(es, key, last);
    let lm = grown_key_at(es, key, t - 1);
    assert(g[last].key == rm);
    assert(g[t - 1].key == lm);
    lemma_upsert_keeps_sorted(es, key, Child::Leaf { value: v });
    assert(g == upsert_entries(es, key, Child::Leaf { value: v }));
    assert(lm.key_lt(rm)) by {
        assert(g[t - 1].key.key_lt(g[last].key));
    }
    let u = pe.update(d, Entry { key: rm, value: pe[d].value });
    let np = u.insert(d, Entry { key: lm, value: Child::Inner { node_index: StoredSlot { slot_index: left } } });
    assert(split_parent_entries(pe, ni, rm, left, lm) == np) by {
        lemma_child_slot_index(pe, ni, d);
        assert(renamed_child_entries(pe, ni, rm) == u);
        assert forall|j: int| 0 <= j < d implies #[trigger] u[j].key.key_lt(lm) by {
            assert(u[j] == pe[j]);
            assert(pe[j].key.key_lt(g[0].key)) by {
                if pos == 0 {
                    assert(g[0].key == key);
                    assert(pe[j].key.key_lt(key));
                } else {
                    assert(g[0] == es[0]);
                    if j < d - 1 {
                        assert(pe[j].key.key_lt(pe[d - 1].key));
                        K::lemma_key_lt_transitive(pe[j].key, pe[d - 1].key, es[0].key);
                    }
                }
            }
            if t - 1 > 0 {
                assert(g[0].key.key_lt(g[t - 1].key));
                K::lemma_key_lt_transitive(pe[j].key, g[0].key, lm);
            }
        }
        assert(u[d].key == rm);
        if rm.key_lt(lm) {
            K::lemma_key_lt_transitive(rm, lm, rm);
            K::lemma_key_lt_irreflexive(rm);
        }
        lemma_lower_bound_char(u, lm, d);
    }
    // the right half's largest key is not below the parent's key for the leaf
    assert(!rm.key_lt(pe[d].key)) by {
        K::lemma_key_lt_irreflexive(rm);
        K::lemma_key_lt_irreflexive(es[last - 1].key);
        assert(es.last() == es[last - 1]);
        if pos < last {
            assert(g[last] == es[last - 1]);
            assert(rm == pe[d].key);
        } else {
            assert(g[last].key == key);
            assert(es[last - 1].key.key_lt(key)) by {
                lemma_lower_bound_props(es, key);
            }
            if rm.key_lt(pe[d].key) {
                K::lemma_key_lt_transitive(es[last - 1].key, rm, es[last - 1].key);
            }
        }
    }
    // where the key falls below the parent's key for the leaf, its largest key stays
    assert(lower_bound_spec(pe, key) < pe.len() ==> rm == pe[d].key) by {
        if lower_bound_spec(pe, key) < pe.len() {
            assert(!pe[d].key.key_lt(key));
            if pos == last {
                assert(es[last - 1].key.key_lt(key)) by {
                    lemma_lower_bound_props(es, key);
                }
                K::lemma_key_lt_total(pe[d].key, key);
                K::lemma_key_lt_irreflexive(key);
            }
            assert(g[last] == es[last - 1]);
        }
    }
    let lb = lower_bound_spec(pe, o);
    lemma_lower_bound_range(pe, o);
    lemma_lower_bound_props(pe, o);
    K::lemma_key_lt_irreflexive(o);
    assert forall|j: int| 0 <= j < d implies #[trigger] np[j] == pe[j] by {}
    assert(np[d].key == lm && np[d + 1].key == rm && np[d + 1].value == pe[d].value);
    assert forall|j: int| d + 1 < j < np.len() implies #[trigger] np[j] == pe[j - 1] by {}
    if lb < d {
        assert forall|j: int| 0 <= j < lb implies #[trigger] np[j].key.key_lt(o) by {}
        assert(np[lb] == pe[lb]);
        lemma_lower_bound_char(np, o, lb);
    } else if lb == d && lb < pe.len() {
        assert forall|j: int| 0 <= j < d implies #[trigger] np[j].key.key_lt(o) by {}
        if !lm.key_lt(o) {
            lemma_lower_bound_char(np, o, d);
        } else {
            assert(!rm.key_lt(o)) by {
                K::lemma_key_lt_total(pe[d].key, rm);
                if rm.key_lt(o) {
                    if pe[d].key.key_lt(rm) {
                        K::lemma_key_lt_transitive(pe[d].key, rm, o);
                    }
                }
            }
            assert forall|j: int| 0 <= j < d + 1 implies #[trigger] np[j].key.key_lt(o) by {
            if j < d {
                assert(np[j] == pe[j]);
                if d < lb || lb == pe.len() {
                    assert(pe[j].key.key_lt(o)) by {
                        if lb < pe.len() {
                        } else {
                        }
                    }
                }
            } else if j == d {
                assert(np[j].key == lm);
            } else if j == d + 1 {
                assert(np[j].key == rm);
            } else {
                assert(np[j] == pe[j - 1]);
            }
        }
            lemma_lower_bound_char(np, o, d + 1);
        }
    } else {
        // the key lies above the parent's key for the leaf
        assert(pe[d].key.key_lt(o)) by {
            if lb < pe.len() {
                assert(d < lb);
            } else {
                assert(pe[pe.len() - 1].key.key_lt(o));
                if d < pe.len() - 1 {
                    assert(pe[d].key.key_lt(pe[pe.len() - 1].key));
                    K::lemma_key_lt_transitive(pe[d].key, pe[pe.len() - 1].key, o);
                }
            }
        }
        assert(lm.key_lt(o)) by {
            if pos < last {
                assert(g[last] == es[last - 1]);
                assert(rm == pe[d].key);
                K::lemma_key_lt_transitive(lm, rm, o);
            } else {
                assert(g[last - 1] == es[last - 1]);
                assert(es.last() == es[last - 1]);
                if t - 1 < last - 1 {
                    assert(g[t - 1].key.key_lt(g[last - 1].key));
                    K::lemma_key_lt_transitive(lm, pe[d].key, o);
                }
            }
        }
        assert forall|j: int| 0 <= j < d + 1 implies #[trigger] np[j].key.key_lt(o) by {
            if j < d {
                assert(np[j] == pe[j]);
                if d < lb || lb == pe.len() {
                    assert(pe[j].key.key_lt(o)) by {
                        if lb < pe.len() {
                        } else {
                        }
                    }
                }
            } else if j == d {
                assert(np[j].key == lm);
            } else if j == d + 1 {
                assert(np[j].key == rm);
            } else {
                assert(np[j] == pe[j - 1]);
            }
        }
        if lb < pe.len() {
            assert(lower_bound_spec(pe, key) < pe.len()) by {
                if lower_bound_spec(pe, key) >= pe.len() {
                    assert(d == pe.len() - 1);
                }
            }
            assert(rm.key_lt(o));
            assert forall|j: int| 0 <= j < lb + 1 implies #[trigger] np[j].key.key_lt(o) by {
                if j < d {
                    assert(np[j] == pe[j]);
                } else if j == d {
                    assert(np[j].key == lm);
                } else if j == d + 1 {
                    assert(np[j].key == rm);
                } else {
                    assert(np[j] == pe[j - 1]);
                    assert(j - 1 < lb);
                }
            }
            assert(np[lb + 1] == pe[lb]);
            lemma_lower_bound_char(np, o, lb + 1);
        } else {
            if d == pe.len() - 1 {
                if rm.key_lt(o) {
                    assert forall|j: int| 0 <= j < np.len() implies #[trigger] np[j].key.key_lt(o) by {}
                    lemma_lower_bound_char(np, o, np.len() as int);
                } else {
                    lemma_lower_bound_char(np, o, d + 1);
                }
            } else {
                assert(lower_bound_spec(pe, key) < pe.len());
                assert(rm.key_lt(o));
                assert forall|j: int| 0 <= j < np.len() implies #[trigger] np[j].key.key_lt(o) by {
                    if j < d {
                        assert(np[j] == pe[j]);
                    } else if j == d {
                        assert(np[j].key == lm);
                    } else if j == d + 1 {
                        assert(np[j].key == rm);
                    } else {
                        assert(np[j] == pe[j - 1]);
                        assert(j - 1 < pe.len());
                    }
                }
                lemma_lower_bound_char(np, o, np.len() as int);
            }
        }
    }
}


/// A search ends at a node that stops it: a leaf, an empty node, or one
/// whose entry for the key holds a value.
pub proof fn lemma_search_path_last_stops<K: TreeKey, V>(
    m: BigOrderedMap<K, V>,
    s: SlotStore<K, V>,
    key: K,
    c: u64,
    f: nat,
)
    requires
        m.search_path(s, key, c, f) is Some,
    ensures
        ({
            let q = m.search_path(s, key, c, f).unwrap();
            let n = m.node_at(s, q.last()).unwrap();
            &&& m.node_at(s, q.last()) is Some
            &&& n.leaf_flag() || n.entry_seq().len() == 0 || n.entry_seq()[descend_index(n.entry_seq(), key)].value is Leaf
        }),
    decreases f,
{
    let n = m.node_at(s, c).unwrap();
    if !(n.leaf_flag() || n.entry_seq().len() == 0) {
        if let Child::Inner { node_index } = n.entry_seq()[descend_index(n.entry_seq(), key)].value {
            let q2 = m.search_path(s, key, node_index.slot_index, (f - 1) as nat).unwrap();
            lemma_search_path_last_stops(m, s, key, node_index.slot_index, (f - 1) as nat);
            m.lemma_search_path_ends(s, key, node_index.slot_index, (f - 1) as nat);
            assert((seq![c] + q2).last() == q2.last());
        }
    }
}

/// A search goes alike where every slot on its way reads alike but for
/// `pi`, which in both sends the key on to the same child.
proof fn lemma_search_same_except<K: TreeKey, V>(
    m0: BigOrderedMap<K, V>,
    s0: SlotStore<K, V>,
    m1: BigOrderedMap<K, V>,
    s1: SlotStore<K, V>,
    key: K,
    c: u64,
    f: nat,
    pi: u64,
)
    requires
        m0.search_path(s0, key, c, f) is Some,
        forall|k: int|
            0 <= k < m0.search_path(s0, key, c, f).unwrap().len() && #[trigger] m0.search_path(s0, key, c, f).unwrap()[k]
                != pi ==> same_search_view(
                m0.node_at(s0, m0.search_path(s0, key, c, f).unwrap()[k]),
                m1.node_at(s1, m0.search_path(s0, key, c, f).unwrap()[k]),
            ),
        m0.search_path(s0, key, c, f).unwrap().contains(pi) ==> ({
            let a = m0.node_at(s0, pi).unwrap().entry_seq();
            let b = m1.node_at(s1, pi).unwrap().entry_seq();
            &&& m1.node_at(s1, pi) is Some
            &&& m0.node_at(s0, pi) is Some
            &&& !m1.node_at(s1, pi).unwrap().leaf_flag()
            &&& !m0.node_at(s0, pi).unwrap().leaf_flag()
            &&& b.len() > 0
            &&& a.len() > 0
            &&& a[descend_index(a, key)].value == b[descend_index(b, key)].value
        }),
    ensures
        m1.search_path(s1, key, c, f) == m0.search_path(s0, key, c, f),
    decreases f,
{
    let q = m0.search_path(s0, key, c, f).unwrap();
    m0.lemma_search_path_ends(s0, key, c, f);
    assert(q[0] == c);
    let n = m0.node_at(s0, c).unwrap();
    if c != pi {
        assert(same_search_view(m0.node_at(s0, q[0]), m1.node_at(s1, q[0])));
    } else {
        assert(q.contains(pi)) by {
            assert(q[0] == pi);
        }
    }
    if !(n.leaf_flag() || n.entry_seq().len() == 0) {
        if let Child::Inner { node_index } = n.entry_seq()[descend_index(n.entry_seq(), key)].value {
            let q2 = m0.search_path(s0, key, node_index.slot_index, (f - 1) as nat).unwrap();
            assert(q == seq![c] + q2);
            assert forall|k: int| 0 <= k < q2.len() && #[trigger] q2[k] != pi implies same_search_view(
                m0.node_at(s0, q2[k]),
                m1.node_at(s1, q2[k]),
            ) by {
                assert(q[k + 1] == q2[k]);
            }
            if q2.contains(pi) {
                let k = choose|k: int| 0 <= k < q2.len() && q2[k] == pi;
                assert(q[k + 1] == pi);
            }
            lemma_search_same_except(m0, s0, m1, s1, key, node_index.slot_index, (f - 1) as nat, pi);
        }
    }
}


/// Whether the parent of the leaf where `key` belongs holds child nodes
/// only, keys the leaf by its largest key, and has one entry for it.
pub open spec fn split_parent_ok<K: TreeKey, V>(m0: BigOrderedMap<K, V>, s0: SlotStore<K, V>, key: K) -> bool {
    let p = m0.key_search(s0, key).unwrap();
    let pe = m0.node_at(s0, p[p.len() - 2]).unwrap().entry_seq();
    let es = m0.node_at(s0, p.last()).unwrap().entry_seq();
    let d = descend_index(pe, key);
    &&& pe[d].key == es.last().key
    &&& forall|j: int| 0 <= j < pe.len() ==> (#[trigger] pe[j]).value is Inner
    &&& forall|j: int| 0 <= j < pe.len() && j != d ==> !points_to((#[trigger] pe[j]).value, p.last())
}

/// Whether the search for `other` visits distinct slots already handed
/// out, and reaches the leaf where `key` belongs only from its parent.
pub open spec fn split_search_ok<K: TreeKey, V>(m0: BigOrderedMap<K, V>, s0: SlotStore<K, V>, key: K, other: K) -> bool {
    let q = m0.key_search(s0, other).unwrap();
    let p = m0.key_search(s0, key).unwrap();
    &&& m0.key_search(s0, other) is Some
    &&& forall|k: int| 0 <= k < q.len() ==> #[trigger] q[k] < m0.allocator().next_fresh()
    &&& forall|i: int, j: int| 0 <= i < j < q.len() ==> q[i] != q[j]
    &&& forall|k: int| 0 < k < q.len() && #[trigger] q[k] == p.last() ==> q[k - 1] == p[p.len() - 2]
}

/// Whether the search for every key but `key` is as a split relies on.
pub open spec fn all_split_searches_ok<K: TreeKey, V>(m0: BigOrderedMap<K, V>, s0: SlotStore<K, V>, key: K) -> bool {
    forall|o: K| o != key ==> #[trigger] split_search_ok(m0, s0, key, o)
}

/// Whether the search for every key but `key` is as a split relies on and
/// takes fewer than twenty steps.
pub open spec fn all_short_split_searches_ok<K: TreeKey, V>(m0: BigOrderedMap<K, V>, s0: SlotStore<K, V>, key: K) -> bool {
    forall|o: K| o != key ==> #[trigger] split_search_ok(m0, s0, key, o) && m0.key_search(s0, o).unwrap().len() < 20
}

/// Splitting a full leaf into a parent with room leaves every other key's
/// value as it was, once the writes are stored, where the parent holds
/// child nodes only, keys the leaf by its largest key in its one entry for
/// it, and the search for the other key visits distinct slots already
/// handed out, reaching the leaf only from the parent.
pub proof fn lemma_leaf_split_add_keeps_others<K: TreeKey, V>(
    m0: BigOrderedMap<K, V>,
    s0: SlotStore<K, V>,
    key: K,
    value: V,
    m1: BigOrderedMap<K, V>,
    writes: Seq<TableWrite<K, V>>,
    s1: SlotStore<K, V>,
    other: K,
)
    requires
        m0.at_rest(),
        m0.key_search(s0, key) is Some,
        m0.leaf_split_at(s0, m0.key_search(s0, key).unwrap(), key),
        m0.leaf_split_valid(s0, key),
        m0.leaf_split_result_at(s0, m0.key_search(s0, key).unwrap(), key, Child::Leaf { value }, m1, writes),
        m1.at_rest(),
        forall|idx: u64| #[trigger] s1.content(idx) == after_writes(writes, idx, s0.content(idx)),
        split_parent_ok(m0, s0, key),
        split_search_ok(m0, s0, key, other),
        other != key,
    ensures
        m1.search_end(s1, other) matches Some(n1) && value_at_bound(n1.entry_seq(), other) == value_at_bound(
            m0.search_end(s0, other).unwrap().entry_seq(),
            other,
        ),
{
    let p = m0.key_search(s0, key).unwrap();
    let ni = p.last();
    let pi = p[p.len() - 2];
    let n = m0.node_at(s0, ni).unwrap();
    let es = n.entry_seq();
    let pn = m0.node_at(s0, pi).unwrap();
    let pe = pn.entry_seq();
    let prev = n.prev_link();
    let left = m0.allocator().next_fresh();
    let t = (m0.leaf_degree() + 1) / 2;
    let pos = lower_bound_spec(es, key);
    let g = es.insert(pos, Entry { key, value: Child::Leaf { value } });
    let off: int = if prev != 0 {
        1
    } else {
        0
    };
    let d = descend_index(pe, key);
    m0.lemma_search_path_ends(s0, key, 1, 20);
    lemma_search_path_step(m0, s0, key, 1, 20, p.len() - 2);
    lemma_lower_bound_range(es, key);
    lemma_lower_bound_range(pe, key);
    lemma_split_parent_descend(pe, es, key, value, ni, left, t);
    lemma_split_parent_descend_other(pe, es, key, value, ni, left, t, other);
    let np = split_parent_entries(pe, ni, grown_key_at(es, key, es.len() as int), left, grown_key_at(es, key, t - 1));
    let lm = grown_key_at(es, key, t - 1);
    assert(pi < left && ni < left);
    assert(pi != ni);
    assert(writes[off].slot_index == left && writes[off + 1].slot_index == ni);
    assert(pi != 1 ==> writes[off + 2].slot_index == pi);
    assert(s1.content(left) == Some(writes[off].data)) by {
        lemma_after_writes_at(writes, left, s0.content(left), off);
    }
    assert(s1.content(ni) == Some(writes[off + 1].data)) by {
        lemma_after_writes_at(writes, ni, s0.content(ni), off + 1);
    }
    if pi != 1 {
        assert(s1.content(pi) == Some(writes[off + 2].data)) by {
            lemma_after_writes_at(writes, pi, s0.content(pi), off + 2);
        }
    }
    assert forall|x: u64| x != pi && x != ni && x != left implies same_search_view(
        #[trigger] m0.node_at(s0, x),
        m1.node_at(s1, x),
    ) by {
        assert(m0.cache().content(x) is None);
        assert(m1.cache().content(x) is None);
        if x != 1 {
            if prev != 0 && x == prev {
                lemma_after_writes_at(writes, x, s0.content(x), 0);
            } else {
                lemma_after_writes_untouched(writes, x, s0.content(x));
            }
        }
    }
    assert(m1.cache().content(left) is None);
    assert(m1.cache().content(ni) is None);
    assert(m1.cache().content(pi) is None);
    assert(m1.node_at(s1, pi).unwrap().entry_seq() == np);
    lemma_upsert_keeps_sorted(es, key, Child::Leaf { value });
    assert(g == upsert_entries(es, key, Child::Leaf { value }));
    lemma_upsert_keeps_other(es, key, Child::Leaf { value }, other);
    let q = m0.key_search(s0, other).unwrap();
    m0.lemma_search_path_ends(s0, other, 1, 20);
    lemma_search_path_last_stops(m0, s0, other, 1, 20);
    assert(!q.contains(left)) by {
        if q.contains(left) {
            let k = choose|k: int| 0 <= k < q.len() && q[k] == left;
            assert(q[k] < left);
        }
    }
    // the parent always sends the search on
    assert(q.last() != pi) by {
        if q.last() == pi {
            lemma_lower_bound_range(pe, other);
            assert(pe[descend_index(pe, other)].value is Inner);
        }
    }
    if q.contains(pi) {
        let i = choose|i: int| 0 <= i < q.len() && q[i] == pi;
        assert(i < q.len() - 1) by {
            assert(q[q.len() - 1] == q.last());
        }
        lemma_search_path_step(m0, s0, other, 1, 20, i);
        let c = q[i + 1];
        let dn = descend_index(np, other);
        if c != ni {
            assert(descend_index(pe, other) != d);
            assert forall|k: int| 0 <= k < q.len() && #[trigger] q[k] != pi implies same_search_view(
                m0.node_at(s0, q[k]),
                m1.node_at(s1, q[k]),
            ) by {
                assert(q[k] != left);
                if q[k] == ni {
                    assert(k > 0);
                    assert(q[k - 1] == pi);
                    assert(k - 1 == i);
                }
            }
            lemma_search_same_except(m0, s0, m1, s1, other, 1, 20, pi);
            let e = q.last();
            assert(e != ni) by {
                if e == ni {
                    assert(q[q.len() - 1] == ni);
                    assert(q[q.len() - 2] == pi);
                    assert(q.len() - 2 == i);
                }
            }
            assert(same_search_view(m0.node_at(s0, e), m1.node_at(s1, e))) by {
                assert(q[q.len() - 1] == e);
                assert(e != left);
            }
        } else {
            assert(descend_index(pe, other) == d) by {
                lemma_lower_bound_range(pe, other);
                if descend_index(pe, other) != d {
                    assert(!points_to(pe[descend_index(pe, other)].value, ni));
                }
            }
            assert(q.last() == ni) by {
                if i + 1 < q.len() - 1 {
                    lemma_search_path_step(m0, s0, other, 1, 20, i + 1);
                }
                assert(q[q.len() - 1] == q.last());
            }
            assert(q[q.len() - 2] == pi);
            let target = if !lm.key_lt(other) {
                left
            } else {
                ni
            };
            lemma_search_reroute(m0, s0, m1, s1, other, 1, 20, pi, ni, target, left);
            assert(q.drop_last().push(target).last() == target);
            lemma_split_halves_value(g, t, other);
            assert(g[t - 1].key == lm);
        }
    } else {
        assert forall|k: int| 0 <= k < q.len() && #[trigger] q[k] != pi implies same_search_view(
            m0.node_at(s0, q[k]),
            m1.node_at(s1, q[k]),
        ) by {
            assert(q[k] != left);
            if q[k] == ni {
                if k == 0 {
                    assert(q[0] == 1);
                } else {
                    assert(q[k - 1] == pi);
                }
            }
        }
        lemma_search_same_except(m0, s0, m1, s1, other, 1, 20, pi);
        let e = q.last();
        assert(same_search_view(m0.node_at(s0, e), m1.node_at(s1, e))) by {
            assert(q[q.len() - 1] == e);
            if e == ni {
                if q.len() == 1 {
                    assert(q[0] == 1);
                } else {
                    assert(q[q.len() - 2] == pi);
                }
            }
        }
    }
}


/// Adding the key that splits a full leaf into a parent with room, once
/// the writes are stored: the map holds the key with the value added and
/// every other key as before, where the tree is shaped as the split relies
/// on and every other key's search is well founded.
pub proof fn lemma_leaf_split_add_view<K: TreeKey, V>(
    m0: BigOrderedMap<K, V>,
    s0: SlotStore<K, V>,
    key: K,
    value: V,
    m1: BigOrderedMap<K, V>,
    writes: Seq<TableWrite<K, V>>,
    s1: SlotStore<K, V>,
)
    requires
        m0.at_rest(),
        m0.key_search(s0, key) is Some,
        m0.leaf_split_at(s0, m0.key_search(s0, key).unwrap(), key),
        m0.leaf_split_valid(s0, key),
        m0.leaf_split_result_at(s0, m0.key_search(s0, key).unwrap(), key, Child::Leaf { value }, m1, writes),
        m1.at_rest(),
        forall|idx: u64| #[trigger] s1.content(idx) == after_writes(writes, idx, s0.content(idx)),
        split_parent_ok(m0, s0, key),
        all_split_searches_ok(m0, s0, key),
    ensures
        m1.map_view(s1) == m0.map_view(s0).insert(key, value),
{
    assert forall|k: K| #[trigger] m1.map_view(s1).dom().contains(k) == m0.map_view(s0).insert(
        key,
        value,
    ).dom().contains(k) && (m1.map_view(s1).dom().contains(k) ==> m1.map_view(s1)[k] == m0.map_view(
        s0,
    ).insert(key, value)[k]) by {
        if k == key {
            lemma_leaf_split_add_then_get(m0, s0, key, value, m1, writes, s1);
        } else {
            assert(split_search_ok(m0, s0, key, k));
            lemma_leaf_split_add_keeps_others(m0, s0, key, value, m1, writes, s1, k);
            m0.lemma_search_path_ends(s0, k, 1, 20);
        }
    }
    assert(m1.map_view(s1) =~= m0.map_view(s0).insert(key, value));
}


/// A search that ends within the fuel given ends alike with any fuel at
/// least its length.
pub proof fn lemma_search_fuel<K: TreeKey, V>(m: BigOrderedMap<K, V>, s: SlotStore<K, V>, key: K, c: u64, f: nat, g: nat)
    requires
        m.search_path(s, key, c, f) is Some,
        m.search_path(s, key, c, f).unwrap().len() <= g,
    ensures
        m.search_path(s, key, c, g) == m.search_path(s, key, c, f),
    decreases f,
{
    m.lemma_search_path_ends(s, key, c, f);
    let n = m.node_at(s, c).unwrap();
    if !(n.leaf_flag() || n.entry_seq().len() == 0) {
        if let Child::Inner { node_index } = n.entry_seq()[descend_index(n.entry_seq(), key)].value {
            let q2 = m.search_path(s, key, node_index.slot_index, (f - 1) as nat).unwrap();
            assert(m.search_path(s, key, c, f).unwrap() == seq![c] + q2);
            lemma_search_fuel(m, s, key, node_index.slot_index, (f - 1) as nat, (g - 1) as nat);
        }
    }
}

/// Splitting a full leaf under a full root, the root splitting in turn,
/// leaves every other key's value as it was, once the writes are stored,
/// where the root holds child nodes only, keys the leaf by its largest key
/// in its one entry for it, and the search for the other key visits
/// distinct slots already handed out, reaching the leaf only from the
/// root, in fewer than twenty steps.
pub proof fn lemma_root_full_split_add_keeps_others<K: TreeKey, V>(
    m0: BigOrderedMap<K, V>,
    s0: SlotStore<K, V>,
    key: K,
    value: V,
    m1: BigOrderedMap<K, V>,
    writes: Seq<TableWrite<K, V>>,
    s1: SlotStore<K, V>,
    other: K,
)
    requires
        m0.at_rest(),
        m0.key_search(s0, key) is Some,
        m0.leaf_split_root_full_at(s0, m0.key_search(s0, key).unwrap(), key),
        m0.leaf_split_valid(s0, key),
        m0.leaf_split_root_full_result_at(
            s0,
            m0.key_search(s0, key).unwrap(),
            key,
            Child::Leaf { value },
            m1,
            writes,
        ),
        m1.at_rest(),
        forall|idx: u64| #[trigger] s1.content(idx) == after_writes(writes, idx, s0.content(idx)),
        split_parent_ok(m0, s0, key),
        split_search_ok(m0, s0, key, other),
        m0.key_search(s0, other).unwrap().len() < 20,
        other != key,
    ensures
        m1.search_end(s1, other) matches Some(n1) && value_at_bound(n1.entry_seq(), other) == value_at_bound(
            m0.search_end(s0, other).unwrap().entry_seq(),
            other,
        ),
{
    let p = m0.key_search(s0, key).unwrap();
    let ni = p.last();
    let n = m0.node_at(s0, ni).unwrap();
    let es = n.entry_seq();
    let pe = m0.root_node().entry_seq();
    let prev = n.prev_link();
    let nf = m0.allocator().next_fresh();
    let t = (m0.leaf_degree() + 1) / 2;
    let t2 = (m0.inner_degree() + 1) / 2;
    let pos = lower_bound_spec(es, key);
    let g = es.insert(pos, Entry { key, value: Child::Leaf { value } });
    let off: int = if prev != 0 {
        1
    } else {
        0
    };
    m0.lemma_search_path_ends(s0, key, 1, 20);
    lemma_search_path_step(m0, s0, key, 1, 20, 0);
    assert(m0.node_at(s0, 1) == Some(m0.root_node()));
    lemma_lower_bound_range(es, key);
    lemma_lower_bound_range(pe, key);
    let d = descend_index(pe, key);
    lemma_split_parent_descend(pe, es, key, value, ni, nf, t);
    lemma_split_parent_descend_other(pe, es, key, value, ni, nf, t, other);
    let np = split_parent_entries(pe, ni, grown_key_at(es, key, es.len() as int), nf, grown_key_at(es, key, t - 1));
    let lm = grown_key_at(es, key, t - 1);
    assert(ni < nf);
    assert(s1.content(nf) == Some(writes[off].data)) by {
        lemma_after_writes_at(writes, nf, s0.content(nf), off);
    }
    assert(s1.content(ni) == Some(writes[off + 1].data)) by {
        lemma_after_writes_at(writes, ni, s0.content(ni), off + 1);
    }
    assert(s1.content((nf + 2) as u64) == Some(writes[off + 2].data)) by {
        lemma_after_writes_at(writes, (nf + 2) as u64, s0.content((nf + 2) as u64), off + 2);
    }
    assert(s1.content((nf + 1) as u64) == Some(writes[off + 3].data)) by {
        lemma_after_writes_at(writes, (nf + 1) as u64, s0.content((nf + 1) as u64), off + 3);
    }
    assert(m1.cache().content(nf) is None);
    assert(m1.cache().content(ni) is None);
    assert(m1.cache().content((nf + 1) as u64) is None);
    assert(m1.cache().content((nf + 2) as u64) is None);
    assert forall|x: u64| x != 1 && x != ni && x < nf implies same_search_view(
        #[trigger] m0.node_at(s0, x),
        m1.node_at(s1, x),
    ) by {
        assert(m0.cache().content(x) is None);
        assert(m1.cache().content(x) is None);
        if prev != 0 && x == prev {
            lemma_after_writes_at(writes, x, s0.content(x), 0);
        } else {
            assert forall|k: int| 0 <= k < writes.len() implies #[trigger] writes[k].slot_index != x by {
                if k == 0 && prev != 0 {
                } else {
                    assert(k >= off);
                }
            }
            lemma_after_writes_untouched(writes, x, s0.content(x));
        }
    }
    lemma_upsert_keeps_sorted(es, key, Child::Leaf { value });
    assert(g == upsert_entries(es, key, Child::Leaf { value }));
    lemma_upsert_keeps_other(es, key, Child::Leaf { value }, other);
    // the search for the other key in the old tree
    let q = m0.key_search(s0, other).unwrap();
    m0.lemma_search_path_ends(s0, other, 1, 20);
    lemma_search_path_last_stops(m0, s0, other, 1, 20);
    lemma_lower_bound_range(pe, other);
    let dold = descend_index(pe, other);
    assert(pe[dold].value is Inner);
    assert(q.len() >= 2) by {
        if q.len() == 1 {
            assert(q.last() == 1);
        }
    }
    lemma_search_path_step(m0, s0, other, 1, 20, 0);
    let c = q[1];
    let qc = m0.search_path(s0, other, c, 19).unwrap();
    assert(q == seq![1u64] + qc);
    // where the new tree sends it: the new root, a half of the old root, then the child
    let r = m1.root_node().entry_seq();
    let hl = (nf + 2) as u64;
    let hr = (nf + 1) as u64;
    let dn = descend_index(np, other);
    let e = lower_bound_spec(np, other);
    lemma_lower_bound_range(np, other);
    lemma_lower_bound_props(np, other);
    K::lemma_key_lt_irreflexive(other);
    let h = if !np[t2 - 1].key.key_lt(other) {
        hl
    } else {
        hr
    };
    let hs = m1.node_at(s1, h).unwrap().entry_seq();
    if !np[t2 - 1].key.key_lt(other) {
        lemma_lower_bound_char(r, other, 0);
        assert(e < t2) by {
            if e >= t2 {
                assert(np[t2 - 1].key.key_lt(other));
            }
        }
        lemma_halves_descend(np, other, t2, e);
        assert(hs == np.take(t2));
    } else {
        if np.last().key.key_lt(other) {
            lemma_lower_bound_char(r, other, 2);
        } else {
            assert(r.drop_first() =~= seq![r[1]]);
            assert(lower_bound_spec(seq![r[1]], other) == 0) by {
                assert(seq![r[1]][0] == r[1]);
            }
            assert(lower_bound_spec(r, other) == 1);
        }
        assert(hs == np.skip(t2));
        if e < np.len() {
            lemma_halves_descend(np, other, t2, e);
        } else {
            assert forall|j: int| 0 <= j < hs.len() implies #[trigger] hs[j].key.key_lt(other) by {
                assert(hs[j] == np[j + t2]);
            }
            lemma_lower_bound_char(hs, other, hs.len() as int);
            assert(hs[hs.len() - 1] == np[np.len() - 1]);
        }
    }
    assert(descend_index(r, other) == (if h == hl { 0int } else { 1int }));
    assert(hs[descend_index(hs, other)].value == np[dn].value);
    if dold != d {
        // another child than the split leaf: the rest of the way is unchanged
        assert(points_to(np[dn].value, c));
        assert forall|k: int| 0 <= k < qc.len() && #[trigger] qc[k] != ni implies same_search_view(
            m0.node_at(s0, qc[k]),
            m1.node_at(s1, qc[k]),
        ) by {
            assert(q[k + 1] == qc[k]);
            assert(qc[k] != 1) by {
                assert(q[0] == 1);
            }
            assert(qc[k] < nf);
        }
        assert(!qc.contains(ni)) by {
            if qc.contains(ni) {
                let k = choose|k: int| 0 <= k < qc.len() && qc[k] == ni;
                assert(q[k + 1] == ni);
                assert(q[k] == 1);
                assert(k == 0);
            }
        }
        lemma_search_same_except(m0, s0, m1, s1, other, c, 19, ni);
        lemma_search_fuel(m1, s1, other, c, 19, 18);
        assert(m1.search_path(s1, other, h, 19) == Some(seq![h] + qc));
        assert(m1.search_path(s1, other, 1, 20) == Some(seq![1u64] + (seq![h] + qc)));
        assert((seq![1u64] + (seq![h] + qc)).last() == qc.last());
        assert(q.last() == qc.last());
        let el = qc.last();
        assert(same_search_view(m0.node_at(s0, el), m1.node_at(s1, el))) by {
            assert(qc[qc.len() - 1] == el);
        }
    } else {
        // the split leaf: the new tree sends the key to the half that holds its place
        assert(c == ni);
        let target = if !lm.key_lt(other) {
            nf
        } else {
            ni
        };
        assert(points_to(np[dn].value, target));
        assert(m1.node_at(s1, target) matches Some(l) && l.leaf_flag());
        assert(m1.search_path(s1, other, target, 18) == Some(seq![target]));
        assert(m1.search_path(s1, other, h, 19) == Some(seq![h] + seq![target]));
        assert(m1.search_path(s1, other, 1, 20) == Some(seq![1u64] + (seq![h] + seq![target])));
        assert((seq![1u64] + (seq![h] + seq![target])).last() == target);
        assert(qc == seq![ni]) by {
            assert(m0.search_path(s0, other, ni, 19) == Some(seq![ni]));
        }
        assert(q.last() == ni);
        lemma_split_halves_value(g, t, other);
        assert(g[t - 1].key == lm);
    }
}


/// Adding the key that splits a full leaf under a full root, once the
/// writes are stored: the map holds the key with the value added and
/// every other key as before, where the tree is shaped as the split relies
/// on and every other key's search is well founded and under twenty steps.
pub proof fn lemma_root_full_split_add_view<K: TreeKey, V>(
    m0: BigOrderedMap<K, V>,
    s0: SlotStore<K, V>,
    key: K,
    value: V,
    m1: BigOrderedMap<K, V>,
    writes: Seq<TableWrite<K, V>>,
    s1: SlotStore<K, V>,
)
    requires
        m0.at_rest(),
        m0.key_search(s0, key) is Some,
        m0.leaf_split_root_full_at(s0, m0.key_search(s0, key).unwrap(), key),
        m0.leaf_split_valid(s0, key),
        m0.leaf_split_root_full_result_at(
            s0,
            m0.key_search(s0, key).unwrap(),
            key,
            Child::Leaf { value },
            m1,
            writes,
        ),
        m1.at_rest(),
        forall|idx: u64| #[trigger] s1.content(idx) == after_writes(writes, idx, s0.content(idx)),
        split_parent_ok(m0, s0, key),
        all_short_split_searches_ok(m0, s0, key),
    ensures
        m1.map_view(s1) == m0.map_view(s0).insert(key, value),
{
    assert forall|k: K| #[trigger] m1.map_view(s1).dom().contains(k) == m0.map_view(s0).insert(
        key,
        value,
    ).dom().contains(k) && (m1.map_view(s1).dom().contains(k) ==> m1.map_view(s1)[k] == m0.map_view(
        s0,
    ).insert(key, value)[k]) by {
        if k == key {
            lemma_root_full_split_add_then_get(m0, s0, key, value, m1, writes, s1);
        } else {
            assert(split_search_ok(m0, s0, key, k));
            lemma_root_full_split_add_keeps_others(m0, s0, key, value, m1, writes, s1, k);
            m0.lemma_search_path_ends(s0, k, 1, 20);
        }
    }
    assert(m1.map_view(s1) =~= m0.map_view(s0).insert(key, value));
}


/// Whether the tree is shaped as a borrow after removing `key` relies on:
/// the nodes on the search for `key` and the neighbour are sorted, the
/// search visits distinct slots and not the neighbour, and the parent keys
/// the leaf and the neighbour by their largest keys, the neighbour's keys
/// lying beyond the leaf's on its side.
pub open spec fn borrow_valid<K: TreeKey, V>(m0: BigOrderedMap<K, V>, s0: SlotStore<K, V>, key: K) -> bool {
    let p = m0.key_search(s0, key).unwrap();
    let ni = p.last();
    let n = m0.node_at(s0, ni).unwrap();
    let es = n.entry_seq();
    let pi = p[p.len() - 2];
    let pe = m0.node_at(s0, pi).unwrap().entry_seq();
    let is_rightmost = points_to(pe.last().value, ni);
    let si = if is_rightmost {
        n.prev_link()
    } else {
        n.next_link()
    };
    let se = m0.node_at(s0, si).unwrap().entry_seq();
    let d = descend_index(pe, key);
    &&& forall|i: int| 0 <= i < p.len() ==> sorted_keys(m0.node_at(s0, #[trigger] p[i]).unwrap().entry_seq())
    &&& sorted_keys(se)
    &&& forall|i: int, j: int| 0 <= i < j < p.len() ==> p[i] != p[j]
    &&& forall|i: int| 0 <= i < p.len() ==> #[trigger] p[i] != si
    &&& !is_rightmost ==> pe[d].key == es.last().key && es.last().key.key_lt(se[0].key)
    &&& is_rightmost ==> d > 0 && pe[d - 1].key == se.last().key && se.last().key.key_lt(es[0].key)
}

/// Reading a key back after a removal that left its leaf under half full
/// and borrowed from the neighbour, once the writes are stored: the search
/// goes the same way, and the leaf no longer holds the key.
pub proof fn lemma_borrow_remove_then_get<K: TreeKey, V>(
    m0: BigOrderedMap<K, V>,
    s0: SlotStore<K, V>,
    key: K,
    removed: Option<V>,
    m1: BigOrderedMap<K, V>,
    writes: Seq<TableWrite<K, V>>,
    s1: SlotStore<K, V>,
)
    requires
        m0.at_rest(),
        m0.key_search(s0, key) is Some,
        m0.underfull_borrow_at(s0, m0.key_search(s0, key).unwrap(), key),
        borrow_valid(m0, s0, key),
        m0.underfull_remove_result_at(s0, m0.key_search(s0, key).unwrap(), key, removed, writes),
        m0.underfull_borrow_result_at(s0, m0.key_search(s0, key).unwrap(), key, m1, writes),
        m1.at_rest(),
        forall|idx: u64| #[trigger] s1.content(idx) == after_writes(writes, idx, s0.content(idx)),
    ensures
        m1.key_search(s1, key) == m0.key_search(s0, key),
        m1.search_end(s1, key) matches Some(n) && value_at_bound(n.entry_seq(), key) is None,
{
    let p = m0.key_search(s0, key).unwrap();
    let len = p.len();
    let ni = p.last();
    let n = m0.node_at(s0, ni).unwrap();
    let es = n.entry_seq();
    let q = lower_bound_spec(es, key);
    let rest = es.remove(q);
    let pi = p[len - 2];
    let pn = m0.node_at(s0, pi).unwrap();
    let pe = pn.entry_seq();
    let is_rightmost = points_to(pe.last().value, ni);
    let si = if is_rightmost {
        n.prev_link()
    } else {
        n.next_link()
    };
    let sib = m0.node_at(s0, si).unwrap();
    let se = sib.entry_seq();
    let rv = (true, rest, n.prev_link(), n.next_link());
    let ok = BigOrderedMap::<K, V>::borrow_rename(rv, sib, is_rightmost).0;
    let nk = BigOrderedMap::<K, V>::borrow_rename(rv, sib, is_rightmost).1;
    let pq = lower_bound_spec(pe, ok);
    m0.lemma_search_path_ends(s0, key, 1, 20);
    lemma_search_path_step(m0, s0, key, 1, 20, len - 2);
    assert(p[len - 1] == ni);
    assert(sorted_keys(es));
    assert(sorted_keys(pe)) by {
        assert(p[len - 2] == pi);
    }
    lemma_lower_bound_range(es, key);
    lemma_lower_bound_range(pe, key);
    K::lemma_key_lt_irreflexive(key);
    let w1 = writes.skip(1);
    assert(w1[0] == writes[1] && w1[1] == writes[2]);
    // the slots as the writes leave them
    assert(s1.content(ni) == Some(writes[1].data)) by {
        lemma_after_writes_at(writes, ni, s0.content(ni), 1);
    }
    assert(s1.content(si) == Some(writes[2].data)) by {
        lemma_after_writes_at(writes, si, s0.content(si), 2);
    }
    if pi != 1 {
        assert(s1.content(pi) == Some(writes[3].data)) by {
            lemma_after_writes_at(writes, pi, s0.content(pi), 3);
        }
    }
    assert(m1.cache().content(ni) is None);
    assert(m1.cache().content(pi) is None);
    let d = descend_index(pe, key);
    assert(points_to(pe[d].value, ni));
    // the leaf after the borrow
    let nl = m1.node_at(s1, ni).unwrap();
    let les = nl.entry_seq();
    lemma_remove_then_absent(es, key);
    assert(rest == remove_entries(es, key));
    if !is_rightmost {
        assert(les == rest.push(se[0]));
    } else {
        assert(les == seq![se.last()] + rest);
    }
    // the key is not in the leaf after the borrow
    assert(!has_key_at_bound(les, key)) by {
        lemma_lower_bound_range(les, key);
        let b = lower_bound_spec(les, key);
        if has_key_at_bound(les, key) {
            if !is_rightmost {
                if b < rest.len() {
                    assert(les[b] == rest[b]);
                    lemma_sorted_find(rest, key);
                } else {
                    assert(les[b] == se[0]);
                    assert(es[q].key == key);
                    assert(es[q].key.key_lt(es.last().key)) by {
                        assert(es.last() == es[es.len() - 1]);
                    }
                    K::lemma_key_lt_transitive(key, es.last().key, se[0].key);
                }
            } else {
                if b == 0 {
                    assert(les[0] == se.last());
                    assert(es[q].key == key);
                    if q > 0 {
                        assert(es[0].key.key_lt(es[q].key));
                        K::lemma_key_lt_transitive(se.last().key, es[0].key, key);
                    }
                } else {
                    assert(les[b] == rest[b - 1]);
                    lemma_sorted_find(rest, key);
                }
            }
        }
    }
    // the parent after the borrow still sends the key to the leaf
    let npn = m1.node_at(s1, pi).unwrap();
    let npe = npn.entry_seq();
    assert(node_view(npn) == renamed_at(pn, pq, nk)) by {
        if pi == 1 {
            assert(npn == m1.root_node());
        }
    }
    lemma_lower_bound_props(pe, key);
    if !is_rightmost {
        assert(ok == es.last().key) by {
            assert(rest.last() == es.last());
        }
        assert(nk == se[0].key);
        // the parent's entry for the leaf is the one renamed
        lemma_sorted_index_is_bound(pe, ok, d);
        assert(pq == d);
        assert(key.key_lt(es.last().key)) by {
            assert(es[q].key == key);
            assert(es.last() == es[es.len() - 1]);
        }
        K::lemma_key_lt_transitive(key, es.last().key, se[0].key);
        assert forall|j: int| 0 <= j < d implies #[trigger] npe[j].key.key_lt(key) by {
            assert(npe[j] == pe[j]);
            if lower_bound_spec(pe, key) < pe.len() {
            } else {
                assert(d == pe.len() - 1);
            }
        }
        assert(npe[d].key == nk);
        if nk.key_lt(key) {
            K::lemma_key_lt_transitive(nk, key, nk);
            K::lemma_key_lt_irreflexive(nk);
        }
        lemma_lower_bound_char(npe, key, d);
        assert(npe[d].value == pe[d].value);
    } else {
        assert(ok == se.last().key);
        lemma_sorted_index_is_bound(pe, ok, d - 1);
        assert(pq == d - 1);
        assert(nk.key_lt(ok)) by {
            assert(se[se.len() - 2].key.key_lt(se[se.len() - 1].key));
            assert(se.last() == se[se.len() - 1]);
        }
        if lower_bound_spec(pe, key) < pe.len() {
            assert forall|j: int| 0 <= j < d implies #[trigger] npe[j].key.key_lt(key) by {
                if j == d - 1 {
                    K::lemma_key_lt_transitive(nk, ok, key);
                } else {
                    assert(npe[j] == pe[j]);
                }
            }
            assert(npe[d] == pe[d]);
            lemma_lower_bound_char(npe, key, d);
        } else {
            assert forall|j: int| 0 <= j < npe.len() implies #[trigger] npe[j].key.key_lt(key) by {
                if j == d - 1 {
                    K::lemma_key_lt_transitive(nk, ok, key);
                } else {
                    assert(npe[j] == pe[j]);
                }
            }
            lemma_lower_bound_char(npe, key, npe.len() as int);
        }
        assert(npe[d] == pe[d]);
    }
    // every node above the parent is as it was
    assert forall|i: int| 0 <= i < len - 1 implies {
        let x = #[trigger] p[i];
        let nx = m1.node_at(s1, x).unwrap();
        &&& m1.node_at(s1, x) is Some
        &&& !nx.leaf_flag()
        &&& nx.entry_seq().len() > 0
        &&& points_to(nx.entry_seq()[descend_index(nx.entry_seq(), key)].value, p[i + 1])
    } by {
        let x = p[i];
        lemma_search_path_step(m0, s0, key, 1, 20, i);
        if i < len - 2 {
            assert(x != pi && x != ni && x != si);
            assert(m0.cache().content(x) is None);
            assert(m1.cache().content(x) is None);
            if x == 1 {
                assert(pi != 1) by {
                    assert(p[0] == 1);
                }
            } else {
                assert forall|k: int| 0 <= k < writes.len() implies #[trigger] writes[k].slot_index != x by {
                    if k == 0 {
                    } else if k == 1 {
                        assert(writes[1] == w1[0]);
                    } else if k == 2 {
                        assert(writes[2] == w1[1]);
                    }
                }
                lemma_after_writes_untouched(writes, x, s0.content(x));
            }
            assert(m1.node_at(s1, x) == m0.node_at(s0, x));
        }
    }
    assert(m1.node_at(s1, p.last()) matches Some(l) && l.leaf_flag());
    lemma_search_follows(m0, s0, m1, s1, key, 1, 20);
}


/// The value of a key in a sorted sequence with an entry of a larger key
/// put at its end: that entry's for its own key, else as before.
proof fn lemma_value_push<K: TreeKey, V>(s: Seq<Entry<K, Child<V>>>, e: Entry<K, Child<V>>, o: K)
    requires
        sorted_keys(s),
        s.len() == 0 || s.last().key.key_lt(e.key),
    ensures
        o != e.key ==> value_at_bound(s.push(e), o) == value_at_bound(s, o),
        o == e.key ==> value_at_bound(s.push(e), o) == (if e.value is Leaf {
            Some(e.value->value)
        } else {
            None::<V>
        }),
{
    let t = s.push(e);
    let b = lower_bound_spec(s, o);
    lemma_lower_bound_range(s, o);
    lemma_lower_bound_props(s, o);
    K::lemma_key_lt_irreflexive(o);
    if b < s.len() {
        assert forall|j: int| 0 <= j < b implies #[trigger] t[j].key.key_lt(o) by {
            assert(t[j] == s[j]);
        }
        assert(t[b] == s[b]);
        lemma_lower_bound_char(t, o, b);
        if o == e.key {
            assert(s[b].key.key_lt(o)) by {
                assert(s.last() == s[s.len() - 1]);
                if b < s.len() - 1 {
                    assert(s[b].key.key_lt(s[s.len() - 1].key));
                    K::lemma_key_lt_transitive(s[b].key, s.last().key, e.key);
                }
            }
        }
    } else {
        assert forall|j: int| 0 <= j < b implies #[trigger] t[j].key.key_lt(o) by {
            assert(t[j] == s[j]);
        }
        if e.key.key_lt(o) {
            assert forall|j: int| 0 <= j < t.len() implies #[trigger] t[j].key.key_lt(o) by {
                if j < b {
                    assert(t[j] == s[j]);
                }
            }
            lemma_lower_bound_char(t, o, t.len() as int);
        } else {
            lemma_lower_bound_char(t, o, b);
            assert(t[b] == e);
        }
    }
}

/// The value of a key other than the first in a sorted sequence is the
/// same without the first entry.
proof fn lemma_value_drop_first<K: TreeKey, V>(s: Seq<Entry<K, Child<V>>>, o: K)
    requires
        sorted_keys(s),
        s.len() > 0,
        o != s[0].key,
    ensures
        value_at_bound(s.drop_first(), o) == value_at_bound(s, o),
{
    let t = s.drop_first();
    let b = lower_bound_spec(s, o);
    lemma_lower_bound_range(s, o);
    lemma_lower_bound_props(s, o);
    if b == 0 {
        assert(o.key_lt(s[0].key)) by {
            K::lemma_key_lt_total(o, s[0].key);
        }
        if t.len() > 0 {
            assert(t[0] == s[1]);
            assert(s[0].key.key_lt(s[1].key));
            K::lemma_key_lt_transitive(o, s[0].key, s[1].key);
            if t[0].key.key_lt(o) {
                K::lemma_key_lt_transitive(o, t[0].key, o);
                K::lemma_key_lt_irreflexive(o);
            }
            K::lemma_key_lt_irreflexive(o);
        }
        lemma_lower_bound_char(t, o, 0);
    } else {
        assert forall|j: int| 0 <= j < b - 1 implies #[trigger] t[j].key.key_lt(o) by {
            assert(t[j] == s[j + 1]);
        }
        if b < s.len() {
            assert(t[b - 1] == s[b]);
        }
        lemma_lower_bound_char(t, o, b - 1);
    }
}


/// After a borrow from the next neighbour renames the parent's key for the
/// leaf to the borrowed key, any key goes from the parent to the child it
/// went to before, but for one that went to the neighbour and is not above
/// the borrowed key: that one goes to the leaf.
proof fn lemma_borrow_parent_descend<K: TreeKey, C>(pe: Seq<Entry<K, C>>, d: int, nk: K, o: K)
    requires
        sorted_keys(pe),
        0 <= d,
        d + 1 < pe.len(),
        pe[d].key.key_lt(nk),
        nk.key_lt(pe[d + 1].key),
    ensures
        ({
            let npe = pe.update(d, Entry { key: nk, value: pe[d].value });
            let dn = descend_index(npe, o);
            let dold = descend_index(pe, o);
            &&& 0 <= dn < npe.len()
            &&& 0 <= dold < pe.len()
            &&& !(dold == d + 1 && !nk.key_lt(o)) ==> dn == dold
            &&& dold == d + 1 && !nk.key_lt(o) ==> dn == d
        }),
{
    let npe = pe.update(d, Entry { key: nk, value: pe[d].value });
    let lb = lower_bound_spec(pe, o);
    lemma_lower_bound_range(pe, o);
    lemma_lower_bound_props(pe, o);
    K::lemma_key_lt_irreflexive(o);
    assert forall|j: int| 0 <= j < pe.len() && j != d implies #[trigger] npe[j] == pe[j] by {}
    if lb < d {
        assert forall|j: int| 0 <= j < lb implies #[trigger] npe[j].key.key_lt(o) by {
            assert(npe[j] == pe[j]);
        }
        assert(npe[lb] == pe[lb]);
        lemma_lower_bound_char(npe, o, lb);
    } else if lb == d {
        assert forall|j: int| 0 <= j < d implies #[trigger] npe[j].key.key_lt(o) by {
            assert(npe[j] == pe[j]);
        }
        assert(!nk.key_lt(o)) by {
            if nk.key_lt(o) {
                K::lemma_key_lt_transitive(pe[d].key, nk, o);
            }
        }
        lemma_lower_bound_char(npe, o, d);
    } else if lb == d + 1 {
        assert forall|j: int| 0 <= j < d implies #[trigger] npe[j].key.key_lt(o) by {
            assert(npe[j] == pe[j]);
        }
        if !nk.key_lt(o) {
            lemma_lower_bound_char(npe, o, d);
        } else {
            assert(npe[d + 1] == pe[d + 1]);
            lemma_lower_bound_char(npe, o, d + 1);
        }
    } else {
        assert(pe[d + 1].key.key_lt(o));
        K::lemma_key_lt_transitive(nk, pe[d + 1].key, o);
        assert forall|j: int| 0 <= j < lb implies #[trigger] npe[j].key.key_lt(o) by {
            if j != d {
                assert(npe[j] == pe[j]);
            }
        }
        if lb < pe.len() {
            assert(npe[lb] == pe[lb]);
        }
        lemma_lower_bound_char(npe, o, lb);
    }
}

/// Whether the parent of the leaf where `key` belongs suits a borrow from
/// the next neighbour: the leaf is not its last child, the neighbour's
/// entry comes right after the leaf's and is keyed by the neighbour's
/// largest key, it holds child nodes only and one entry for each of the
/// two, and the neighbour holds two entries or more.
pub open spec fn borrow_next_ok<K: TreeKey, V>(m0: BigOrderedMap<K, V>, s0: SlotStore<K, V>, key: K) -> bool {
    let p = m0.key_search(s0, key).unwrap();
    let ni = p.last();
    let n = m0.node_at(s0, ni).unwrap();
    let pe = m0.node_at(s0, p[p.len() - 2]).unwrap().entry_seq();
    let si = n.next_link();
    let se = m0.node_at(s0, si).unwrap().entry_seq();
    let d = descend_index(pe, key);
    &&& !points_to(pe.last().value, ni)
    &&& d + 1 < pe.len()
    &&& points_to(pe[d + 1].value, si) && pe[d + 1].key == se.last().key
    &&& se.len() >= 2
    &&& m0.node_at(s0, si).unwrap().leaf_flag()
    &&& forall|j: int| 0 <= j < pe.len() ==> (#[trigger] pe[j]).value is Inner
    &&& forall|j: int| 0 <= j < pe.len() && j != d ==> !points_to((#[trigger] pe[j]).value, ni)
    &&& forall|j: int| 0 <= j < pe.len() && j != d + 1 ==> !points_to((#[trigger] pe[j]).value, si)
}

/// Whether the search for `other` visits distinct slots and reaches the
/// leaf where `key` belongs and its next neighbour only from their parent.
pub open spec fn borrow_search_ok<K: TreeKey, V>(m0: BigOrderedMap<K, V>, s0: SlotStore<K, V>, key: K, other: K) -> bool {
    let q = m0.key_search(s0, other).unwrap();
    let p = m0.key_search(s0, key).unwrap();
    let si = m0.node_at(s0, p.last()).unwrap().next_link();
    &&& m0.key_search(s0, other) is Some
    &&& forall|i: int, j: int| 0 <= i < j < q.len() ==> q[i] != q[j]
    &&& forall|k: int| 0 < k < q.len() && (#[trigger] q[k] == p.last() || q[k] == si) ==> q[k - 1] == p[p.len() - 2]
}


/// A removal that borrows from the next neighbour leaves every other key's
/// value as it was, once the writes are stored, where the tree is shaped
/// as the borrow relies on and the other key's search reaches the leaf and
/// the neighbour only from their parent.
#[verifier::spinoff_prover]
#[verifier::rlimit(40)]
pub proof fn lemma_borrow_next_remove_keeps_others<K: TreeKey, V>(
    m0: BigOrderedMap<K, V>,
    s0: SlotStore<K, V>,
    key: K,
    removed: Option<V>,
    m1: BigOrderedMap<K, V>,
    writes: Seq<TableWrite<K, V>>,
    s1: SlotStore<K, V>,
    other: K,
)
    requires
        m0.at_rest(),
        m0.key_search(s0, key) is Some,
        m0.underfull_borrow_at(s0, m0.key_search(s0, key).unwrap(), key),
        borrow_valid(m0, s0, key),
        borrow_next_ok(m0, s0, key),
        m0.underfull_remove_result_at(s0, m0.key_search(s0, key).unwrap(), key, removed, writes),
        m0.underfull_borrow_result_at(s0, m0.key_search(s0, key).unwrap(), key, m1, writes),
        m1.at_rest(),
        forall|idx: u64| #[trigger] s1.content(idx) == after_writes(writes, idx, s0.content(idx)),
        borrow_search_ok(m0, s0, key, other),
        other != key,
    ensures
        m1.search_end(s1, other) matches Some(n1) && value_at_bound(n1.entry_seq(), other) == value_at_bound(
            m0.search_end(s0, other).unwrap().entry_seq(),
            other,
        ),
{
    let p = m0.key_search(s0, key).unwrap();
    let len = p.len();
    let ni = p.last();
    let n = m0.node_at(s0, ni).unwrap();
    let es = n.entry_seq();
    let kq = lower_bound_spec(es, key);
    let rest = es.remove(kq);
    let pi = p[len - 2];
    let pn = m0.node_at(s0, pi).unwrap();
    let pe = pn.entry_seq();
    let si = n.next_link();
    let sib = m0.node_at(s0, si).unwrap();
    let se = sib.entry_seq();
    let nk = se[0].key;
    m0.lemma_search_path_ends(s0, key, 1, 20);
    lemma_search_path_step(m0, s0, key, 1, 20, len - 2);
    assert(p[len - 1] == ni);
    assert(sorted_keys(es));
    assert(sorted_keys(pe)) by {
        assert(p[len - 2] == pi);
    }
    lemma_lower_bound_range(es, key);
    lemma_lower_bound_range(pe, key);
    K::lemma_key_lt_irreflexive(other);
    let d = descend_index(pe, key);
    let w1 = writes.skip(1);
    assert(w1[0] == writes[1] && w1[1] == writes[2]);
    assert(s1.content(ni) == Some(writes[1].data)) by {
        lemma_after_writes_at(writes, ni, s0.content(ni), 1);
    }
    assert(s1.content(si) == Some(writes[2].data)) by {
        lemma_after_writes_at(writes, si, s0.content(si), 2);
    }
    if pi != 1 {
        assert(s1.content(pi) == Some(writes[3].data)) by {
            lemma_after_writes_at(writes, pi, s0.content(pi), 3);
        }
    }
    assert(m1.cache().content(ni) is None);
    assert(m1.cache().content(si) is None);
    assert(m1.cache().content(pi) is None);
    // every other slot reads alike
    assert forall|x: u64| x != pi && x != ni && x != si implies same_search_view(
        #[trigger] m0.node_at(s0, x),
        m1.node_at(s1, x),
    ) by {
        assert(m0.cache().content(x) is None);
        assert(m1.cache().content(x) is None);
        if x != 1 {
            assert forall|k: int| 0 <= k < writes.len() implies #[trigger] writes[k].slot_index != x by {
                if k == 1 {
                    assert(writes[1] == w1[0]);
                } else if k == 2 {
                    assert(writes[2] == w1[1]);
                }
            }
            lemma_after_writes_untouched(writes, x, s0.content(x));
        }
    }
    // the leaf, the neighbour and the parent after the borrow
    let les = m1.node_at(s1, ni).unwrap().entry_seq();
    let ses = m1.node_at(s1, si).unwrap().entry_seq();
    assert(les == rest.push(se[0]));
    assert(ses == se.drop_first());
    assert(m1.node_at(s1, ni).unwrap().leaf_flag());
    assert(m1.node_at(s1, si).unwrap().leaf_flag());
    let ok = es.last().key;
    assert(rest.last() == es.last()) by {
        assert(es.last() == es[es.len() - 1]);
    }
    lemma_sorted_index_is_bound(pe, ok, d);
    let npn = m1.node_at(s1, pi).unwrap();
    let npe = npn.entry_seq();
    assert(node_view(npn) == renamed_at(pn, d, nk)) by {
        if pi == 1 {
            assert(npn == m1.root_node());
        }
    }
    assert(npe == pe.update(d, Entry { key: nk, value: pe[d].value }));
    assert(nk.key_lt(pe[d + 1].key)) by {
        assert(se[0].key.key_lt(se[se.len() - 1].key));
        assert(se.last() == se[se.len() - 1]);
    }
    lemma_borrow_parent_descend(pe, d, nk, other);
    lemma_remove_then_absent(es, key);
    assert(rest == remove_entries(es, key));
    lemma_remove_keeps_other_entry(es, key, other);
    // the search for the other key in the old tree
    let q = m0.key_search(s0, other).unwrap();
    m0.lemma_search_path_ends(s0, other, 1, 20);
    lemma_search_path_last_stops(m0, s0, other, 1, 20);
    assert(q.last() != pi) by {
        if q.last() == pi {
            lemma_lower_bound_range(pe, other);
            assert(pe[descend_index(pe, other)].value is Inner);
        }
    }
    if q.contains(pi) {
        let i = choose|i: int| 0 <= i < q.len() && q[i] == pi;
        assert(i < q.len() - 1) by {
            assert(q[q.len() - 1] == q.last());
        }
        lemma_search_path_step(m0, s0, other, 1, 20, i);
        let c = q[i + 1];
        let dold = descend_index(pe, other);
        let dn = descend_index(npe, other);
        if c != ni && c != si {
            assert(dold != d && dold != d + 1);
            assert(dn == dold);
            assert(npe[dn] == pe[dold]);
            assert forall|k: int| 0 <= k < q.len() && #[trigger] q[k] != pi implies same_search_view(
                m0.node_at(s0, q[k]),
                m1.node_at(s1, q[k]),
            ) by {
                if q[k] == ni || q[k] == si {
                    assert(k > 0) by {
                        if k == 0 {
                            assert(q[0] == 1);
                        }
                    }
                    assert(q[k - 1] == pi);
                    assert(k - 1 == i);
                }
            }
            lemma_search_same_except(m0, s0, m1, s1, other, 1, 20, pi);
            let e = q.last();
            assert(same_search_view(m0.node_at(s0, e), m1.node_at(s1, e))) by {
                assert(q[q.len() - 1] == e);
                if e == ni || e == si {
                    assert(q[q.len() - 2] == pi);
                    assert(q.len() - 2 == i);
                }
            }
        } else {
            // the search ends at the leaf or the neighbour, right under the parent
            assert(q.last() == c) by {
                if i + 1 < q.len() - 1 {
                    lemma_search_path_step(m0, s0, other, 1, 20, i + 1);
                }
                assert(q[q.len() - 1] == q.last());
            }
            assert(q[q.len() - 2] == pi);
            let avoid = if c == ni {
                si
            } else {
                ni
            };
            assert(!q.contains(avoid)) by {
                if q.contains(avoid) {
                    let k = choose|k: int| 0 <= k < q.len() && q[k] == avoid;
                    assert(k > 0) by {
                        if k == 0 {
                            assert(q[0] == 1);
                        }
                    }
                    assert(q[k - 1] == pi);
                    assert(k - 1 == i);
                }
            }
            let target = if dn == d {
                ni
            } else {
                si
            };
            lemma_lower_bound_range(pe, other);
            lemma_lower_bound_props(pe, other);
            if c == ni {
                assert(dold == d);
                assert(dn == d);
            } else {
                assert(dold == d + 1);
            }
            assert(points_to(npe[dn].value, target));
            lemma_search_reroute(m0, s0, m1, s1, other, 1, 20, pi, c, target, avoid);
            assert(q.drop_last().push(target).last() == target);
            if c == ni {
                // stays in the leaf, below the borrowed key
                assert(!pe[d].key.key_lt(other) || lower_bound_spec(pe, other) == pe.len()) by {}
                lemma_value_push(rest, se[0], other);
                if other == nk {
                    assert(lower_bound_spec(pe, other) <= d);
                    assert(!ok.key_lt(other)) by {
                        if lower_bound_spec(pe, other) < pe.len() {
                        }
                    }
                    K::lemma_key_lt_transitive(ok, nk, ok);
                    K::lemma_key_lt_irreflexive(ok);
                }
            } else {
                assert(pe[d].key.key_lt(other));
                if dn == d {
                    // moves from the neighbour to the leaf
                    lemma_value_push(rest, se[0], other);
                    lemma_lower_bound_props(se, other);
                    lemma_lower_bound_range(se, other);
                    if other != nk {
                        assert(other.key_lt(nk)) by {
                            K::lemma_key_lt_total(other, nk);
                        }
                        lemma_lower_bound_char(se, other, 0);
                        lemma_lower_bound_range(rest, other);
                        assert forall|j: int| 0 <= j < rest.len() implies #[trigger] rest[j].key.key_lt(other) by {
                            assert(rest[rest.len() - 1] == rest.last());
                            if j < rest.len() - 1 {
                                assert(rest[j].key.key_lt(rest[rest.len() - 1].key));
                                K::lemma_key_lt_transitive(rest[j].key, ok, other);
                            }
                        }
                        lemma_lower_bound_char(rest, other, rest.len() as int);
                    } else {
                        lemma_lower_bound_char(se, other, 0);
                    }
                } else {
                    // stays in the neighbour
                    lemma_value_drop_first(se, other);
                }
            }
        }
    } else {
        assert forall|k: int| 0 <= k < q.len() && #[trigger] q[k] != pi implies same_search_view(
            m0.node_at(s0, q[k]),
            m1.node_at(s1, q[k]),
        ) by {
            if q[k] == ni || q[k] == si {
                if k == 0 {
                    assert(q[0] == 1);
                } else {
                    assert(q[k - 1] == pi);
                }
            }
        }
        lemma_search_same_except(m0, s0, m1, s1, other, 1, 20, pi);
        let e = q.last();
        assert(same_search_view(m0.node_at(s0, e), m1.node_at(s1, e))) by {
            assert(q[q.len() - 1] == e);
            if e == ni || e == si {
                if q.len() == 1 {
                    assert(q[0] == 1);
                } else {
                    assert(q[q.len() - 2] == pi);
                }
            }
        }
    }
}


/// Whether the search for every key but `key` is as a borrow relies on.
pub open spec fn all_borrow_searches_ok<K: TreeKey, V>(m0: BigOrderedMap<K, V>, s0: SlotStore<K, V>, key: K) -> bool {
    forall|o: K| o != key ==> #[trigger] borrow_search_ok(m0, s0, key, o)
}

/// Removing a key from a leaf that then borrows from its next neighbour,
/// once the writes are stored: the map no longer holds the key, and every
/// other key as before, where the tree is shaped as the borrow relies on.
pub proof fn lemma_borrow_next_remove_view<K: TreeKey, V>(
    m0: BigOrderedMap<K, V>,
    s0: SlotStore<K, V>,
    key: K,
    removed: Option<V>,
    m1: BigOrderedMap<K, V>,
    writes: Seq<TableWrite<K, V>>,
    s1: SlotStore<K, V>,
)
    requires
        m0.at_rest(),
        m0.key_search(s0, key) is Some,
        m0.underfull_borrow_at(s0, m0.key_search(s0, key).unwrap(), key),
        borrow_valid(m0, s0, key),
        borrow_next_ok(m0, s0, key),
        m0.underfull_remove_result_at(s0, m0.key_search(s0, key).unwrap(), key, removed, writes),
        m0.underfull_borrow_result_at(s0, m0.key_search(s0, key).unwrap(), key, m1, writes),
        m1.at_rest(),
        forall|idx: u64| #[trigger] s1.content(idx) == after_writes(writes, idx, s0.content(idx)),
        all_borrow_searches_ok(m0, s0, key),
    ensures
        m1.map_view(s1) == m0.map_view(s0).remove(key),
{
    assert forall|k: K| #[trigger] m1.map_view(s1).dom().contains(k) == m0.map_view(s0).remove(
        key,
    ).dom().contains(k) && (m1.map_view(s1).dom().contains(k) ==> m1.map_view(s1)[k] == m0.map_view(
        s0,
    ).remove(key)[k]) by {
        if k == key {
            lemma_borrow_remove_then_get(m0, s0, key, removed, m1, writes, s1);
        } else {
            assert(borrow_search_ok(m0, s0, key, k));
            lemma_borrow_next_remove_keeps_others(m0, s0, key, removed, m1, writes, s1, k);
            m0.lemma_search_path_ends(s0, k, 1, 20);
        }
    }
    assert(m1.map_view(s1) =~= m0.map_view(s0).remove(key));
}


/// The value of a key in a sorted sequence with an entry of a smaller key
/// put in front: that entry's for its own key, else as before.
proof fn lemma_value_prepend<K: TreeKey, V>(s: Seq<Entry<K, Child<V>>>, e: Entry<K, Child<V>>, o: K)
    requires
        sorted_keys(s),
        s.len() == 0 || e.key.key_lt(s[0].key),
    ensures
        o != e.key ==> value_at_bound(seq![e] + s, o) == value_at_bound(s, o),
        o == e.key ==> value_at_bound(seq![e] + s, o) == (if e.value is Leaf {
            Some(e.value->value)
        } else {
            None::<V>
        }),
{
    let t = seq![e] + s;
    assert(t[0] == e);
    assert(t.drop_first() =~= s);
    K::lemma_key_lt_irreflexive(o);
    if e.key.key_lt(o) {
        assert(lower_bound_spec(t, o) == 1 + lower_bound_spec(s, o));
        lemma_lower_bound_range(s, o);
        let b = lower_bound_spec(s, o);
        if b < s.len() {
            assert(t[b + 1] == s[b]);
        }
    } else {
        assert(lower_bound_spec(t, o) == 0);
        if o != e.key {
            assert(o.key_lt(e.key)) by {
                K::lemma_key_lt_total(o, e.key);
            }
            if s.len() > 0 {
                K::lemma_key_lt_transitive(o, e.key, s[0].key);
                if s[0].key.key_lt(o) {
                    K::lemma_key_lt_transitive(o, s[0].key, o);
                }
            }
            lemma_lower_bound_char(s, o, 0);
            if s.len() > 0 {
                assert(s[0].key != o);
            }
        }
    }
}

/// The value of a key other than the last in a sorted sequence is the
/// same without the last entry.
proof fn lemma_value_drop_last<K: TreeKey, V>(s: Seq<Entry<K, Child<V>>>, o: K)
    requires
        sorted_keys(s),
        s.len() > 0,
        o != s.last().key,
    ensures
        value_at_bound(s.drop_last(), o) == value_at_bound(s, o),
{
    let t = s.drop_last();
    let b = lower_bound_spec(s, o);
    lemma_lower_bound_range(s, o);
    lemma_lower_bound_props(s, o);
    assert forall|j: int| 0 <= j < t.len() implies #[trigger] t[j] == s[j] by {}
    if b < t.len() {
        assert forall|j: int| 0 <= j < b implies #[trigger] t[j].key.key_lt(o) by {}
        lemma_lower_bound_char(t, o, b);
    } else {
        assert forall|j: int| 0 <= j < t.len() implies #[trigger] t[j].key.key_lt(o) by {}
        lemma_lower_bound_char(t, o, t.len() as int);
        if b == s.len() - 1 {
            assert(s[b] == s.last());
        }
    }
}

/// After a borrow from the previous neighbour renames the parent's key for
/// the neighbour to its new largest key, any key goes from the parent to
/// the child it went to before, but for one that went to the neighbour and
/// is above its new largest key: that one goes to the leaf.
proof fn lemma_borrow_prev_parent_descend<K: TreeKey, C>(pe: Seq<Entry<K, C>>, d: int, nk: K, o: K)
    requires
        sorted_keys(pe),
        1 <= d < pe.len(),
        d < 2 || pe[d - 2].key.key_lt(nk),
        nk.key_lt(pe[d - 1].key),
    ensures
        ({
            let npe = pe.update(d - 1, Entry { key: nk, value: pe[d - 1].value });
            let dn = descend_index(npe, o);
            let dold = descend_index(pe, o);
            &&& 0 <= dn < npe.len()
            &&& 0 <= dold < pe.len()
            &&& !(dold == d - 1 && nk.key_lt(o)) ==> dn == dold
            &&& dold == d - 1 && nk.key_lt(o) ==> dn == d
        }),
{
    let npe = pe.update(d - 1, Entry { key: nk, value: pe[d - 1].value });
    let lb = lower_bound_spec(pe, o);
    lemma_lower_bound_range(pe, o);
    lemma_lower_bound_props(pe, o);
    K::lemma_key_lt_irreflexive(o);
    assert forall|j: int| 0 <= j < pe.len() && j != d - 1 implies #[trigger] npe[j] == pe[j] by {}
    if lb < d - 1 {
        assert forall|j: int| 0 <= j < lb implies #[trigger] npe[j].key.key_lt(o) by {
            assert(npe[j] == pe[j]);
        }
        assert(npe[lb] == pe[lb]);
        lemma_lower_bound_char(npe, o, lb);
    } else if lb == d - 1 {
        assert forall|j: int| 0 <= j < d - 1 implies #[trigger] npe[j].key.key_lt(o) by {
            assert(npe[j] == pe[j]);
        }
        if !nk.key_lt(o) {
            lemma_lower_bound_char(npe, o, d - 1);
        } else {
            assert(npe[d] == pe[d]);
            assert(pe[d - 1].key.key_lt(pe[d].key));
            assert(!pe[d].key.key_lt(o)) by {
                if pe[d].key.key_lt(o) {
                    K::lemma_key_lt_transitive(pe[d - 1].key, pe[d].key, o);
                }
            }
            lemma_lower_bound_char(npe, o, d);
        }
    } else {
        assert(pe[d - 1].key.key_lt(o));
        K::lemma_key_lt_transitive(nk, pe[d - 1].key, o);
        assert forall|j: int| 0 <= j < lb implies #[trigger] npe[j].key.key_lt(o) by {
            if j != d - 1 {
                assert(npe[j] == pe[j]);
            }
        }
        if lb < pe.len() {
            assert(npe[lb] == pe[lb]);
        }
        lemma_lower_bound_char(npe, o, lb);
    }
}

/// Whether the parent of the leaf where `key` belongs suits a borrow from
/// the previous neighbour: the leaf is its last child, the neighbour's
/// entry comes right before the leaf's, keyed above the entry before it
/// and below the neighbour's first key, the parent holds child nodes only
/// and one entry for each of the two, and the neighbour is a leaf with two
/// entries or more.
pub open spec fn borrow_prev_ok<K: TreeKey, V>(m0: BigOrderedMap<K, V>, s0: SlotStore<K, V>, key: K) -> bool {
    let p = m0.key_search(s0, key).unwrap();
    let ni = p.last();
    let n = m0.node_at(s0, ni).unwrap();
    let pe = m0.node_at(s0, p[p.len() - 2]).unwrap().entry_seq();
    let si = n.prev_link();
    let se = m0.node_at(s0, si).unwrap().entry_seq();
    let d = descend_index(pe, key);
    &&& points_to(pe.last().value, ni)
    &&& 1 <= d < pe.len()
    &&& points_to(pe[d - 1].value, si)
    &&& d < 2 || pe[d - 2].key.key_lt(se[0].key)
    &&& se.len() >= 2
    &&& m0.node_at(s0, si).unwrap().leaf_flag()
    &&& forall|j: int| 0 <= j < pe.len() ==> (#[trigger] pe[j]).value is Inner
    &&& forall|j: int| 0 <= j < pe.len() && j != d ==> !points_to((#[trigger] pe[j]).value, ni)
    &&& forall|j: int| 0 <= j < pe.len() && j != d - 1 ==> !points_to((#[trigger] pe[j]).value, si)
}

/// Whether the search for `other` visits distinct slots and reaches the
/// leaf where `key` belongs and its previous neighbour only from their
/// parent.
pub open spec fn borrow_search_prev_ok<K: TreeKey, V>(
    m0: BigOrderedMap<K, V>,
    s0: SlotStore<K, V>,
    key: K,
    other: K,
) -> bool {
    let q = m0.key_search(s0, other).unwrap();
    let p = m0.key_search(s0, key).unwrap();
    let si = m0.node_at(s0, p.last()).unwrap().prev_link();
    &&& m0.key_search(s0, other) is Some
    &&& forall|i: int, j: int| 0 <= i < j < q.len() ==> q[i] != q[j]
    &&& forall|k: int| 0 < k < q.len() && (#[trigger] q[k] == p.last() || q[k] == si) ==> q[k - 1] == p[p.len() - 2]
}

/// A removal that borrows from the previous neighbour leaves every other key's
/// value as it was, once the writes are stored, where the tree is shaped
/// as the borrow relies on and the other key's search reaches the leaf and
/// the neighbour only from their parent.
#[verifier::spinoff_prover]
#[verifier::rlimit(40)]
pub proof fn lemma_borrow_prev_remove_keeps_others<K: TreeKey, V>(
    m0: BigOrderedMap<K, V>,
    s0: SlotStore<K, V>,
    key: K,
    removed: Option<V>,
    m1: BigOrderedMap<K, V>,
    writes: Seq<TableWrite<K, V>>,
    s1: SlotStore<K, V>,
    other: K,
)
    requires
        m0.at_rest(),
        m0.key_search(s0, key) is Some,
        m0.underfull_borrow_at(s0, m0.key_search(s0, key).unwrap(), key),
        borrow_valid(m0, s0, key),
        borrow_prev_ok(m0, s0, key),
        m0.underfull_remove_result_at(s0, m0.key_search(s0, key).unwrap(), key, removed, writes),
        m0.underfull_borrow_result_at(s0, m0.key_search(s0, key).unwrap(), key, m1, writes),
        m1.at_rest(),
        forall|idx: u64| #[trigger] s1.content(idx) == after_writes(writes, idx, s0.content(idx)),
        borrow_search_prev_ok(m0, s0, key, other),
        other != key,
    ensures
        m1.search_end(s1, other) matches Some(n1) && value_at_bound(n1.entry_seq(), other) == value_at_bound(
            m0.search_end(s0, other).unwrap().entry_seq(),
            other,
        ),
{
    let p = m0.key_search(s0, key).unwrap();
    let len = p.len();
    let ni = p.last();
    let n = m0.node_at(s0, ni).unwrap();
    let es = n.entry_seq();
    let kq = lower_bound_spec(es, key);
    let rest = es.remove(kq);
    let pi = p[len - 2];
    let pn = m0.node_at(s0, pi).unwrap();
    let pe = pn.entry_seq();
    let si = n.prev_link();
    let sib = m0.node_at(s0, si).unwrap();
    let se = sib.entry_seq();
    let nk = se[se.len() - 2].key;
    m0.lemma_search_path_ends(s0, key, 1, 20);
    lemma_search_path_step(m0, s0, key, 1, 20, len - 2);
    assert(p[len - 1] == ni);
    assert(sorted_keys(es));
    assert(sorted_keys(pe)) by {
        assert(p[len - 2] == pi);
    }
    lemma_lower_bound_range(es, key);
    lemma_lower_bound_range(pe, key);
    K::lemma_key_lt_irreflexive(other);
    let d = descend_index(pe, key);
    let w1 = writes.skip(1);
    assert(w1[0] == writes[1] && w1[1] == writes[2]);
    assert(s1.content(ni) == Some(writes[1].data)) by {
        lemma_after_writes_at(writes, ni, s0.content(ni), 1);
    }
    assert(s1.content(si) == Some(writes[2].data)) by {
        lemma_after_writes_at(writes, si, s0.content(si), 2);
    }
    if pi != 1 {
        assert(s1.content(pi) == Some(writes[3].data)) by {
            lemma_after_writes_at(writes, pi, s0.content(pi), 3);
        }
    }
    assert(m1.cache().content(ni) is None);
    assert(m1.cache().content(si) is None);
    assert(m1.cache().content(pi) is None);
    // every other slot reads alike
    assert forall|x: u64| x != pi && x != ni && x != si implies same_search_view(
        #[trigger] m0.node_at(s0, x),
        m1.node_at(s1, x),
    ) by {
        assert(m0.cache().content(x) is None);
        assert(m1.cache().content(x) is None);
        if x != 1 {
            assert forall|k: int| 0 <= k < writes.len() implies #[trigger] writes[k].slot_index != x by {
                if k == 1 {
                    assert(writes[1] == w1[0]);
                } else if k == 2 {
                    assert(writes[2] == w1[1]);
                }
            }
            lemma_after_writes_untouched(writes, x, s0.content(x));
        }
    }
    // the leaf, the neighbour and the parent after the borrow
    let les = m1.node_at(s1, ni).unwrap().entry_seq();
    let ses = m1.node_at(s1, si).unwrap().entry_seq();
    assert(les == seq![se.last()] + rest);
    assert(ses == se.drop_last());
    assert(m1.node_at(s1, ni).unwrap().leaf_flag());
    assert(m1.node_at(s1, si).unwrap().leaf_flag());
    let ok = se.last().key;
    assert(se.last() == se[se.len() - 1]);
    lemma_sorted_index_is_bound(pe, ok, d - 1);
    let npn = m1.node_at(s1, pi).unwrap();
    let npe = npn.entry_seq();
    assert(node_view(npn) == renamed_at(pn, d - 1, nk)) by {
        if pi == 1 {
            assert(npn == m1.root_node());
        }
    }
    assert(npe == pe.update(d - 1, Entry { key: nk, value: pe[d - 1].value }));
    assert(nk.key_lt(pe[d - 1].key)) by {
        assert(se[se.len() - 2].key.key_lt(se[se.len() - 1].key));
    }
    assert(d < 2 || pe[d - 2].key.key_lt(nk)) by {
        if d >= 2 && se.len() - 2 > 0 {
            assert(se[0].key.key_lt(se[se.len() - 2].key));
            K::lemma_key_lt_transitive(pe[d - 2].key, se[0].key, nk);
        }
    }
    lemma_borrow_prev_parent_descend(pe, d, nk, other);
    lemma_remove_then_absent(es, key);
    assert(rest == remove_entries(es, key));
    lemma_remove_keeps_other_entry(es, key, other);
    // the leaf's keys all lie above the neighbour's
    assert(rest.len() == 0 || ok.key_lt(rest[0].key)) by {
        if rest.len() > 0 {
            if kq == 0 {
                assert(rest[0] == es[1]);
                assert(es[0].key.key_lt(es[1].key));
                K::lemma_key_lt_transitive(ok, es[0].key, es[1].key);
            } else {
                assert(rest[0] == es[0]);
            }
        }
    }
    assert(sorted_keys(rest)) by {
        lemma_remove_then_absent(es, key);
    }
    // the search for the other key in the old tree
    let q = m0.key_search(s0, other).unwrap();
    m0.lemma_search_path_ends(s0, other, 1, 20);
    lemma_search_path_last_stops(m0, s0, other, 1, 20);
    assert(q.last() != pi) by {
        if q.last() == pi {
            lemma_lower_bound_range(pe, other);
            assert(pe[descend_index(pe, other)].value is Inner);
        }
    }
    if q.contains(pi) {
        let i = choose|i: int| 0 <= i < q.len() && q[i] == pi;
        assert(i < q.len() - 1) by {
            assert(q[q.len() - 1] == q.last());
        }
        lemma_search_path_step(m0, s0, other, 1, 20, i);
        let c = q[i + 1];
        let dold = descend_index(pe, other);
        let dn = descend_index(npe, other);
        if c != ni && c != si {
            assert(dold != d && dold != d - 1);
            assert(dn == dold);
            assert(npe[dn] == pe[dold]);
            assert forall|k: int| 0 <= k < q.len() && #[trigger] q[k] != pi implies same_search_view(
                m0.node_at(s0, q[k]),
                m1.node_at(s1, q[k]),
            ) by {
                if q[k] == ni || q[k] == si {
                    assert(k > 0) by {
                        if k == 0 {
                            assert(q[0] == 1);
                        }
                    }
                    assert(q[k - 1] == pi);
                    assert(k - 1 == i);
                }
            }
            lemma_search_same_except(m0, s0, m1, s1, other, 1, 20, pi);
            let e = q.last();
            assert(same_search_view(m0.node_at(s0, e), m1.node_at(s1, e))) by {
                assert(q[q.len() - 1] == e);
                if e == ni || e == si {
                    assert(q[q.len() - 2] == pi);
                    assert(q.len() - 2 == i);
                }
            }
        } else {
            // the search ends at the leaf or the neighbour, right under the parent
            assert(q.last() == c) by {
                if i + 1 < q.len() - 1 {
                    lemma_search_path_step(m0, s0, other, 1, 20, i + 1);
                }
                assert(q[q.len() - 1] == q.last());
            }
            assert(q[q.len() - 2] == pi);
            let avoid = if c == ni {
                si
            } else {
                ni
            };
            assert(!q.contains(avoid)) by {
                if q.contains(avoid) {
                    let k = choose|k: int| 0 <= k < q.len() && q[k] == avoid;
                    assert(k > 0) by {
                        if k == 0 {
                            assert(q[0] == 1);
                        }
                    }
                    assert(q[k - 1] == pi);
                    assert(k - 1 == i);
                }
            }
            let target = if dn == d {
                ni
            } else {
                si
            };
            lemma_lower_bound_range(pe, other);
            lemma_lower_bound_props(pe, other);
            if c == ni {
                assert(dold == d);
                assert(dn == d);
            } else {
                assert(dold == d - 1);
            }
            assert(points_to(npe[dn].value, target));
            lemma_search_reroute(m0, s0, m1, s1, other, 1, 20, pi, c, target, avoid);
            assert(q.drop_last().push(target).last() == target);
            if c == ni {
                // stays in the leaf, above the borrowed key
                assert(ok.key_lt(other));
                lemma_value_prepend(rest, se.last(), other);
                K::lemma_key_lt_irreflexive(ok);
            } else {
                lemma_lower_bound_props(se, other);
                lemma_lower_bound_range(se, other);
                if dn == d {
                    // moves from the neighbour to the leaf
                    assert(nk.key_lt(other));
                    lemma_value_prepend(rest, se.last(), other);
                    if other != ok {
                        assert(other.key_lt(ok)) by {
                            K::lemma_key_lt_total(other, ok);
                        }
                        assert forall|j: int| 0 <= j < se.len() - 1 implies #[trigger] se[j].key.key_lt(other) by {
                            if j < se.len() - 2 {
                                assert(se[j].key.key_lt(se[se.len() - 2].key));
                                K::lemma_key_lt_transitive(se[j].key, nk, other);
                            }
                        }
                        lemma_lower_bound_char(se, other, se.len() - 1);
                        if rest.len() > 0 {
                            K::lemma_key_lt_transitive(other, ok, rest[0].key);
                            if rest[0].key.key_lt(other) {
                                K::lemma_key_lt_transitive(other, rest[0].key, other);
                            }
                        }
                        lemma_lower_bound_char(rest, other, 0);
                    } else {
                        assert forall|j: int| 0 <= j < se.len() - 1 implies #[trigger] se[j].key.key_lt(other) by {
                            assert(se[j].key.key_lt(se[se.len() - 1].key));
                        }
                        lemma_lower_bound_char(se, other, se.len() - 1);
                    }
                } else {
                    // stays in the neighbour
                    assert(!nk.key_lt(other));
                    assert(other != ok) by {
                        if other == ok {
                            assert(nk.key_lt(ok));
                        }
                    }
                    lemma_value_drop_last(se, other);
                }
            }
        }
    } else {
        assert forall|k: int| 0 <= k < q.len() && #[trigger] q[k] != pi implies same_search_view(
            m0.node_at(s0, q[k]),
            m1.node_at(s1, q[k]),
        ) by {
            if q[k] == ni || q[k] == si {
                if k == 0 {
                    assert(q[0] == 1);
                } else {
                    assert(q[k - 1] == pi);
                }
            }
        }
        lemma_search_same_except(m0, s0, m1, s1, other, 1, 20, pi);
        let e = q.last();
        assert(same_search_view(m0.node_at(s0, e), m1.node_at(s1, e))) by {
            assert(q[q.len() - 1] == e);
            if e == ni || e == si {
                if q.len() == 1 {
                    assert(q[0] == 1);
                } else {
                    assert(q[q.len() - 2] == pi);
                }
            }
        }
    }
}

/// Whether the search for every key but `key` is as a borrow from the
/// previous neighbour relies on.
pub open spec fn all_borrow_prev_searches_ok<K: TreeKey, V>(m0: BigOrderedMap<K, V>, s0: SlotStore<K, V>, key: K) -> bool {
    forall|o: K| o != key ==> #[trigger] borrow_search_prev_ok(m0, s0, key, o)
}

/// Removing a key from a leaf that then borrows from its previous neighbour,
/// once the writes are stored: the map no longer holds the key, and every
/// other key as before, where the tree is shaped as the borrow relies on.
pub proof fn lemma_borrow_prev_remove_view<K: TreeKey, V>(
    m0: BigOrderedMap<K, V>,
    s0: SlotStore<K, V>,
    key: K,
    removed: Option<V>,
    m1: BigOrderedMap<K, V>,
    writes: Seq<TableWrite<K, V>>,
    s1: SlotStore<K, V>,
)
    requires
        m0.at_rest(),
        m0.key_search(s0, key) is Some,
        m0.underfull_borrow_at(s0, m0.key_search(s0, key).unwrap(), key),
        borrow_valid(m0, s0, key),
        borrow_prev_ok(m0, s0, key),
        m0.underfull_remove_result_at(s0, m0.key_search(s0, key).unwrap(), key, removed, writes),
        m0.underfull_borrow_result_at(s0, m0.key_search(s0, key).unwrap(), key, m1, writes),
        m1.at_rest(),
        forall|idx: u64| #[trigger] s1.content(idx) == after_writes(writes, idx, s0.content(idx)),
        all_borrow_prev_searches_ok(m0, s0, key),
    ensures
        m1.map_view(s1) == m0.map_view(s0).remove(key),
{
    assert forall|k: K| #[trigger] m1.map_view(s1).dom().contains(k) == m0.map_view(s0).remove(
        key,
    ).dom().contains(k) && (m1.map_view(s1).dom().contains(k) ==> m1.map_view(s1)[k] == m0.map_view(
        s0,
    ).remove(key)[k]) by {
        if k == key {
            lemma_borrow_remove_then_get(m0, s0, key, removed, m1, writes, s1);
        } else {
            assert(borrow_search_prev_ok(m0, s0, key, k));
            lemma_borrow_prev_remove_keeps_others(m0, s0, key, removed, m1, writes, s1, k);
            m0.lemma_search_path_ends(s0, k, 1, 20);
        }
    }
    assert(m1.map_view(s1) =~= m0.map_view(s0).remove(key));
}


/// The value of a key in two sorted runs put end to end, the first's keys
/// all below the second's: the first run's for a key not above its
/// largest, else the second's.
proof fn lemma_value_concat<K: TreeKey, V>(a: Seq<Entry<K, Child<V>>>, b: Seq<Entry<K, Child<V>>>, k: K)
    requires
        sorted_keys(a),
        sorted_keys(b),
        a.len() > 0,
        b.len() > 0,
        a.last().key.key_lt(b[0].key),
    ensures
        !a.last().key.key_lt(k) ==> value_at_bound(a + b, k) == value_at_bound(a, k),
        a.last().key.key_lt(k) ==> value_at_bound(a + b, k) == value_at_bound(b, k),
{
    let c = a + b;
    lemma_lower_bound_range(a, k);
    lemma_lower_bound_props(a, k);
    lemma_lower_bound_range(b, k);
    lemma_lower_bound_props(b, k);
    if !a.last().key.key_lt(k) {
        let p = lower_bound_spec(a, k);
        if p == a.len() {
            assert(a[a.len() - 1].key.key_lt(k));
        }
        assert forall|j: int| 0 <= j < p implies #[trigger] c[j].key.key_lt(k) by {
            assert(c[j] == a[j]);
        }
        assert(c[p] == a[p]);
        lemma_lower_bound_char(c, k, p);
    } else {
        let pb = lower_bound_spec(b, k);
        assert forall|j: int| 0 <= j < a.len() + pb implies #[trigger] c[j].key.key_lt(k) by {
            if j < a.len() {
                assert(c[j] == a[j]);
                if j < a.len() - 1 {
                    assert(a[j].key.key_lt(a[a.len() - 1].key));
                    K::lemma_key_lt_transitive(a[j].key, a[a.len() - 1].key, k);
                }
            } else {
                assert(c[j] == b[j - a.len()]);
            }
        }
        if a.len() + pb < c.len() {
            assert(c[a.len() + pb] == b[pb]);
        }
        lemma_lower_bound_char(c, k, a.len() + pb);
    }
}

/// The search through a sorted node after its entry at `d` is taken out,
/// where a later entry is left: a key that went to that entry goes to the
/// next one, any other to the same entry as before; whether the key went
/// to an entry after `d` says whether the key at `d` was below it.
proof fn lemma_descend_after_remove<K: TreeKey, C>(rs: Seq<Entry<K, C>>, d: int, k: K)
    requires
        sorted_keys(rs),
        0 <= d,
        d + 1 < rs.len(),
    ensures
        0 <= descend_index(rs, k) < rs.len(),
        0 <= descend_index(rs.remove(d), k) < rs.remove(d).len(),
        rs.remove(d)[descend_index(rs.remove(d), k)] == (if descend_index(rs, k) == d {
            rs[d + 1]
        } else {
            rs[descend_index(rs, k)]
        }),
        descend_index(rs, k) <= d ==> !rs[d].key.key_lt(k),
        descend_index(rs, k) > d ==> rs[d].key.key_lt(k),
{
    let p = lower_bound_spec(rs, k);
    lemma_lower_bound_range(rs, k);
    lemma_lower_bound_props(rs, k);
    let r = rs.remove(d);
    if p <= d {
        assert forall|i: int| 0 <= i < p implies #[trigger] r[i].key.key_lt(k) by {
            assert(r[i] == rs[i]);
        }
        if p < d {
            assert(r[p] == rs[p]);
            if rs[d].key.key_lt(k) {
                assert(rs[p].key.key_lt(rs[d].key));
                K::lemma_key_lt_transitive(rs[p].key, rs[d].key, k);
            }
        } else {
            assert(r[d] == rs[d + 1]);
            if rs[d + 1].key.key_lt(k) {
                assert(rs[d].key.key_lt(rs[d + 1].key));
                K::lemma_key_lt_transitive(rs[d].key, rs[d + 1].key, k);
            }
        }
        lemma_lower_bound_char(r, k, p);
    } else {
        assert forall|i: int| 0 <= i < p - 1 implies #[trigger] r[i].key.key_lt(k) by {
            if i < d {
                assert(r[i] == rs[i]);
            } else {
                assert(r[i] == rs[i + 1]);
            }
        }
        if p - 1 < r.len() {
            assert(r[p - 1] == rs[p]);
        }
        lemma_lower_bound_char(r, k, p - 1);
        assert(rs[d].key.key_lt(k));
        if p == rs.len() {
            assert(r[r.len() - 1] == rs[rs.len() - 1]);
        }
    }
}

/// The shape that a merge of a leaf with its next neighbour under the
/// root relies on: the root's, the leaf's and the neighbour's keys sorted,
/// the leaf's key in the root its largest and the neighbour the root's next
/// child, every key of the leaf below the neighbour's, every child of the
/// root a readable leaf, no other root entry pointing to the leaf or the
/// neighbour, and the neighbours that the merge relinks other slots than
/// each other and the neighbour.
pub open spec fn merge_next_shape<K: TreeKey, V>(m0: BigOrderedMap<K, V>, s0: SlotStore<K, V>, key: K) -> bool {
    let p = m0.key_search(s0, key).unwrap();
    let ni = p.last();
    let n = m0.node_at(s0, ni).unwrap();
    let es = n.entry_seq();
    let si = n.next_link();
    let sib = m0.node_at(s0, si).unwrap();
    let se = sib.entry_seq();
    let np = n.prev_link();
    let sn = sib.next_link();
    let rs = m0.root_entries();
    let d = descend_index(rs, key);
    &&& sorted_keys(rs) && sorted_keys(es) && sorted_keys(se)
    &&& d + 1 < rs.len() && points_to(rs[d + 1].value, si)
    &&& rs[d].key == es.last().key
    &&& es.last().key.key_lt(se[0].key)
    &&& forall|j: int| 0 <= j < rs.len() ==> (#[trigger] rs[j]).value is Inner
    &&& forall|j: int|
        0 <= j < rs.len() ==> m0.node_at(s0, (#[trigger] rs[j]).value->node_index.slot_index) is Some
            && m0.node_at(s0, rs[j].value->node_index.slot_index).unwrap().leaf_flag()
    &&& forall|j: int| 0 <= j < rs.len() && j != d ==> !points_to((#[trigger] rs[j]).value, ni)
    &&& forall|j: int| 0 <= j < rs.len() && j != d + 1 ==> !points_to((#[trigger] rs[j]).value, si)
    &&& sn != 0 && np != 0 ==> sn != np
    &&& np != si && sn != si
}

/// Reading any key after a removal that merged its leaf with the next
/// neighbour under the root, once the writes are stored: the removed key
/// is gone and every other key reads as before.
#[verifier::spinoff_prover]
#[verifier::rlimit(60)]
proof fn lemma_merge_next_remove_key<K: TreeKey, V>(
    m0: BigOrderedMap<K, V>,
    s0: SlotStore<K, V>,
    key: K,
    removed: Option<V>,
    m1: BigOrderedMap<K, V>,
    writes: Seq<TableWrite<K, V>>,
    s1: SlotStore<K, V>,
    k: K,
)
    requires
        m0.at_rest(),
        m1.at_rest(),
        m0.key_search(s0, key) is Some,
        m0.underfull_merge_next_at(s0, m0.key_search(s0, key).unwrap(), key),
        merge_next_shape(m0, s0, key),
        m0.underfull_remove_result_at(s0, m0.key_search(s0, key).unwrap(), key, removed, writes),
        m0.underfull_merge_result_at(s0, m0.key_search(s0, key).unwrap(), key, m1, writes),
        m0.underfull_merge_next_writes_at(s0, m0.key_search(s0, key).unwrap(), key, writes),
        stored_after(s0, writes, s1),
    ensures
        m0.search_end(s0, k) is Some,
        m1.search_end(s1, k) is Some,
        value_at_bound(m1.search_end(s1, k).unwrap().entry_seq(), k) == (if k == key {
            None
        } else {
            value_at_bound(m0.search_end(s0, k).unwrap().entry_seq(), k)
        }),
{
    let p = m0.key_search(s0, key).unwrap();
    let ni = p.last();
    let n = m0.node_at(s0, ni).unwrap();
    let es = n.entry_seq();
    let q = lower_bound_spec(es, key);
    let les = es.remove(q);
    let si = n.next_link();
    let sib = m0.node_at(s0, si).unwrap();
    let se = sib.entry_seq();
    let np = n.prev_link();
    let sn = sib.next_link();
    let rs = m0.root_entries();
    let d = descend_index(rs, key);
    let rest = rs.remove(d);
    let kk: int = (if sn != 0 {
        1int
    } else {
        0int
    }) + (if np != 0 {
        1int
    } else {
        0int
    });
    let mw = writes.skip(1);
    reveal_with_fuel(BigOrderedMap::search_path, 3);
    lemma_lower_bound_range(rs, key);
    // The search for the removed key goes from the root straight to its leaf.
    assert(p.len() == 2 && p[0] == 1);
    assert(points_to(rs[d].value, ni));
    // The merge takes out the root entry at `d`.
    lemma_lower_bound_range(es, key);
    assert(les.last() == es.last());
    assert forall|j: int| 0 <= j < d implies #[trigger] rs[j].key.key_lt(es.last().key) by {
        assert(rs[j].key.key_lt(rs[d].key));
    }
    K::lemma_key_lt_irreflexive(es.last().key);
    lemma_lower_bound_char(rs, es.last().key, d);
    assert(m1.root_entries() == rest);
    assert(!m1.root_node().leaf_flag());
    // Where the writes leave each slot.
    assert(writes.len() == kk + 2);
    assert forall|j: int| 0 <= j < mw.len() implies #[trigger] mw[j] == writes[j + 1] by {}
    assert(writes[0].slot_index == ni);
    assert(writes[kk + 1] == mw[kk]);
    assert(writes[kk + 1].slot_index == si);
    if sn != 0 {
        assert(writes[1] == mw[0]);
        assert(writes[1].slot_index == sn);
    }
    if np != 0 {
        assert(writes[kk] == mw[kk - 1]);
        assert(writes[kk].slot_index == np);
    }
    assert forall|i: int| 0 <= i < writes.len() implies #[trigger] writes[i].slot_index == ni || (sn != 0
        && writes[i].slot_index == sn) || (np != 0 && writes[i].slot_index == np) || writes[i].slot_index == si by {
        if i == 0 {
        } else if i == kk + 1 {
        } else if sn != 0 && i == 1 {
        } else {
            assert(np != 0 && i == kk);
        }
    }
    assert(s1.content(si) == Some(writes[kk + 1].data)) by {
        lemma_after_writes_at(writes, si, s0.content(si), kk + 1);
    }
    // The per-key argument.
    lemma_descend_after_remove(rs, d, k);
    let j = descend_index(rs, k);
    let c = rs[j].value->node_index.slot_index;
    let j2 = descend_index(rest, k);
    let c2 = rest[j2].value->node_index.slot_index;
    assert(m0.node_at(s0, c) is Some);
    assert(m0.key_search(s0, k) == Some(seq![1u64, c]));
    assert(les.len() > 0 && sorted_keys(les)) by {
        lemma_remove_then_absent(es, key);
    }
    if j == d {
        assert(c == ni);
        assert(c2 == si);
        assert(m1.node_at(s1, si) matches Some(x) && x.leaf_flag() && x.entry_seq() == les + se);
        assert(m1.key_search(s1, k) == Some(seq![1u64, si]));
        lemma_value_concat(les, se, k);
        assert(value_at_bound(les + se, k) == value_at_bound(les, k));
        assert(m0.search_end(s0, k) == Some(n));
        assert(remove_entries(es, key) == les);
        if k == key {
            lemma_remove_then_absent(es, key);
            assert(value_at_bound(les, k) is None);
        } else {
            lemma_remove_keeps_other_entry(es, key, k);
            assert(value_at_bound(les, k) == value_at_bound(es, k));
        }
        assert(m1.search_end(s1, k) == m1.node_at(s1, si));
    } else {
        assert(c != ni);
        assert(c2 == c);
        if c == si {
            assert(m1.node_at(s1, si) matches Some(x) && x.leaf_flag() && x.entry_seq() == les + se);
            assert(m1.key_search(s1, k) == Some(seq![1u64, si]));
            assert(j == d + 1);
            lemma_value_concat(les, se, k);
            assert(value_at_bound(les + se, k) == value_at_bound(se, k));
            assert(m0.search_end(s0, k) == Some(sib));
        } else {
            assert(m1.node_at(s1, c) is Some && m1.node_at(s1, c).unwrap().leaf_flag()
                && m1.node_at(s1, c).unwrap().entry_seq() == m0.node_at(s0, c).unwrap().entry_seq()) by {
                if np != 0 && c == np {
                    assert(s1.content(np) == Some(writes[kk].data)) by {
                        lemma_after_writes_at(writes, np, s0.content(np), kk);
                    }
                } else if sn != 0 && c == sn {
                    assert(s1.content(sn) == Some(writes[1].data)) by {
                        lemma_after_writes_at(writes, sn, s0.content(sn), 1);
                    }
                } else {
                    assert(s1.content(c) == s0.content(c)) by {
                        lemma_after_writes_untouched(writes, c, s0.content(c));
                    }
                }
            }
            assert(m1.key_search(s1, k) == Some(seq![1u64, c]));
        }
        assert(k != key);
    }
}

/// A removal that merges its leaf with the next neighbour under the root
/// takes out exactly its key, once the writes are stored, where the tree is
/// shaped as the merge relies on.
pub proof fn lemma_merge_next_remove_view<K: TreeKey, V>(
    m0: BigOrderedMap<K, V>,
    s0: SlotStore<K, V>,
    key: K,
    removed: Option<V>,
    m1: BigOrderedMap<K, V>,
    writes: Seq<TableWrite<K, V>>,
    s1: SlotStore<K, V>,
)
    requires
        m0.at_rest(),
        m1.at_rest(),
        m0.key_search(s0, key) is Some,
        m0.underfull_merge_next_at(s0, m0.key_search(s0, key).unwrap(), key),
        merge_next_shape(m0, s0, key),
        m0.underfull_remove_result_at(s0, m0.key_search(s0, key).unwrap(), key, removed, writes),
        m0.underfull_merge_result_at(s0, m0.key_search(s0, key).unwrap(), key, m1, writes),
        m0.underfull_merge_next_writes_at(s0, m0.key_search(s0, key).unwrap(), key, writes),
        stored_after(s0, writes, s1),
    ensures
        m1.map_view(s1) == m0.map_view(s0).remove(key),
{
    assert forall|k: K| #[trigger] m1.map_view(s1).dom().contains(k) == m0.map_view(s0).remove(
        key,
    ).dom().contains(k) && (m1.map_view(s1).dom().contains(k) ==> m1.map_view(s1)[k] == m0.map_view(
        s0,
    ).remove(key)[k]) by {
        lemma_merge_next_remove_key(m0, s0, key, removed, m1, writes, s1, k);
    }
    assert(m1.map_view(s1) =~= m0.map_view(s0).remove(key));
}


/// The shape that a merge of a leaf, the root's last child, with its
/// previous neighbour relies on: the root's, the leaf's and the
/// neighbour's keys sorted, the neighbour the root's child just before the
/// leaf with the neighbour's largest key as its key, every key of the
/// neighbour below the leaf's, every child of the root a readable leaf, no
/// other root entry pointing to the leaf or the neighbour, and the
/// neighbour's previous node, which the merge relinks, another slot than
/// the neighbour.
pub open spec fn merge_prev_shape<K: TreeKey, V>(m0: BigOrderedMap<K, V>, s0: SlotStore<K, V>, key: K) -> bool {
    let p = m0.key_search(s0, key).unwrap();
    let ni = p.last();
    let n = m0.node_at(s0, ni).unwrap();
    let es = n.entry_seq();
    let si = n.prev_link();
    let sib = m0.node_at(s0, si).unwrap();
    let se = sib.entry_seq();
    let sp = sib.prev_link();
    let rs = m0.root_entries();
    let d = descend_index(rs, key);
    &&& sorted_keys(rs) && sorted_keys(es) && sorted_keys(se)
    &&& d >= 1 && points_to(rs[d - 1].value, si)
    &&& rs[d - 1].key == se.last().key
    &&& se.last().key.key_lt(es[0].key)
    &&& forall|j: int| 0 <= j < rs.len() ==> (#[trigger] rs[j]).value is Inner
    &&& forall|j: int|
        0 <= j < rs.len() ==> m0.node_at(s0, (#[trigger] rs[j]).value->node_index.slot_index) is Some
            && m0.node_at(s0, rs[j].value->node_index.slot_index).unwrap().leaf_flag()
    &&& forall|j: int| 0 <= j < rs.len() && j != d ==> !points_to((#[trigger] rs[j]).value, ni)
    &&& forall|j: int| 0 <= j < rs.len() && j != d - 1 ==> !points_to((#[trigger] rs[j]).value, si)
    &&& sp != si
}

/// Reading any key after a removal that merged its leaf with the previous
/// neighbour under the root, once the writes are stored: the removed key
/// is gone and every other key reads as before.
#[verifier::spinoff_prover]
#[verifier::rlimit(60)]
proof fn lemma_merge_prev_remove_key<K: TreeKey, V>(
    m0: BigOrderedMap<K, V>,
    s0: SlotStore<K, V>,
    key: K,
    removed: Option<V>,
    m1: BigOrderedMap<K, V>,
    writes: Seq<TableWrite<K, V>>,
    s1: SlotStore<K, V>,
    k: K,
)
    requires
        m0.at_rest(),
        m1.at_rest(),
        m0.key_search(s0, key) is Some,
        m0.underfull_merge_prev_at(s0, m0.key_search(s0, key).unwrap(), key),
        merge_prev_shape(m0, s0, key),
        m0.underfull_remove_result_at(s0, m0.key_search(s0, key).unwrap(), key, removed, writes),
        m0.underfull_merge_result_at(s0, m0.key_search(s0, key).unwrap(), key, m1, writes),
        m0.underfull_merge_prev_writes_at(s0, m0.key_search(s0, key).unwrap(), key, writes),
        stored_after(s0, writes, s1),
    ensures
        m0.search_end(s0, k) is Some,
        m1.search_end(s1, k) is Some,
        value_at_bound(m1.search_end(s1, k).unwrap().entry_seq(), k) == (if k == key {
            None
        } else {
            value_at_bound(m0.search_end(s0, k).unwrap().entry_seq(), k)
        }),
{
    let p = m0.key_search(s0, key).unwrap();
    let ni = p.last();
    let n = m0.node_at(s0, ni).unwrap();
    let es = n.entry_seq();
    let q = lower_bound_spec(es, key);
    let les = es.remove(q);
    let si = n.prev_link();
    let sib = m0.node_at(s0, si).unwrap();
    let se = sib.entry_seq();
    let sp = sib.prev_link();
    let rs = m0.root_entries();
    let d = descend_index(rs, key);
    let rest = rs.remove(d - 1);
    let kk: int = if sp != 0 {
        1int
    } else {
        0int
    };
    let mw = writes.skip(1);
    reveal_with_fuel(BigOrderedMap::search_path, 3);
    lemma_lower_bound_range(rs, key);
    lemma_lower_bound_range(es, key);
    assert(p.len() == 2 && p[0] == 1);
    assert(points_to(rs[d].value, ni));
    // The merge takes out the neighbour's root entry, just before the leaf's.
    assert forall|j: int| 0 <= j < d - 1 implies #[trigger] rs[j].key.key_lt(se.last().key) by {
        assert(rs[j].key.key_lt(rs[d - 1].key));
    }
    K::lemma_key_lt_irreflexive(se.last().key);
    lemma_lower_bound_char(rs, se.last().key, d - 1);
    assert(m1.root_entries() == rest);
    assert(!m1.root_node().leaf_flag());
    assert(les.len() > 0 && sorted_keys(les)) by {
        lemma_remove_then_absent(es, key);
    }
    assert(se.last().key.key_lt(les[0].key)) by {
        if q == 0 {
            assert(les[0] == es[1]);
            assert(es[0].key.key_lt(es[1].key));
            K::lemma_key_lt_transitive(se.last().key, es[0].key, es[1].key);
        } else {
            assert(les[0] == es[0]);
        }
    }
    // Where the writes leave each slot.
    assert(writes.len() == kk + 2);
    assert forall|j: int| 0 <= j < mw.len() implies #[trigger] mw[j] == writes[j + 1] by {}
    assert(writes[0].slot_index == ni);
    assert(writes[kk + 1] == mw[kk]);
    assert(writes[kk + 1].slot_index == ni);
    if sp != 0 {
        assert(writes[1] == mw[0]);
        assert(writes[1].slot_index == sp);
    }
    assert forall|i: int| 0 <= i < writes.len() implies #[trigger] writes[i].slot_index == ni || (sp != 0
        && writes[i].slot_index == sp) by {
        if i == 0 {
        } else if i == kk + 1 {
        } else {
            assert(sp != 0 && i == 1);
        }
    }
    assert(s1.content(ni) == Some(writes[kk + 1].data)) by {
        lemma_after_writes_at(writes, ni, s0.content(ni), kk + 1);
    }
    assert(m1.node_at(s1, ni) matches Some(x) && x.leaf_flag() && x.entry_seq() == se + les);
    // The per-key argument.
    lemma_descend_after_remove(rs, d - 1, k);
    let j = descend_index(rs, k);
    let c = rs[j].value->node_index.slot_index;
    let j2 = descend_index(rest, k);
    let c2 = rest[j2].value->node_index.slot_index;
    assert(m0.node_at(s0, c) is Some);
    assert(m0.key_search(s0, k) == Some(seq![1u64, c]));
    lemma_value_concat(se, les, k);
    if j == d - 1 {
        assert(c == si);
        assert(c2 == ni);
        assert(m1.key_search(s1, k) == Some(seq![1u64, ni]));
        assert(value_at_bound(se + les, k) == value_at_bound(se, k));
        assert(m0.search_end(s0, k) == Some(sib));
        assert(k != key);
    } else if c == ni {
        assert(j == d);
        assert(c2 == ni);
        assert(m1.key_search(s1, k) == Some(seq![1u64, ni]));
        assert(value_at_bound(se + les, k) == value_at_bound(les, k));
        assert(m0.search_end(s0, k) == Some(n));
        assert(remove_entries(es, key) == les);
        if k == key {
            lemma_remove_then_absent(es, key);
            assert(value_at_bound(les, k) is None);
        } else {
            lemma_remove_keeps_other_entry(es, key, k);
            assert(value_at_bound(les, k) == value_at_bound(es, k));
        }
    } else {
        assert(c != si);
        assert(c2 == c);
        assert(m1.node_at(s1, c) is Some && m1.node_at(s1, c).unwrap().leaf_flag() && m1.node_at(
            s1,
            c,
        ).unwrap().entry_seq() == m0.node_at(s0, c).unwrap().entry_seq()) by {
            if sp != 0 && c == sp {
                assert(s1.content(sp) == Some(writes[1].data)) by {
                    lemma_after_writes_at(writes, sp, s0.content(sp), 1);
                }
            } else {
                assert(s1.content(c) == s0.content(c)) by {
                    lemma_after_writes_untouched(writes, c, s0.content(c));
                }
            }
        }
        assert(m1.key_search(s1, k) == Some(seq![1u64, c]));
        assert(k != key);
    }
}

/// A removal that merges its leaf, the root's last child, with the
/// previous neighbour takes out exactly its key, once the writes are
/// stored, where the tree is shaped as the merge relies on.
pub proof fn lemma_merge_prev_remove_view<K: TreeKey, V>(
    m0: BigOrderedMap<K, V>,
    s0: SlotStore<K, V>,
    key: K,
    removed: Option<V>,
    m1: BigOrderedMap<K, V>,
    writes: Seq<TableWrite<K, V>>,
    s1: SlotStore<K, V>,
)
    requires
        m0.at_rest(),
        m1.at_rest(),
        m0.key_search(s0, key) is Some,
        m0.underfull_merge_prev_at(s0, m0.key_search(s0, key).unwrap(), key),
        merge_prev_shape(m0, s0, key),
        m0.underfull_remove_result_at(s0, m0.key_search(s0, key).unwrap(), key, removed, writes),
        m0.underfull_merge_result_at(s0, m0.key_search(s0, key).unwrap(), key, m1, writes),
        m0.underfull_merge_prev_writes_at(s0, m0.key_search(s0, key).unwrap(), key, writes),
        stored_after(s0, writes, s1),
    ensures
        m1.map_view(s1) == m0.map_view(s0).remove(key),
{
    assert forall|k: K| #[trigger] m1.map_view(s1).dom().contains(k) == m0.map_view(s0).remove(
        key,
    ).dom().contains(k) && (m1.map_view(s1).dom().contains(k) ==> m1.map_view(s1)[k] == m0.map_view(
        s0,
    ).remove(key)[k]) by {
        lemma_merge_prev_remove_key(m0, s0, key, removed, m1, writes, s1, k);
    }
    assert(m1.map_view(s1) =~= m0.map_view(s0).remove(key));
}


/// A tree of a root over leaves, ordered: the root's keys sorted, each of
/// its entries a readable leaf with sorted keys and at least one entry,
/// every key of a leaf not above its key in the root and above the key
/// before, and the smallest leaf the root's first child.
pub open spec fn two_level_ordered<K: TreeKey, V>(m0: BigOrderedMap<K, V>, s0: SlotStore<K, V>) -> bool {
    let rs = m0.root_entries();
    &&& !m0.root_node().leaf_flag() && rs.len() > 0 && sorted_keys(rs)
    &&& forall|j: int| 0 <= j < rs.len() ==> (#[trigger] rs[j]).value is Inner
    &&& forall|j: int|
        0 <= j < rs.len() ==> m0.node_at(s0, (#[trigger] rs[j]).value->node_index.slot_index) is Some
            && m0.node_at(s0, rs[j].value->node_index.slot_index).unwrap().leaf_flag()
            && sorted_keys(m0.node_at(s0, rs[j].value->node_index.slot_index).unwrap().entry_seq())
            && m0.node_at(s0, rs[j].value->node_index.slot_index).unwrap().entry_seq().len() > 0
    &&& forall|j: int, i: int|
        0 <= j < rs.len() && 0 <= i < m0.node_at(s0, rs[j].value->node_index.slot_index).unwrap().entry_seq().len()
            ==> {
            let e = #[trigger] m0.node_at(s0, rs[j].value->node_index.slot_index).unwrap().entry_seq()[i];
            &&& !rs[j].key.key_lt(e.key)
            &&& j > 0 ==> rs[j - 1].key.key_lt(e.key)
        }
    &&& m0.min_leaf() == rs[0].value->node_index.slot_index
}

/// In such a tree the first key of the smallest leaf, the key that popping
/// the front takes, is the least key of the map: no key of the map is
/// below it.
pub proof fn lemma_front_key_is_least<K: TreeKey, V>(m0: BigOrderedMap<K, V>, s0: SlotStore<K, V>, k: K)
    requires
        two_level_ordered(m0, s0),
        m0.map_view(s0).contains_key(k),
    ensures
        m0.node_at(s0, m0.min_leaf()).unwrap().entry_seq().len() > 0,
        !k.key_lt(m0.node_at(s0, m0.min_leaf()).unwrap().entry_seq()[0].key),
{
    reveal_with_fuel(BigOrderedMap::search_path, 3);
    let rs = m0.root_entries();
    lemma_lower_bound_range(rs, k);
    let j = descend_index(rs, k);
    let c = rs[j].value->node_index.slot_index;
    let es = m0.node_at(s0, c).unwrap().entry_seq();
    assert(m0.key_search(s0, k) == Some(seq![1u64, c]));
    assert(m0.search_end(s0, k) == m0.node_at(s0, c));
    let i = lower_bound_spec(es, k);
    lemma_lower_bound_range(es, k);
    assert(has_key_at_bound(es, k));
    assert(es[i].key == k);
    let c0 = rs[0].value->node_index.slot_index;
    let e0 = m0.node_at(s0, c0).unwrap().entry_seq();
    if j == 0 {
        assert(e0.len() > 0);
        if i > 0 {
            assert(e0[0].key.key_lt(e0[i].key));
            if k.key_lt(e0[0].key) {
                K::lemma_key_lt_transitive(k, e0[0].key, k);
                K::lemma_key_lt_irreflexive(k);
            }
        } else {
            K::lemma_key_lt_irreflexive(k);
        }
    } else {
        let g = m0.node_at(s0, c).unwrap().entry_seq()[i];
        assert(rs[j - 1].key.key_lt(g.key));
        if j - 1 > 0 {
            assert(rs[0].key.key_lt(rs[j - 1].key));
            K::lemma_key_lt_transitive(rs[0].key, rs[j - 1].key, k);
        }
        assert(rs[0].key.key_lt(k));
        // the smallest leaf's first key is not above the root's first key
        assert(e0.len() > 0);
        let f = m0.node_at(s0, c0).unwrap().entry_seq()[0];
        assert(!rs[0].key.key_lt(f.key));
        if k.key_lt(f.key) {
            if f.key != rs[0].key {
                K::lemma_key_lt_total(f.key, rs[0].key);
                K::lemma_key_lt_transitive(k, f.key, rs[0].key);
            }
            K::lemma_key_lt_transitive(rs[0].key, k, rs[0].key);
            K::lemma_key_lt_irreflexive(rs[0].key);
        }
    }
}

} // verus!
