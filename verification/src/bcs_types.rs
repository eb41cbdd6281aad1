//! Records of the on-chain state that the library reads and updates: a
//! user's perpetual positions, kept in a [`BigOrderedMap`] keyed by market,
//! the trading fee tiers and the volume history.
use vstd::prelude::*;
use crate::addr_map::addr_eq;
use crate::big_ordered_map::{
    back_pair, front_pair, has_key_at_bound, lower_bound, lower_bound_spec, value_at_bound, BigOrderedMap, Child, Entry,
    KeyOrder, Link, Node, OrderedMap, SlotStore, StorageSlotsAllocator, TableWrite, TreeError, TreeKey, upsert_entries, stored_after,
};
use crate::market_types::MarketConfig;
use crate::moving_average::{DeviationMovingAverage, MovingAverage};
use crate::order_book_types::{
    AccountClientOrderId, DecreasingIdx, IncreasingIdx, OrderId, OrderType, TimeInForce, TriggerCondition,
};
use crate::perp_engine_types::OrderMetadata;

verus! {

/// A position of a user in one market.
#[derive(Clone, Copy, Debug)]
pub enum OnChainPerpPosition {
    V1 {
        size: u64,
        entry_px_times_size_sum: u128,
        avg_acquire_entry_px: u64,
        user_leverage: u8,
        is_long: bool,
        is_isolated: bool,
        funding_index_at_last_update: i128,
        unrealized_funding_amount_before_last_update: i64,
        timestamp: u64,
    },
}

impl OnChainPerpPosition {
    /// The size of the position.
    pub fn get_size(&self) -> (r: u64)
        ensures
            r == self->size,
    {
        match self {
            OnChainPerpPosition::V1 { size, .. } => *size,
        }
    }
}

/// The positions of a user, keyed by market address.
pub enum OnChainUserPositions {
    V1 { positions: BigOrderedMap<[u8; 32], OnChainPerpPosition> },
}

/// The position that a fill leaves in a market: the current one with the
/// fill applied, where that overflows nothing, or a fresh one where there
/// is none; nothing where the fill would overflow.
pub open spec fn fill_position_for(
    cur: Option<OnChainPerpPosition>,
    fill_size: u64,
    fill_price: u64,
    is_buy: bool,
) -> Option<OnChainPerpPosition> {
    match cur {
        Some(p) => if fill_fits(p, fill_size, fill_price, is_buy) {
            Some(apply_fill(p, fill_size, fill_price, is_buy))
        } else {
            None
        },
        None => Some(new_fill_position(fill_size, fill_price, is_buy)),
    }
}

/// Whether a fill can be applied to `p` without an overflow.
pub open spec fn fill_fits(p: OnChainPerpPosition, fill_size: u64, fill_price: u64, is_buy: bool) -> bool {
    if p->size == 0 {
        true
    } else if p->is_long == is_buy {
        fill_price * fill_size + p->entry_px_times_size_sum <= u128::MAX && p->size + fill_size
            <= u64::MAX
    } else if p->size >= fill_size {
        p->entry_px_times_size_sum * (p->size - fill_size) <= u128::MAX
    } else {
        true
    }
}

/// `p` after a fill: an empty position opens in the fill's direction; a
/// fill the same way adds to the size and to the price-size sum, and the
/// average entry price is that sum over the size; a smaller fill the other
/// way shrinks the position and its sum in proportion; a larger one flips
/// the position to the rest, at the fill price. Leverage, isolation,
/// funding and time stay.
pub open spec fn apply_fill(p: OnChainPerpPosition, fill_size: u64, fill_price: u64, is_buy: bool) -> OnChainPerpPosition {
    match p {
        OnChainPerpPosition::V1 {
            size,
            entry_px_times_size_sum,
            avg_acquire_entry_px,
            user_leverage,
            is_long,
            is_isolated,
            funding_index_at_last_update,
            unrealized_funding_amount_before_last_update,
            timestamp,
        } => if size == 0 {
            OnChainPerpPosition::V1 {
                size: fill_size,
                entry_px_times_size_sum: (fill_price * fill_size) as u128,
                avg_acquire_entry_px: fill_price,
                user_leverage,
                is_long: is_buy,
                is_isolated,
                funding_index_at_last_update,
                unrealized_funding_amount_before_last_update,
                timestamp,
            }
        } else if is_long == is_buy {
            let new_eps = fill_price * fill_size + entry_px_times_size_sum;
            let new_size = size + fill_size;
            OnChainPerpPosition::V1 {
                size: new_size as u64,
                entry_px_times_size_sum: new_eps as u128,
                avg_acquire_entry_px: (new_eps / new_size) as u64,
                user_leverage,
                is_long,
                is_isolated,
                funding_index_at_last_update,
                unrealized_funding_amount_before_last_update,
                timestamp,
            }
        } else if size >= fill_size {
            let new_size = size - fill_size;
            let new_eps = entry_px_times_size_sum * new_size / (size as int);
            OnChainPerpPosition::V1 {
                size: new_size as u64,
                entry_px_times_size_sum: new_eps as u128,
                avg_acquire_entry_px: if new_size > 0 {
                    (new_eps / new_size) as u64
                } else {
                    0
                },
                user_leverage,
                is_long,
                is_isolated,
                funding_index_at_last_update,
                unrealized_funding_amount_before_last_update,
                timestamp,
            }
        } else {
            let new_size = fill_size - size;
            OnChainPerpPosition::V1 {
                size: new_size as u64,
                entry_px_times_size_sum: (fill_price * new_size) as u128,
                avg_acquire_entry_px: fill_price,
                user_leverage,
                is_long: is_buy,
                is_isolated,
                funding_index_at_last_update,
                unrealized_funding_amount_before_last_update,
                timestamp,
            }
        },
    }
}

/// The position that a first fill in a market opens: leverage 20, cross
/// margin, no funding, no time.
pub open spec fn new_fill_position(fill_size: u64, fill_price: u64, is_buy: bool) -> OnChainPerpPosition {
    OnChainPerpPosition::V1 {
        size: fill_size,
        entry_px_times_size_sum: (fill_price * fill_size) as u128,
        avg_acquire_entry_px: fill_price,
        user_leverage: 20,
        is_long: is_buy,
        is_isolated: false,
        funding_index_at_last_update: 0,
        unrealized_funding_amount_before_last_update: 0,
        timestamp: 0,
    }
}

/// The position of the first entry of `market` in `s` that holds one.
pub open spec fn first_position_of(s: Seq<Entry<[u8; 32], Child<OnChainPerpPosition>>>, market: [u8; 32]) -> Option<
    OnChainPerpPosition,
>
    decreases s.len(),
{
    if s.len() == 0 {
        None
    } else if s[0].key == market && s[0].value is Leaf {
        Some(s[0].value->value)
    } else {
        first_position_of(s.drop_first(), market)
    }
}

/// The slot of the first child entry of `s` whose key is not below
/// `market`.
pub open spec fn first_child_slot_from(s: Seq<Entry<[u8; 32], Child<OnChainPerpPosition>>>, market: [u8; 32]) -> Option<
    u64,
>
    decreases s.len(),
{
    if s.len() == 0 {
        None
    } else if !s[0].key.key_lt(market) && s[0].value is Inner {
        Some(s[0].value->node_index.slot_index)
    } else {
        first_child_slot_from(s.drop_first(), market)
    }
}

/// What a lookup through the first-level child finds for `market`: the
/// position in the leaf that the first child entry at or above `market`
/// points to, where the map has a table and that slot holds a leaf.
pub open spec fn child_position_of(
    m: BigOrderedMap<[u8; 32], OnChainPerpPosition>,
    market: [u8; 32],
    store: SlotStore<[u8; 32], OnChainPerpPosition>,
) -> Option<OnChainPerpPosition> {
    match first_child_slot_from(m.root_entries(), market) {
        Some(slot) => if m.allocator().table() is Some {
            match store.content(slot) {
                Some(Link::Occupied { value }) => if value.leaf_flag() {
                    first_position_of(value.entry_seq(), market)
                } else {
                    None
                },
                _ => None,
            }
        } else {
            None
        },
        None => None,
    }
}

fn find_position(entries: &Vec<Entry<[u8; 32], Child<OnChainPerpPosition>>>, market: &[u8; 32]) -> (r: Option<
    OnChainPerpPosition,
>)
    ensures
        r == first_position_of(entries@, *market),
{
    let mut i: usize = 0;
    assert(entries@.skip(0) =~= entries@);
    while i < entries.len()
        invariant
            i <= entries@.len(),
            first_position_of(entries@, *market) == first_position_of(entries@.skip(i as int), *market),
        decreases entries@.len() - i,
    {
        assert(entries@.skip(i as int)[0] == entries@[i as int]);
        if addr_eq(&entries[i].key, market) {
            if let Child::Leaf { value } = entries[i].value {
                return Some(value);
            }
        }
        assert(entries@.skip(i as int).drop_first() =~= entries@.skip(i + 1));
        i += 1;
    }
    None
}

fn find_child_slot(entries: &Vec<Entry<[u8; 32], Child<OnChainPerpPosition>>>, market: &[u8; 32]) -> (r: Option<u64>)
    ensures
        r == first_child_slot_from(entries@, *market),
{
    let mut i: usize = 0;
    assert(entries@.skip(0) =~= entries@);
    while i < entries.len()
        invariant
            i <= entries@.len(),
            first_child_slot_from(entries@, *market) == first_child_slot_from(entries@.skip(i as int), *market),
        decreases entries@.len() - i,
    {
        assert(entries@.skip(i as int)[0] == entries@[i as int]);
        let not_below = match entries[i].key.compare_to(market) {
            KeyOrder::Less => false,
            _ => {
                proof {
                    if entries@[i as int].key.key_lt(*market) {
                        <[u8; 32] as TreeKey>::lemma_key_lt_irreflexive(*market);
                        if entries@[i as int].key != *market {
                            <[u8; 32] as TreeKey>::lemma_key_lt_transitive(*market, entries@[i as int].key, *market);
                        }
                    }
                }
                true
            },
        };
        if not_below {
            if let Child::Inner { node_index } = entries[i].value {
                return Some(node_index.slot_index);
            }
        }
        assert(entries@.skip(i as int).drop_first() =~= entries@.skip(i + 1));
        i += 1;
    }
    None
}

/// The product of two `u64` values, which a `u128` always holds.
fn wide_mul(a: u64, b: u64) -> (r: u128)
    ensures
        r == a * b,
{
    proof {
        assert(a * b <= 0xffff_ffff_ffff_ffffu64 * 0xffff_ffff_ffff_ffffu64) by (nonlinear_arith)
            requires
                a <= 0xffff_ffff_ffff_ffffu64,
                b <= 0xffff_ffff_ffff_ffffu64,
        ;
    }
    (a as u128) * (b as u128)
}

/// A fill applied to `p`, or nothing where it would overflow.
fn checked_fill(p: OnChainPerpPosition, fill_size: u64, fill_price: u64, is_buy: bool) -> (r: Option<
    OnChainPerpPosition,
>)
    ensures
        fill_fits(p, fill_size, fill_price, is_buy) ==> r == Some(apply_fill(p, fill_size, fill_price, is_buy)),
        !fill_fits(p, fill_size, fill_price, is_buy) ==> r is None,
{
    match p {
        OnChainPerpPosition::V1 {
            size,
            entry_px_times_size_sum,
            avg_acquire_entry_px,
            user_leverage,
            is_long,
            is_isolated,
            funding_index_at_last_update,
            unrealized_funding_amount_before_last_update,
            timestamp,
        } => {
            let notional = wide_mul(fill_price, fill_size);
            if size == 0 {
                Some(
                    OnChainPerpPosition::V1 {
                        size: fill_size,
                        entry_px_times_size_sum: notional,
                        avg_acquire_entry_px: fill_price,
                        user_leverage,
                        is_long: is_buy,
                        is_isolated,
                        funding_index_at_last_update,
                        unrealized_funding_amount_before_last_update,
                        timestamp,
                    },
                )
            } else if is_long == is_buy {
                if notional > u128::MAX - entry_px_times_size_sum || size > u64::MAX - fill_size {
                    return None;
                }
                let new_eps = notional + entry_px_times_size_sum;
                let new_size = size + fill_size;
                Some(
                    OnChainPerpPosition::V1 {
                        size: new_size,
                        entry_px_times_size_sum: new_eps,
                        avg_acquire_entry_px: #[verifier::truncate] ((new_eps / (new_size as u128)) as u64),
                        user_leverage,
                        is_long,
                        is_isolated,
                        funding_index_at_last_update,
                        unrealized_funding_amount_before_last_update,
                        timestamp,
                    },
                )
            } else if size >= fill_size {
                let new_size = size - fill_size;
                let product = entry_px_times_size_sum.checked_mul(new_size as u128);
                let product = match product {
                    Some(x) => x,
                    None => {
                        return None;
                    },
                };
                let new_eps = product / (size as u128);
                Some(
                    OnChainPerpPosition::V1 {
                        size: new_size,
                        entry_px_times_size_sum: new_eps,
                        avg_acquire_entry_px: if new_size > 0 {
                            #[verifier::truncate] ((new_eps / (new_size as u128)) as u64)
                        } else {
                            0
                        },
                        user_leverage,
                        is_long,
                        is_isolated,
                        funding_index_at_last_update,
                        unrealized_funding_amount_before_last_update,
                        timestamp,
                    },
                )
            } else {
                let new_size = fill_size - size;
                Some(
                    OnChainPerpPosition::V1 {
                        size: new_size,
                        entry_px_times_size_sum: wide_mul(fill_price, new_size),
                        avg_acquire_entry_px: fill_price,
                        user_leverage,
                        is_long: is_buy,
                        is_isolated,
                        funding_index_at_last_update,
                        unrealized_funding_amount_before_last_update,
                        timestamp,
                    },
                )
            }
        },
    }
}

fn fresh_fill_position(fill_size: u64, fill_price: u64, is_buy: bool) -> (r: OnChainPerpPosition)
    ensures
        r == new_fill_position(fill_size, fill_price, is_buy),
{
    OnChainPerpPosition::V1 {
        size: fill_size,
        entry_px_times_size_sum: wide_mul(fill_price, fill_size),
        avg_acquire_entry_px: fill_price,
        user_leverage: 20,
        is_long: is_buy,
        is_isolated: false,
        funding_index_at_last_update: 0,
        unrealized_funding_amount_before_last_update: 0,
        timestamp: 0,
    }
}

impl OnChainUserPositions {
    pub open spec fn positions_map(self) -> BigOrderedMap<[u8; 32], OnChainPerpPosition> {
        match self {
            OnChainUserPositions::V1 { positions } => positions,
        }
    }

    /// Whether the root of the position map is a leaf and, where it is, the
    /// entry that a fill in `market` updates holds a position that the fill
    /// does not overflow.
    pub open spec fn fill_fits_root(self, market: [u8; 32], fill_size: u64, fill_price: u64, is_buy: bool) -> bool {
        let m = self.positions_map();
        let es = m.root_entries();
        let p = lower_bound_spec(es, market);
        m.root_node().leaf_flag() && has_key_at_bound(es, market) && es[p].value is Leaf
            ==> fill_fits(es[p].value->value, fill_size, fill_price, is_buy)
    }

    /// No positions: a leaf root with no entry, degrees 64 and 16, no node
    /// table yet, fresh slots from 10, no reuse, and the root as smallest
    /// and largest leaf.
    pub fn new_empty() -> (r: Self)
        ensures
            r.positions_map().root_node().leaf_flag(),
            r.positions_map().root_entries().len() == 0,
            r.positions_map().inner_degree() == 64,
            r.positions_map().leaf_degree() == 16,
            r.positions_map().allocator().table() is None,
            r.positions_map().allocator().next_fresh() == 10,
            !r.positions_map().allocator().reuses(),
            r.positions_map().min_leaf() == 1,
            r.positions_map().max_leaf() == 1,
    {
        OnChainUserPositions::V1 {
            positions: BigOrderedMap::BPlusTreeMap {
                root: Node::V1 {
                    is_leaf: true,
                    children: OrderedMap::SortedVectorMap { entries: Vec::new() },
                    prev: 0,
                    next: 0,
                },
                nodes: StorageSlotsAllocator::V1 {
                    slots: None,
                    new_slot_index: 10,
                    should_reuse: false,
                    reuse_head_index: 0,
                    reuse_spare_count: 0,
                    _phantom: std::marker::PhantomData,
                },
                min_leaf_index: 1,
                max_leaf_index: 1,
                constant_kv_size: true,
                inner_max_degree: 64,
                leaf_max_degree: 16,
                write_cache: SlotStore::new(),
            },
        }
    }

    /// Whether the root, while it is a leaf, holds a position of non-zero
    /// size in `market`.
    pub fn has_nonzero_position_in_root(&self, market_addr: &[u8; 32]) -> (r: bool)
        ensures
            r == (self.positions_map().root_node().leaf_flag() && (match first_position_of(
                self.positions_map().root_entries(),
                *market_addr,
            ) {
                Some(p) => p->size > 0,
                None => false,
            })),
    {
        match self {
            OnChainUserPositions::V1 { positions } => match positions {
                BigOrderedMap::BPlusTreeMap { root, .. } => match root {
                    Node::V1 { is_leaf, children, .. } => {
                        if !*is_leaf {
                            return false;
                        }
                        match children {
                            OrderedMap::SortedVectorMap { entries } => match find_position(entries, market_addr) {
                                Some(p) => p.get_size() > 0,
                                None => false,
                            },
                        }
                    },
                },
            },
        }
    }

    /// The size and direction of the position in `market` in the root,
    /// while the root is a leaf; a closed position still comes back.
    pub fn get_position_info_in_root(&self, market_addr: &[u8; 32]) -> (r: Option<(u64, bool)>)
        ensures
            r == (if self.positions_map().root_node().leaf_flag() {
                match first_position_of(self.positions_map().root_entries(), *market_addr) {
                    Some(p) => Some((p->size, p->is_long)),
                    None => None,
                }
            } else {
                None
            }),
    {
        match self {
            OnChainUserPositions::V1 { positions } => match positions {
                BigOrderedMap::BPlusTreeMap { root, .. } => match root {
                    Node::V1 { is_leaf, children, .. } => {
                        if !*is_leaf {
                            return None;
                        }
                        match children {
                            OrderedMap::SortedVectorMap { entries } => match find_position(entries, market_addr) {
                                Some(p) => match p {
                                    OnChainPerpPosition::V1 { size, is_long, .. } => Some((size, is_long)),
                                },
                                None => None,
                            },
                        }
                    },
                },
            },
        }
    }

    fn lookup_position(&self, market_addr: &[u8; 32], store: &SlotStore<[u8; 32], OnChainPerpPosition>) -> (r: Option<
        OnChainPerpPosition,
    >)
        ensures
            r == (if self.positions_map().root_node().leaf_flag() {
                first_position_of(self.positions_map().root_entries(), *market_addr)
            } else {
                child_position_of(self.positions_map(), *market_addr, *store)
            }),
    {
        match self {
            OnChainUserPositions::V1 { positions } => match positions {
                BigOrderedMap::BPlusTreeMap { root, nodes, .. } => match root {
                    Node::V1 { is_leaf, children, .. } => match children {
                        OrderedMap::SortedVectorMap { entries } => {
                            if *is_leaf {
                                return find_position(entries, market_addr);
                            }
                            let slot = match find_child_slot(entries, market_addr) {
                                Some(s) => s,
                                None => {
                                    return None;
                                },
                            };
                            let has_table = match nodes {
                                StorageSlotsAllocator::V1 { slots, .. } => slots.is_some(),
                            };
                            if !has_table {
                                return None;
                            }
                            match store.get(slot) {
                                Some(link) => match link {
                                    Link::Occupied { value } => match value {
                                        Node::V1 { is_leaf: child_is_leaf, children: child_children, .. } => {
                                            if !*child_is_leaf {
                                                return None;
                                            }
                                            match child_children {
                                                OrderedMap::SortedVectorMap { entries: child_entries } => find_position(
                                                    child_entries,
                                                    market_addr,
                                                ),
                                            }
                                        },
                                    },
                                    Link::Vacant { .. } => None,
                                },
                                None => None,
                            }
                        },
                    },
                },
            },
        }
    }

    /// The size and direction of the position in `market`: from the root
    /// while it is a leaf, else from the leaf that the first child entry at
    /// or above `market` points to.
    pub fn get_position_info_with_table_lookup(
        &self,
        market_addr: &[u8; 32],
        store: &SlotStore<[u8; 32], OnChainPerpPosition>,
    ) -> (r: Option<(u64, bool)>)
        ensures
            r == (match (if self.positions_map().root_node().leaf_flag() {
                first_position_of(self.positions_map().root_entries(), *market_addr)
            } else {
                child_position_of(self.positions_map(), *market_addr, *store)
            }) {
                Some(p) => Some((p->size, p->is_long)),
                None => None,
            }),
    {
        match self.lookup_position(market_addr, store) {
            Some(p) => match p {
                OnChainPerpPosition::V1 { size, is_long, .. } => Some((size, is_long)),
            },
            None => None,
        }
    }

    /// As [`Self::get_position_info_with_table_lookup`], with whether the
    /// position is isolated.
    pub fn get_position_full_info_with_table_lookup(
        &self,
        market_addr: &[u8; 32],
        store: &SlotStore<[u8; 32], OnChainPerpPosition>,
    ) -> (r: Option<(u64, bool, bool)>)
        ensures
            r == (match (if self.positions_map().root_node().leaf_flag() {
                first_position_of(self.positions_map().root_entries(), *market_addr)
            } else {
                child_position_of(self.positions_map(), *market_addr, *store)
            }) {
                Some(p) => Some((p->size, p->is_long, p->is_isolated)),
                None => None,
            }),
    {
        match self.lookup_position(market_addr, store) {
            Some(p) => match p {
                OnChainPerpPosition::V1 { size, is_long, is_isolated, .. } => Some((size, is_long, is_isolated)),
            },
            None => None,
        }
    }

    /// Applies a fill in `market` to the positions in a leaf root: the
    /// entry of `market` takes the fill, or a new position is put at the
    /// place its key sorts to. Whether the root took it comes back.
    pub fn update_position_for_fill(&mut self, market_addr: &[u8; 32], fill_size: u64, fill_price: u64, is_buy: bool) -> (r:
        bool)
        requires
            old(self).fill_fits_root(*market_addr, fill_size, fill_price, is_buy),
        ensures
            ({
                let m = old(self).positions_map();
                let es = m.root_entries();
                let p = lower_bound_spec(es, *market_addr);
                if !m.root_node().leaf_flag() {
                    !r && final(self).positions_map() == m
                } else if has_key_at_bound(es, *market_addr) {
                    if es[p].value is Leaf {
                        r && final(self).positions_map().root_entries() == es.update(
                            p,
                            Entry {
                                key: es[p].key,
                                value: Child::Leaf {
                                    value: apply_fill(es[p].value->value, fill_size, fill_price, is_buy),
                                },
                            },
                        )
                    } else {
                        !r && final(self).positions_map().root_entries() == es
                    }
                } else {
                    r && final(self).positions_map().root_entries() == es.insert(
                        p,
                        Entry {
                            key: *market_addr,
                            value: Child::Leaf { value: new_fill_position(fill_size, fill_price, is_buy) },
                        },
                    )
                }
            }),
            old(self).positions_map().root_node().leaf_flag() ==> final(self).positions_map().only_root_entries_changed(
                old(self).positions_map(),
            ),
    {
        match self {
            OnChainUserPositions::V1 { positions } => match positions {
                BigOrderedMap::BPlusTreeMap { root, .. } => match root {
                    Node::V1 { is_leaf, children, .. } => {
                        if !*is_leaf {
                            return false;
                        }
                        match children {
                            OrderedMap::SortedVectorMap { entries } => {
                                let pos = lower_bound(entries, market_addr);
                                if pos < entries.len() && addr_eq(&entries[pos].key, market_addr) {
                                    match entries[pos].value {
                                        Child::Leaf { value } => {
                                            let updated = checked_fill(value, fill_size, fill_price, is_buy);
                                            match updated {
                                                Some(u) => {
                                                    let k = entries[pos].key;
                                                    entries.set(pos, Entry { key: k, value: Child::Leaf { value: u } });
                                                    true
                                                },
                                                None => false,
                                            }
                                        },
                                        Child::Inner { .. } => false,
                                    }
                                } else {
                                    entries.insert(
                                        pos,
                                        Entry {
                                            key: *market_addr,
                                            value: Child::Leaf { value: fresh_fill_position(fill_size, fill_price, is_buy) },
                                        },
                                    );
                                    true
                                }
                            },
                        }
                    },
                },
            },
        }
    }

    /// Applies a fill in `market` to the positions: in the root while it is
    /// a leaf, else through the tree, where the position is read, updated
    /// (or opened) and written back. The slot writes come back.
    pub fn update_position_for_fill_tree(
        &mut self,
        market_addr: &[u8; 32],
        fill_size: u64,
        fill_price: u64,
        is_buy: bool,
        store: &SlotStore<[u8; 32], OnChainPerpPosition>,
    ) -> (r: Result<Vec<TableWrite<[u8; 32], OnChainPerpPosition>>, TreeError>)
        requires
            old(self).fill_fits_root(*market_addr, fill_size, fill_price, is_buy),
        ensures
            old(self).positions_map().root_node().leaf_flag() ==> ({
                let es = old(self).positions_map().root_entries();
                let p = lower_bound_spec(es, *market_addr);
                &&& r matches Ok(w) && w@.len() == 0
                &&& final(self).positions_map().only_root_entries_changed(old(self).positions_map())
                &&& final(self).positions_map().root_entries() == if has_key_at_bound(es, *market_addr) {
                    if es[p].value is Leaf {
                        es.update(
                            p,
                            Entry {
                                key: es[p].key,
                                value: Child::Leaf {
                                    value: apply_fill(es[p].value->value, fill_size, fill_price, is_buy),
                                },
                            },
                        )
                    } else {
                        es
                    }
                } else {
                    es.insert(
                        p,
                        Entry {
                            key: *market_addr,
                            value: Child::Leaf { value: new_fill_position(fill_size, fill_price, is_buy) },
                        },
                    )
                }
            }),
            !old(self).positions_map().root_node().leaf_flag() && old(self).positions_map().allocator().table() is None
                ==> r == Err::<Vec<TableWrite<[u8; 32], OnChainPerpPosition>>, TreeError>(TreeError::MalformedTree),
            ({
                let m = old(self).positions_map();
                let cur = value_at_bound(m.search_end(*store, *market_addr).unwrap().entry_seq(), *market_addr);
                let next = fill_position_for(cur, fill_size, fill_price, is_buy);
                let p = m.key_search(*store, *market_addr).unwrap();
                !m.root_node().leaf_flag() && m.allocator().table() is Some && m.at_rest() && m.search_end(
                    *store,
                    *market_addr,
                ) is Some ==> {
                    &&& next is None ==> r == Err::<Vec<TableWrite<[u8; 32], OnChainPerpPosition>>, TreeError>(
                        TreeError::MalformedTree,
                    )
                    &&& next is Some && m.in_place_add(*store, *market_addr) ==> (r matches Ok(w) && m.in_place_add_result(
                        *store,
                        *market_addr,
                        next.unwrap(),
                        final(self).positions_map(),
                        w@,
                    ))
                    &&& next is Some && m.extend_add_at(*store, p, *market_addr) ==> (r matches Ok(w)
                        && m.extend_add_result_at(
                        *store,
                        p,
                        *market_addr,
                        Child::Leaf { value: next.unwrap() },
                        final(self).positions_map(),
                        w@,
                    ))
                    &&& next is Some && m.leaf_split_at(*store, p, *market_addr) ==> (r matches Ok(w)
                        && m.leaf_split_result_at(
                        *store,
                        p,
                        *market_addr,
                        Child::Leaf { value: next.unwrap() },
                        final(self).positions_map(),
                        w@,
                    ))
                    &&& next is Some && m.leaf_split_root_full_at(*store, p, *market_addr) ==> (r matches Ok(w)
                        && m.leaf_split_root_full_result_at(
                        *store,
                        p,
                        *market_addr,
                        Child::Leaf { value: next.unwrap() },
                        final(self).positions_map(),
                        w@,
                    ))
                    &&& next is Some && m.leaf_split_parent_split_at(*store, p, *market_addr) ==> (r matches Ok(w)
                        ==> m.leaf_split_parent_split_result_at(
                        *store,
                        p,
                        *market_addr,
                        Child::Leaf { value: next.unwrap() },
                        final(self).positions_map(),
                        w@,
                    ))
                    &&& next is Some && m.leaf_split_goes_through(*store, p, *market_addr) ==> r is Ok
                    &&& next is Some && m.leaf_split_goes_through(*store, p, *market_addr) && !has_key_at_bound(
                        m.search_end(*store, *market_addr).unwrap().entry_seq(),
                        *market_addr,
                    ) && crate::tree_add_law::deep_add_ok(m, *store, *market_addr) ==> (r matches Ok(w) && forall|
                        s1: SlotStore<[u8; 32], OnChainPerpPosition>,
                    |
                        stored_after(*store, w@, s1) ==> #[trigger] final(self).positions_map().map_view(s1)
                            == m.map_view(*store).insert(*market_addr, next.unwrap()))
                }
            }),
    {
        let root_is_leaf = match self {
            OnChainUserPositions::V1 { positions } => match positions {
                BigOrderedMap::BPlusTreeMap { root, .. } => match root {
                    Node::V1 { is_leaf, .. } => *is_leaf,
                },
            },
        };
        if root_is_leaf {
            self.update_position_for_fill(market_addr, fill_size, fill_price, is_buy);
            return Ok(Vec::new());
        }
        match self {
            OnChainUserPositions::V1 { positions } => {
                if positions.get_table_handle().is_none() {
                    return Err(TreeError::MalformedTree);
                }
                let existing = match positions.tree_get(market_addr, store) {
                    Ok(v) => v,
                    Err(_) => None,
                };
                let new_position = match existing {
                    Some(p) => match checked_fill(p, fill_size, fill_price, is_buy) {
                        Some(u) => u,
                        None => {
                            return Err(TreeError::MalformedTree);
                        },
                    },
                    None => fresh_fill_position(fill_size, fill_price, is_buy),
                };
                positions.tree_add(*market_addr, new_position, store)
            },
        }
    }
}

/// The referral part of the fee configuration.
#[derive(Clone, Copy, Debug)]
pub enum ReferralFeeConfig {
    V1 {
        referral_fee_enabled: bool,
        referral_fee_pct: u64,
        referred_fee_discount_pct: u64,
        discount_eligibility_volume_threshold: u128,
        referrer_eligibility_volume_threshold: u128,
    },
}

/// The fee tiers: volume thresholds, the maker and taker fee of each tier,
/// and the market-maker rebates.
#[derive(Clone, Debug)]
pub enum TradingFeeConfiguration {
    V1 {
        tier_thresholds: Vec<u128>,
        tier_maker_fees: Vec<u64>,
        tier_taker_fees: Vec<u64>,
        market_maker_absolute_threshold: u128,
        market_maker_tier_pct_thresholds: Vec<u64>,
        market_maker_tier_fee_rebates: Vec<u64>,
        builder_max_fee: u64,
        backstop_vault_fee_pct: u64,
        referral_fee_config: ReferralFeeConfig,
    },
}

/// The number of leading thresholds of `t` that `volume` reaches.
pub open spec fn reached_tiers(t: Seq<u128>, volume: u128) -> nat
    decreases t.len(),
{
    if t.len() == 0 || volume < t[0] {
        0
    } else {
        1 + reached_tiers(t.drop_first(), volume)
    }
}

/// The tier that `volume` reaches.
pub open spec fn tier_of(t: Seq<u128>, volume: u128) -> nat {
    reached_tiers(t, volume)
}

impl TradingFeeConfiguration {
    pub open spec fn thresholds(self) -> Seq<u128> {
        match self {
            TradingFeeConfiguration::V1 { tier_thresholds, .. } => tier_thresholds@,
        }
    }

    pub open spec fn maker_fees(self) -> Seq<u64> {
        match self {
            TradingFeeConfiguration::V1 { tier_maker_fees, .. } => tier_maker_fees@,
        }
    }

    /// The maker fee of the tier that `volume` reaches (thresholds are
    /// passed from the first on while the volume reaches them), or 0 past
    /// the last maker fee.
    pub fn get_maker_fee_rate(&self, volume: u128) -> (r: u64)
        ensures
            r == (if tier_of(self.thresholds(), volume) < self.maker_fees().len() {
                self.maker_fees()[tier_of(self.thresholds(), volume) as int]
            } else {
                0
            }),
    {
        match self {
            TradingFeeConfiguration::V1 { tier_thresholds, tier_maker_fees, .. } => {
                let mut tier: usize = 0;
                assert(tier_thresholds@.skip(0) =~= tier_thresholds@);
                while tier < tier_thresholds.len() && volume >= tier_thresholds[tier]
                    invariant
                        tier <= tier_thresholds@.len(),
                        reached_tiers(tier_thresholds@, volume) == tier + reached_tiers(
                            tier_thresholds@.skip(tier as int),
                            volume,
                        ),
                    decreases tier_thresholds@.len() - tier,
                {
                    assert(tier_thresholds@.skip(tier as int)[0] == tier_thresholds@[tier as int]);
                    assert(tier_thresholds@.skip(tier as int).drop_first() =~= tier_thresholds@.skip(tier + 1));
                    tier += 1;
                }
                if tier < tier_thresholds.len() {
                    assert(tier_thresholds@.skip(tier as int)[0] == tier_thresholds@[tier as int]);
                }
                if tier < tier_maker_fees.len() {
                    tier_maker_fees[tier]
                } else {
                    0
                }
            },
        }
    }
}

/// An aggregated `u128` counter and its bound.
#[derive(Clone, Copy, Debug)]
pub struct AggregatorU128 {
    pub value: u128,
    pub max_value: u128,
}

/// The volume of one day.
#[derive(Clone, Copy, Debug)]
pub enum DayVolume {
    V1 { day_since_epoch: u64, volume: u128 },
}

/// The volume of the latest day, the days kept, and the totals.
#[derive(Clone, Debug)]
pub enum VolumeHistory {
    V1 {
        latest_day_since_epoch: u64,
        latest_day_volume: AggregatorU128,
        history: Vec<DayVolume>,
        total_volume_in_window: u128,
        total_volume_all_time: AggregatorU128,
    },
}

impl VolumeHistory {
    /// The total volume of the window.
    pub fn total_volume_in_window(&self) -> (r: u128)
        ensures
            r == self->total_volume_in_window,
    {
        match self {
            VolumeHistory::V1 { total_volume_in_window, .. } => *total_volume_in_window,
        }
    }
}


impl TreeKey for OrderId {
    open spec fn key_lt(self, other: Self) -> bool {
        self.order_id < other.order_id
    }

    proof fn lemma_key_lt_irreflexive(a: Self) {
    }

    proof fn lemma_key_lt_transitive(a: Self, b: Self, c: Self) {
    }

    proof fn lemma_key_lt_total(a: Self, b: Self) {
    }

    fn compare_to(&self, other: &Self) -> (r: KeyOrder) {
        if self.order_id < other.order_id {
            KeyOrder::Less
        } else if self.order_id == other.order_id {
            KeyOrder::Equal
        } else {
            KeyOrder::Greater
        }
    }
}

/// A key of the sell side: lower prices first, then earlier orders.
#[derive(Clone, Copy, Debug)]
pub struct PriceAscTime {
    pub price: u64,
    pub tie_breaker: IncreasingIdx,
}

/// A key of the buy side, ordered by price and then by a tie-breaker that
/// falls as orders come later.
#[derive(Clone, Copy, Debug)]
pub struct PriceDescTime {
    pub price: u64,
    pub tie_breaker: DecreasingIdx,
}

impl TreeKey for PriceAscTime {
    open spec fn key_lt(self, other: Self) -> bool {
        self.price < other.price || (self.price == other.price && self.tie_breaker.idx
            < other.tie_breaker.idx)
    }

    proof fn lemma_key_lt_irreflexive(a: Self) {
    }

    proof fn lemma_key_lt_transitive(a: Self, b: Self, c: Self) {
    }

    proof fn lemma_key_lt_total(a: Self, b: Self) {
    }

    fn compare_to(&self, other: &Self) -> (r: KeyOrder) {
        if self.price < other.price {
            KeyOrder::Less
        } else if self.price > other.price {
            KeyOrder::Greater
        } else if self.tie_breaker.idx < other.tie_breaker.idx {
            KeyOrder::Less
        } else if self.tie_breaker.idx > other.tie_breaker.idx {
            KeyOrder::Greater
        } else {
            KeyOrder::Equal
        }
    }
}

impl TreeKey for PriceDescTime {
    open spec fn key_lt(self, other: Self) -> bool {
        self.price < other.price || (self.price == other.price && self.tie_breaker.idx
            < other.tie_breaker.idx)
    }

    proof fn lemma_key_lt_irreflexive(a: Self) {
    }

    proof fn lemma_key_lt_transitive(a: Self, b: Self, c: Self) {
    }

    proof fn lemma_key_lt_total(a: Self, b: Self) {
    }

    fn compare_to(&self, other: &Self) -> (r: KeyOrder) {
        if self.price < other.price {
            KeyOrder::Less
        } else if self.price > other.price {
            KeyOrder::Greater
        } else if self.tie_breaker.idx < other.tie_breaker.idx {
            KeyOrder::Less
        } else if self.tie_breaker.idx > other.tie_breaker.idx {
            KeyOrder::Greater
        } else {
            KeyOrder::Equal
        }
    }
}

/// What the price-time index holds for a resting order.
#[derive(Clone, Copy, Debug)]
pub struct OrderData {
    pub order_id: OrderId,
    pub order_book_type: OrderType,
    pub size: u64,
}

/// A key of the index of orders that trigger when the price falls.
#[derive(Clone, Copy, Debug)]
pub struct PendingDownOrderKey {
    pub price: u64,
    pub tie_breaker: DecreasingIdx,
}

/// A key of the index of orders that trigger when the price rises.
#[derive(Clone, Copy, Debug)]
pub struct PendingUpOrderKey {
    pub price: u64,
    pub tie_breaker: IncreasingIdx,
}

/// A key of the index of orders that trigger at a time.
#[derive(Clone, Copy, Debug)]
pub struct PendingTimeKey {
    pub time: u64,
    pub tie_breaker: IncreasingIdx,
}

/// The orders that wait for a trigger, indexed three ways.
pub enum PendingOrderBookIndex {
    V1 {
        price_move_down_index: BigOrderedMap<PendingDownOrderKey, OrderId>,
        price_move_up_index: BigOrderedMap<PendingUpOrderKey, OrderId>,
        time_based_index: BigOrderedMap<PendingTimeKey, OrderId>,
    },
}

/// A reference that lets its holder act as an object.
#[derive(Clone, Copy, Debug)]
pub struct ExtendRef {
    pub self_address: [u8; 32],
}

/// What a single order asks for.
#[derive(Clone, Debug)]
pub enum SingleOrderRequest {
    V1 {
        account: [u8; 32],
        order_id: OrderId,
        client_order_id: Option<String>,
        price: u64,
        orig_size: u64,
        remaining_size: u64,
        is_bid: bool,
        trigger_condition: Option<TriggerCondition>,
        time_in_force: TimeInForce,
        creation_time_micros: u64,
        metadata: OrderMetadata,
    },
}

/// A single order and its place in the time priority.
#[derive(Clone, Debug)]
pub enum SingleOrder {
    V1 { order_request: SingleOrderRequest, unique_priority_idx: IncreasingIdx },
}

/// A single order and whether it is active.
#[derive(Clone, Debug)]
pub enum OrderWithState {
    V1 { order: SingleOrder, is_active: bool },
}

/// The single orders by id, the ids by client order id, and the orders
/// that wait for a trigger.
pub enum SingleOrderBook {
    V1 {
        orders: BigOrderedMap<OrderId, OrderWithState>,
        client_order_ids: BigOrderedMap<AccountClientOrderId, OrderId>,
        pending_orders: PendingOrderBookIndex,
    },
}

/// What a bulk order asks for: price levels with sizes on both sides.
#[derive(Clone, Debug)]
pub enum BulkOrderRequest {
    V1 {
        account: [u8; 32],
        order_sequence_number: u64,
        bid_prices: Vec<u64>,
        bid_sizes: Vec<u64>,
        ask_prices: Vec<u64>,
        ask_sizes: Vec<u64>,
        metadata: OrderMetadata,
    },
}

/// A bulk order with its id, time priority and creation time.
#[derive(Clone, Debug)]
pub enum BulkOrder {
    V1 {
        order_request: BulkOrderRequest,
        order_id: OrderId,
        unique_priority_idx: IncreasingIdx,
        creation_time_micros: u64,
    },
}

/// The bulk orders by account, and the accounts by order id.
pub enum BulkOrderBook {
    V1 { orders: BigOrderedMap<[u8; 32], BulkOrder>, order_id_to_address: BigOrderedMap<OrderId, [u8; 32]> },
}

/// The resting orders by price and time, on both sides.
pub enum PriceTimeIndex {
    V1 { buys: BigOrderedMap<PriceDescTime, OrderData>, sells: BigOrderedMap<PriceAscTime, OrderData> },
}

/// The order book: single orders, bulk orders and the price-time index.
pub enum OrderBook {
    UnifiedV1 { single_order_book: SingleOrderBook, bulk_order_book: BulkOrderBook, price_time_idx: PriceTimeIndex },
}

/// A market: its parent and own addresses, configuration and order book.
pub enum Market {
    V1 {
        parent: [u8; 32],
        market: [u8; 32],
        config: MarketConfig,
        order_book: OrderBook,
        secondary_resources_ref: ExtendRef,
    },
}

/// A perpetual market.
pub enum PerpMarket {
    V1 { market: Market },
}

/// The index of the first level with a non-zero size, over the levels
/// that both vectors hold.
pub open spec fn first_active_level(prices: Seq<u64>, sizes: Seq<u64>) -> Option<int>
    decreases sizes.len(),
{
    if prices.len() == 0 || sizes.len() == 0 {
        None
    } else if sizes[0] > 0 {
        Some(0)
    } else {
        match first_active_level(prices.drop_first(), sizes.drop_first()) {
            Some(i) => Some(i + 1),
            None => None,
        }
    }
}

/// The first active level is active and no level before it is.
proof fn lemma_first_active_level(prices: Seq<u64>, sizes: Seq<u64>)
    ensures
        match first_active_level(prices, sizes) {
            Some(i) => 0 <= i < prices.len() && i < sizes.len() && sizes[i] > 0 && forall|j: int|
                0 <= j < i ==> #[trigger] sizes[j] == 0,
            None => forall|j: int| 0 <= j < prices.len() && j < sizes.len() ==> #[trigger] sizes[j] == 0,
        },
    decreases sizes.len(),
{
    if prices.len() > 0 && sizes.len() > 0 && sizes[0] == 0 {
        lemma_first_active_level(prices.drop_first(), sizes.drop_first());
        assert forall|j: int| 0 < j < prices.len() && j < sizes.len() implies sizes[j] == sizes.drop_first()[j
            - 1] by {
        }
    }
}

proof fn lemma_first_active_char(prices: Seq<u64>, sizes: Seq<u64>, i: int)
    requires
        0 <= i <= prices.len(),
        i <= sizes.len(),
        forall|j: int| 0 <= j < i ==> #[trigger] sizes[j] == 0,
    ensures
        first_active_level(prices, sizes) == (if i < prices.len() && i < sizes.len() {
            match first_active_level(prices.skip(i), sizes.skip(i)) {
                Some(k) => Some(k + i),
                None => None,
            }
        } else {
            None::<int>
        }),
    decreases i,
{
    if i > 0 {
        assert(prices.skip(1) =~= prices.drop_first());
        assert(sizes.skip(1) =~= sizes.drop_first());
        assert forall|j: int| 0 <= j < i - 1 implies #[trigger] sizes.drop_first()[j] == 0 by {
            assert(sizes.drop_first()[j] == sizes[j + 1]);
        }
        lemma_first_active_char(prices.drop_first(), sizes.drop_first(), i - 1);
        assert(prices.drop_first().skip(i - 1) =~= prices.skip(i));
        assert(sizes.drop_first().skip(i - 1) =~= sizes.skip(i));
        assert(sizes[0] == 0);
    } else {
        assert(prices.skip(0) =~= prices);
        assert(sizes.skip(0) =~= sizes);
        if !(0 < prices.len() && 0 < sizes.len()) {
        }
        match first_active_level(prices, sizes) {
            Some(k) => {},
            None => {},
        }
    }
}

fn active_level(prices: &[u64], sizes: &[u64]) -> (r: Option<usize>)
    ensures
        r matches Some(u) ==> first_active_level(prices@, sizes@) == Some(u as int),
        r is None ==> first_active_level(prices@, sizes@) is None,
        r matches Some(i) ==> i < prices@.len() && i < sizes@.len(),
{
    let n = if prices.len() < sizes.len() {
        prices.len()
    } else {
        sizes.len()
    };
    let mut i: usize = 0;
    while i < n
        invariant
            n <= prices@.len(),
            n <= sizes@.len(),
            n == prices@.len() || n == sizes@.len(),
            i <= n,
            forall|j: int| 0 <= j < i ==> #[trigger] sizes@[j] == 0,
        decreases n - i,
    {
        if sizes[i] > 0 {
            proof {
                lemma_first_active_char(prices@, sizes@, i as int);
                assert(prices@.skip(i as int)[0] == prices@[i as int]);
                assert(sizes@.skip(i as int)[0] == sizes@[i as int]);
            }
            return Some(i);
        }
        i += 1;
    }
    proof {
        lemma_first_active_char(prices@, sizes@, i as int);
    }
    None
}

/// What matching `matched_size` against the levels gives: the price of
/// the first active level and, where that level is used up, the next
/// active level with its size.
pub open spec fn level_match_result(prices: Seq<u64>, sizes: Seq<u64>, matched_size: u64) -> (u64, Option<(u64, u64)>) {
    match first_active_level(prices, sizes) {
        None => (0, None),
        Some(i) => if matched_size >= sizes[i] {
            let rest = sizes.update(i, 0);
            (
                prices[i],
                match first_active_level(prices, rest) {
                    Some(j) => Some((prices[j], rest[j])),
                    None => None,
                },
            )
        } else {
            (prices[i], None)
        },
    }
}

/// The sizes after matching `matched_size` against the first active level.
pub open spec fn level_match_sizes(prices: Seq<u64>, sizes: Seq<u64>, matched_size: u64) -> Seq<u64> {
    match first_active_level(prices, sizes) {
        None => sizes,
        Some(i) => if matched_size >= sizes[i] {
            sizes.update(i, 0)
        } else {
            sizes.update(i, (sizes[i] - matched_size) as u64)
        },
    }
}

fn match_level(prices: &[u64], sizes: &mut Vec<u64>, matched_size: u64) -> (r: (u64, Option<(u64, u64)>))
    ensures
        r == level_match_result(prices@, old(sizes)@, matched_size),
        final(sizes)@ == level_match_sizes(prices@, old(sizes)@, matched_size),
{
    match active_level(prices, sizes.as_slice()) {
        None => (0, None),
        Some(i) => {
            let fill_price = prices[i];
            if matched_size >= sizes[i] {
                sizes.set(i, 0);
                let next = match active_level(prices, sizes.as_slice()) {
                    Some(j) => Some((prices[j], sizes[j])),
                    None => None,
                };
                (fill_price, next)
            } else {
                let left = sizes[i] - matched_size;
                sizes.set(i, left);
                (fill_price, None)
            }
        },
    }
}

impl BulkOrder {
    pub open spec fn request(self) -> BulkOrderRequest {
        self->order_request
    }

    /// The account that placed the bulk order.
    pub fn account(&self) -> (r: [u8; 32])
        ensures
            r == self->order_request->account,
    {
        match self {
            BulkOrder::V1 { order_request, .. } => match order_request {
                BulkOrderRequest::V1 { account, .. } => *account,
            },
        }
    }

    /// The id of the bulk order.
    pub fn order_id(&self) -> (r: OrderId)
        ensures
            r == self->order_id,
    {
        match self {
            BulkOrder::V1 { order_id, .. } => *order_id,
        }
    }

    /// The sequence number of the request.
    pub fn sequence_number(&self) -> (r: u64)
        ensures
            r == self->order_request->order_sequence_number,
    {
        match self {
            BulkOrder::V1 { order_request, .. } => match order_request {
                BulkOrderRequest::V1 { order_sequence_number, .. } => *order_sequence_number,
            },
        }
    }

    /// The time priority of the bulk order.
    pub fn unique_priority_idx(&self) -> (r: IncreasingIdx)
        ensures
            r == self->unique_priority_idx,
    {
        match self {
            BulkOrder::V1 { unique_priority_idx, .. } => *unique_priority_idx,
        }
    }

    /// Matches `matched_size` against the first active level of the maker
    /// side: the level's price comes back, and where the level is used up,
    /// the next active level with its size.
    pub fn match_and_advance(&mut self, maker_is_bid: bool, matched_size: u64) -> (r: (u64, Option<(u64, u64)>))
        ensures
            ({
                let q = old(self)->order_request;
                let f = final(self)->order_request;
                if maker_is_bid {
                    &&& r == level_match_result(q->bid_prices@, q->bid_sizes@, matched_size)
                    &&& f->bid_sizes@ == level_match_sizes(q->bid_prices@, q->bid_sizes@, matched_size)
                    &&& f->ask_sizes@ == q->ask_sizes@
                } else {
                    &&& r == level_match_result(q->ask_prices@, q->ask_sizes@, matched_size)
                    &&& f->ask_sizes@ == level_match_sizes(q->ask_prices@, q->ask_sizes@, matched_size)
                    &&& f->bid_sizes@ == q->bid_sizes@
                }
            }),
            final(self)->order_request->bid_prices@ == old(self)->order_request->bid_prices@,
            final(self)->order_request->ask_prices@ == old(self)->order_request->ask_prices@,
            final(self)->order_id == old(self)->order_id,
            final(self)->unique_priority_idx == old(self)->unique_priority_idx,
    {
        match self {
            BulkOrder::V1 { order_request, .. } => match order_request {
                BulkOrderRequest::V1 { bid_prices, bid_sizes, ask_prices, ask_sizes, .. } => {
                    if maker_is_bid {
                        match_level(bid_prices.as_slice(), bid_sizes, matched_size)
                    } else {
                        match_level(ask_prices.as_slice(), ask_sizes, matched_size)
                    }
                },
            },
        }
    }

    /// The metadata of the request.
    pub fn metadata(&self) -> (r: &OrderMetadata)
        ensures
            *r == self->order_request->metadata,
    {
        match self {
            BulkOrder::V1 { order_request, .. } => match order_request {
                BulkOrderRequest::V1 { metadata, .. } => metadata,
            },
        }
    }

    /// The price of the first active level of a side.
    pub fn active_price(&self, is_bid: bool) -> (r: Option<u64>)
        ensures
            ({
                let q = self->order_request;
                let (prices, sizes) = if is_bid {
                    (q->bid_prices@, q->bid_sizes@)
                } else {
                    (q->ask_prices@, q->ask_sizes@)
                };
                r == match first_active_level(prices, sizes) {
                    Some(i) => Some(prices[i]),
                    None => None,
                }
            }),
    {
        match self {
            BulkOrder::V1 { order_request, .. } => match order_request {
                BulkOrderRequest::V1 { bid_prices, bid_sizes, ask_prices, ask_sizes, .. } => {
                    let level = if is_bid {
                        active_level(bid_prices.as_slice(), bid_sizes.as_slice())
                    } else {
                        active_level(ask_prices.as_slice(), ask_sizes.as_slice())
                    };
                    match level {
                        Some(i) => if is_bid {
                            Some(bid_prices[i])
                        } else {
                            Some(ask_prices[i])
                        },
                        None => None,
                    }
                },
            },
        }
    }

    /// The size of the first non-zero level of a side, over all its sizes.
    pub fn active_size(&self, is_bid: bool) -> (r: Option<u64>)
        ensures
            ({
                let q = self->order_request;
                let sizes = if is_bid {
                    q->bid_sizes@
                } else {
                    q->ask_sizes@
                };
                r == match first_active_level(sizes, sizes) {
                    Some(i) => Some(sizes[i]),
                    None => None,
                }
            }),
    {
        match self {
            BulkOrder::V1 { order_request, .. } => match order_request {
                BulkOrderRequest::V1 { bid_sizes, ask_sizes, .. } => {
                    let sizes = if is_bid {
                        bid_sizes
                    } else {
                        ask_sizes
                    };
                    match active_level(sizes.as_slice(), sizes.as_slice()) {
                        Some(i) => Some(sizes[i]),
                        None => None,
                    }
                },
            },
        }
    }
}


impl SingleOrderRequest {
    /// The request with another remaining size.
    pub open spec fn with_remaining_size(self, n: u64) -> Self {
        match self {
            SingleOrderRequest::V1 {
                account,
                order_id,
                client_order_id,
                price,
                orig_size,
                remaining_size: _,
                is_bid,
                trigger_condition,
                time_in_force,
                creation_time_micros,
                metadata,
            } => SingleOrderRequest::V1 {
                account,
                order_id,
                client_order_id,
                price,
                orig_size,
                remaining_size: n,
                is_bid,
                trigger_condition,
                time_in_force,
                creation_time_micros,
                metadata,
            },
        }
    }
}

impl OrderWithState {
    pub open spec fn request_spec(self) -> SingleOrderRequest {
        self->order->order_request
    }

    /// The request of the order.
    pub fn get_request(&self) -> (r: &SingleOrderRequest)
        ensures
            *r == self.request_spec(),
    {
        match self {
            OrderWithState::V1 { order, .. } => match order {
                SingleOrder::V1 { order_request, .. } => order_request,
            },
        }
    }

    /// The size left to fill.
    pub fn get_remaining_size(&self) -> (r: u64)
        ensures
            r == self.request_spec()->remaining_size,
    {
        match self.get_request() {
            SingleOrderRequest::V1 { remaining_size, .. } => *remaining_size,
        }
    }

    /// Sets the size left to fill; nothing else changes.
    pub fn set_remaining_size(&mut self, new_size: u64)
        ensures
            *final(self) == (OrderWithState::V1 {
                order: SingleOrder::V1 {
                    order_request: old(self).request_spec().with_remaining_size(new_size),
                    unique_priority_idx: old(self)->order->unique_priority_idx,
                },
                is_active: old(self)->is_active,
            }),
    {
        match self {
            OrderWithState::V1 { order, .. } => match order {
                SingleOrder::V1 { order_request, .. } => match order_request {
                    SingleOrderRequest::V1 { remaining_size, .. } => {
                        *remaining_size = new_size;
                    },
                },
            },
        }
    }

    /// The account that placed the order.
    pub fn get_account(&self) -> (r: [u8; 32])
        ensures
            r == self.request_spec()->account,
    {
        match self.get_request() {
            SingleOrderRequest::V1 { account, .. } => *account,
        }
    }

    /// The limit price.
    pub fn get_price(&self) -> (r: u64)
        ensures
            r == self.request_spec()->price,
    {
        match self.get_request() {
            SingleOrderRequest::V1 { price, .. } => *price,
        }
    }

    /// The size first asked for.
    pub fn get_orig_size(&self) -> (r: u64)
        ensures
            r == self.request_spec()->orig_size,
    {
        match self.get_request() {
            SingleOrderRequest::V1 { orig_size, .. } => *orig_size,
        }
    }

    /// Whether the order buys.
    pub fn is_bid(&self) -> (r: bool)
        ensures
            r == self.request_spec()->is_bid,
    {
        match self.get_request() {
            SingleOrderRequest::V1 { is_bid, .. } => *is_bid,
        }
    }

    /// The id of the order.
    pub fn get_order_id(&self) -> (r: OrderId)
        ensures
            r == self.request_spec()->order_id,
    {
        match self.get_request() {
            SingleOrderRequest::V1 { order_id, .. } => *order_id,
        }
    }

    /// The client's id of the order.
    pub fn get_client_order_id(&self) -> (r: Option<String>)
        ensures
            r == self.request_spec()->client_order_id,
    {
        match self.get_request() {
            SingleOrderRequest::V1 { client_order_id, .. } => match client_order_id {
                Some(c) => Some(c.clone()),
                None => None,
            },
        }
    }

    /// The metadata of the order.
    pub fn get_metadata(&self) -> (r: &OrderMetadata)
        ensures
            *r == self.request_spec()->metadata,
    {
        match self.get_request() {
            SingleOrderRequest::V1 { metadata, .. } => metadata,
        }
    }

    /// How long the order stays.
    pub fn get_time_in_force(&self) -> (r: TimeInForce)
        ensures
            r == self.request_spec()->time_in_force,
    {
        match self.get_request() {
            SingleOrderRequest::V1 { time_in_force, .. } => *time_in_force,
        }
    }

    /// The time priority of the order.
    pub fn get_unique_priority_idx(&self) -> (r: IncreasingIdx)
        ensures
            r == self->order->unique_priority_idx,
    {
        match self {
            OrderWithState::V1 { order, .. } => match order {
                SingleOrder::V1 { unique_priority_idx, .. } => *unique_priority_idx,
            },
        }
    }
}

impl SingleOrderBook {
    pub open spec fn orders_map(self) -> BigOrderedMap<OrderId, OrderWithState> {
        self->orders
    }

    /// The order of `order_id` in the root of the order map.
    pub fn get_order(&self, order_id: &OrderId) -> (r: Option<&OrderWithState>)
        ensures
            ({
                let es = self.orders_map().root_entries();
                let p = lower_bound_spec(es, *order_id);
                if has_key_at_bound(es, *order_id) && es[p].value is Leaf {
                    r matches Some(v) && *v == es[p].value->value
                } else {
                    r is None
                }
            }),
    {
        match self {
            SingleOrderBook::V1 { orders, .. } => orders.get_leaf(order_id),
        }
    }

    /// Removes the order of `order_id` from the root of the order map.
    pub fn remove_order(&mut self, order_id: &OrderId) -> (r: Option<OrderWithState>)
        ensures
            final(self).orders_map().only_root_entries_changed(old(self).orders_map()),
            ({
                let es = old(self).orders_map().root_entries();
                let p = lower_bound_spec(es, *order_id);
                if has_key_at_bound(es, *order_id) {
                    final(self).orders_map().root_entries() == es.remove(p) && r == (if es[p].value is Leaf {
                        Some(es[p].value->value)
                    } else {
                        None
                    })
                } else {
                    r is None && final(self).orders_map().root_entries() == es
                }
            }),
            final(self)->client_order_ids == old(self)->client_order_ids,
            final(self)->pending_orders == old(self)->pending_orders,
    {
        match self {
            SingleOrderBook::V1 { orders, .. } => orders.remove_leaf(order_id),
        }
    }

    /// A mutable borrow of the order of `order_id` in the root of the order
    /// map.
    pub fn get_order_mut(&mut self, order_id: &OrderId) -> (r: Option<&mut OrderWithState>)
        ensures
            ({
                let es = old(self).orders_map().root_entries();
                let p = lower_bound_spec(es, *order_id);
                has_key_at_bound(es, *order_id) && es[p].value is Leaf ==> (r matches Some(v) && *v
                    == es[p].value->value)
            }),
            ({
                let es = old(self).orders_map().root_entries();
                let p = lower_bound_spec(es, *order_id);
                r matches Some(v) ==> final(self).orders_map().root_entries() == es.update(
                    p,
                    Entry { key: es[p].key, value: Child::Leaf { value: *final(v) } },
                )
            }),
            r is None ==> final(self).orders_map() == old(self).orders_map(),
            final(self)->client_order_ids == old(self)->client_order_ids,
            final(self)->pending_orders == old(self)->pending_orders,
    {
        match self {
            SingleOrderBook::V1 { orders, .. } => orders.get_leaf_mut(order_id),
        }
    }
}

impl BulkOrderBook {
    pub open spec fn orders_map(self) -> BigOrderedMap<[u8; 32], BulkOrder> {
        self->orders
    }

    pub open spec fn ids_map(self) -> BigOrderedMap<OrderId, [u8; 32]> {
        self->order_id_to_address
    }

    /// Removes the bulk order of `account` from the root of the order map.
    pub fn remove_order(&mut self, account: &[u8; 32]) -> (r: Option<BulkOrder>)
        ensures
            final(self).orders_map().only_root_entries_changed(old(self).orders_map()),
            ({
                let es = old(self).orders_map().root_entries();
                let p = lower_bound_spec(es, *account);
                if has_key_at_bound(es, *account) {
                    final(self).orders_map().root_entries() == es.remove(p) && r == (if es[p].value is Leaf {
                        Some(es[p].value->value)
                    } else {
                        None
                    })
                } else {
                    r is None && final(self).orders_map().root_entries() == es
                }
            }),
            final(self).ids_map() == old(self).ids_map(),
    {
        match self {
            BulkOrderBook::V1 { orders, .. } => orders.remove_leaf(account),
        }
    }

    /// Adds the bulk order of `account` to the root of the order map.
    pub fn add_order(&mut self, account: [u8; 32], order: BulkOrder)
        ensures
            final(self).orders_map().only_root_entries_changed(old(self).orders_map()),
            final(self).orders_map().root_entries() == old(self).orders_map().root_entries().insert(
                lower_bound_spec(old(self).orders_map().root_entries(), account),
                Entry { key: account, value: Child::Leaf { value: order } },
            ),
            final(self).ids_map() == old(self).ids_map(),
    {
        match self {
            BulkOrderBook::V1 { orders, .. } => orders.add_leaf(account, order),
        }
    }

    /// Records which account a bulk order id belongs to.
    pub fn add_order_id_mapping(&mut self, order_id: OrderId, account: [u8; 32])
        ensures
            final(self).ids_map().only_root_entries_changed(old(self).ids_map()),
            final(self).ids_map().root_entries() == old(self).ids_map().root_entries().insert(
                lower_bound_spec(old(self).ids_map().root_entries(), order_id),
                Entry { key: order_id, value: Child::Leaf { value: account } },
            ),
            final(self).orders_map() == old(self).orders_map(),
    {
        match self {
            BulkOrderBook::V1 { order_id_to_address, .. } => order_id_to_address.add_leaf(order_id, account),
        }
    }

    /// The account of a bulk order id.
    pub fn get_order_address(&self, order_id: &OrderId) -> (r: Option<&[u8; 32]>)
        ensures
            ({
                let es = self.ids_map().root_entries();
                let p = lower_bound_spec(es, *order_id);
                if has_key_at_bound(es, *order_id) && es[p].value is Leaf {
                    r matches Some(v) && *v == es[p].value->value
                } else {
                    r is None
                }
            }),
    {
        match self {
            BulkOrderBook::V1 { order_id_to_address, .. } => order_id_to_address.get_leaf(order_id),
        }
    }

    /// The bulk order of an account.
    pub fn get_order_by_address(&self, address: &[u8; 32]) -> (r: Option<&BulkOrder>)
        ensures
            ({
                let es = self.orders_map().root_entries();
                let p = lower_bound_spec(es, *address);
                if has_key_at_bound(es, *address) && es[p].value is Leaf {
                    r matches Some(v) && *v == es[p].value->value
                } else {
                    r is None
                }
            }),
    {
        match self {
            BulkOrderBook::V1 { orders, .. } => orders.get_leaf(address),
        }
    }

    /// A mutable borrow of the bulk order of an account.
    pub fn get_order_by_address_mut(&mut self, address: &[u8; 32]) -> (r: Option<&mut BulkOrder>)
        ensures
            ({
                let es = old(self).orders_map().root_entries();
                let p = lower_bound_spec(es, *address);
                has_key_at_bound(es, *address) && es[p].value is Leaf ==> (r matches Some(v) && *v
                    == es[p].value->value)
            }),
            ({
                let es = old(self).orders_map().root_entries();
                let p = lower_bound_spec(es, *address);
                r matches Some(v) ==> final(self).orders_map().root_entries() == es.update(
                    p,
                    Entry { key: es[p].key, value: Child::Leaf { value: *final(v) } },
                )
            }),
            r is None ==> final(self).orders_map() == old(self).orders_map(),
            final(self).ids_map() == old(self).ids_map(),
    {
        match self {
            BulkOrderBook::V1 { orders, .. } => orders.get_leaf_mut(address),
        }
    }
}


/// The key of the buy side for a level at `price` of an order with time
/// priority `idx`.
pub open spec fn bid_key(price: u64, idx: IncreasingIdx) -> PriceDescTime {
    PriceDescTime { price, tie_breaker: DecreasingIdx { idx: (u128::MAX - idx.idx) as u128 } }
}

/// The key of the sell side for a level at `price` of an order with time
/// priority `idx`.
pub open spec fn ask_key(price: u64, idx: IncreasingIdx) -> PriceAscTime {
    PriceAscTime { price, tie_breaker: IncreasingIdx { idx: idx.idx } }
}

/// What the index holds for a bulk order level of `size`.
pub open spec fn bulk_level_data(order_id: OrderId, size: u64) -> OrderData {
    OrderData { order_id, order_book_type: OrderType { order_type: 1 }, size }
}

/// `s` with the entry of `key` added at the place its key sorts to.
pub open spec fn with_added<K: TreeKey, V>(s: Seq<Entry<K, Child<V>>>, key: K, v: V) -> Seq<Entry<K, Child<V>>> {
    s.insert(lower_bound_spec(s, key), Entry { key, value: Child::Leaf { value: v } })
}

/// The value that a removal of `key` takes out of the leaf where the
/// search for it ends.
pub open spec fn removed_at_search_end<K: TreeKey>(m: BigOrderedMap<K, OrderData>, store: SlotStore<K, OrderData>, key: K) -> Option<OrderData> {
    let es = m.search_end(store, key).unwrap().entry_seq();
    Some(es[lower_bound_spec(es, key)].value->value)
}

/// `s` without the entry of `key`, where it stands at its lower bound.
pub open spec fn with_removed<K: TreeKey, V>(s: Seq<Entry<K, Child<V>>>, key: K) -> Seq<Entry<K, Child<V>>> {
    if has_key_at_bound(s, key) {
        s.remove(lower_bound_spec(s, key))
    } else {
        s
    }
}

fn make_bid_key(price: u64, idx: IncreasingIdx) -> (r: PriceDescTime)
    ensures
        r == bid_key(price, idx),
{
    PriceDescTime { price, tie_breaker: DecreasingIdx { idx: u128::MAX - idx.idx } }
}

fn make_ask_key(price: u64, idx: IncreasingIdx) -> (r: PriceAscTime)
    ensures
        r == ask_key(price, idx),
{
    PriceAscTime { price, tie_breaker: IncreasingIdx { idx: idx.idx } }
}

fn make_bulk_level_data(order_id: OrderId, size: u64) -> (r: OrderData)
    ensures
        r == bulk_level_data(order_id, size),
{
    OrderData { order_id, order_book_type: OrderType { order_type: 1 }, size }
}

impl PriceTimeIndex {
    pub open spec fn buys_map(self) -> BigOrderedMap<PriceDescTime, OrderData> {
        self->buys
    }

    pub open spec fn sells_map(self) -> BigOrderedMap<PriceAscTime, OrderData> {
        self->sells
    }

    /// Puts the first active bid level and the first active ask level of a
    /// bulk order into the root of the buy and the sell side.
    pub fn activate_bulk_order_prices(
        &mut self,
        order_id: OrderId,
        bid_prices: &[u64],
        bid_sizes: &[u64],
        ask_prices: &[u64],
        ask_sizes: &[u64],
        unique_priority_idx: IncreasingIdx,
    )
        ensures
            final(self).buys_map().only_root_entries_changed(old(self).buys_map()),
            final(self).sells_map().only_root_entries_changed(old(self).sells_map()),
            final(self).buys_map().root_entries() == match first_active_level(bid_prices@, bid_sizes@) {
                Some(i) => with_added(
                    old(self).buys_map().root_entries(),
                    bid_key(bid_prices@[i], unique_priority_idx),
                    bulk_level_data(order_id, bid_sizes@[i]),
                ),
                None => old(self).buys_map().root_entries(),
            },
            final(self).sells_map().root_entries() == match first_active_level(ask_prices@, ask_sizes@) {
                Some(i) => with_added(
                    old(self).sells_map().root_entries(),
                    ask_key(ask_prices@[i], unique_priority_idx),
                    bulk_level_data(order_id, ask_sizes@[i]),
                ),
                None => old(self).sells_map().root_entries(),
            },
    {
        match self {
            PriceTimeIndex::V1 { buys, sells } => {
                if let Some(i) = active_level(bid_prices, bid_sizes) {
                    buys.add_leaf(
                        make_bid_key(bid_prices[i], unique_priority_idx),
                        make_bulk_level_data(order_id, bid_sizes[i]),
                    );
                }
                if let Some(i) = active_level(ask_prices, ask_sizes) {
                    sells.add_leaf(
                        make_ask_key(ask_prices[i], unique_priority_idx),
                        make_bulk_level_data(order_id, ask_sizes[i]),
                    );
                }
            },
        }
    }

    /// Takes the first active bid and ask levels of a bulk order out of the
    /// root of the buy and the sell side.
    pub fn remove_bulk_order_prices(&mut self, old_order: &BulkOrder)
        ensures
            ({
                let q = old_order->order_request;
                let idx = old_order->unique_priority_idx;
                &&& final(self).buys_map().only_root_entries_changed(old(self).buys_map())
                &&& final(self).sells_map().only_root_entries_changed(old(self).sells_map())
                &&& final(self).buys_map().root_entries() == match first_active_level(q->bid_prices@, q->bid_sizes@) {
                    Some(i) => with_removed(old(self).buys_map().root_entries(), bid_key(q->bid_prices@[i], idx)),
                    None => old(self).buys_map().root_entries(),
                }
                &&& final(self).sells_map().root_entries() == match first_active_level(q->ask_prices@, q->ask_sizes@) {
                    Some(i) => with_removed(old(self).sells_map().root_entries(), ask_key(q->ask_prices@[i], idx)),
                    None => old(self).sells_map().root_entries(),
                }
            }),
    {
        match old_order {
            BulkOrder::V1 { order_request, unique_priority_idx, .. } => match order_request {
                BulkOrderRequest::V1 { bid_prices, bid_sizes, ask_prices, ask_sizes, .. } => match self {
                    PriceTimeIndex::V1 { buys, sells } => {
                        if let Some(i) = active_level(bid_prices.as_slice(), bid_sizes.as_slice()) {
                            let key = make_bid_key(bid_prices[i], *unique_priority_idx);
                            buys.remove_leaf(&key);
                        }
                        if let Some(i) = active_level(ask_prices.as_slice(), ask_sizes.as_slice()) {
                            let key = make_ask_key(ask_prices[i], *unique_priority_idx);
                            sells.remove_leaf(&key);
                        }
                    },
                },
            },
        }
    }

    /// As [`Self::activate_bulk_order_prices`], through the trees of both
    /// sides; a side whose insertion fails writes nothing. The slot writes
    /// of the buy and the sell side come back.
    pub fn tree_activate_bulk_order_prices(
        &mut self,
        order_id: OrderId,
        bid_prices: &[u64],
        bid_sizes: &[u64],
        ask_prices: &[u64],
        ask_sizes: &[u64],
        unique_priority_idx: IncreasingIdx,
        read_buys: &SlotStore<PriceDescTime, OrderData>,
        read_sells: &SlotStore<PriceAscTime, OrderData>,
    ) -> (r: (Vec<TableWrite<PriceDescTime, OrderData>>, Vec<TableWrite<PriceAscTime, OrderData>>))
        ensures
            first_active_level(bid_prices@, bid_sizes@) is None ==> r.0@.len() == 0 && final(self).buys_map()
                == old(self).buys_map(),
            first_active_level(ask_prices@, ask_sizes@) is None ==> r.1@.len() == 0 && final(self).sells_map()
                == old(self).sells_map(),
            first_active_level(bid_prices@, bid_sizes@) matches Some(i) ==> ({
                let k = bid_key(bid_prices@[i], unique_priority_idx);
                let d = bulk_level_data(order_id, bid_sizes@[i]);
                let m = old(self).buys_map();
                &&& m.root_node().leaf_flag() && (m.root_entries().len() < m.leaf_degree() || has_key_at_bound(
                    m.root_entries(),
                    k,
                )) ==> r.0@.len() == 0 && final(self).buys_map().root_node().leaf_flag()
                    && final(self).buys_map().root_entries() == upsert_entries(m.root_entries(), k, Child::Leaf { value: d })
                &&& m.at_rest() && m.in_place_add(*read_buys, k) ==> m.in_place_add_result(
                    *read_buys,
                    k,
                    d,
                    final(self).buys_map(),
                    r.0@,
                )
            }),
            first_active_level(ask_prices@, ask_sizes@) matches Some(i) ==> ({
                let k = ask_key(ask_prices@[i], unique_priority_idx);
                let d = bulk_level_data(order_id, ask_sizes@[i]);
                let m = old(self).sells_map();
                &&& m.root_node().leaf_flag() && (m.root_entries().len() < m.leaf_degree() || has_key_at_bound(
                    m.root_entries(),
                    k,
                )) ==> r.1@.len() == 0 && final(self).sells_map().root_node().leaf_flag()
                    && final(self).sells_map().root_entries() == upsert_entries(m.root_entries(), k, Child::Leaf { value: d })
                &&& m.at_rest() && m.in_place_add(*read_sells, k) ==> m.in_place_add_result(
                    *read_sells,
                    k,
                    d,
                    final(self).sells_map(),
                    r.1@,
                )
            }),
    {
        let mut buys_writes: Vec<TableWrite<PriceDescTime, OrderData>> = Vec::new();
        let mut sells_writes: Vec<TableWrite<PriceAscTime, OrderData>> = Vec::new();
        match self {
            PriceTimeIndex::V1 { buys, sells } => {
                if let Some(i) = active_level(bid_prices, bid_sizes) {
                    let key = make_bid_key(bid_prices[i], unique_priority_idx);
                    let data = make_bulk_level_data(order_id, bid_sizes[i]);
                    match buys.tree_add(key, data, read_buys) {
                        Ok(w) => {
                            buys_writes = w;
                        },
                        Err(_) => {},
                    }
                }
                if let Some(i) = active_level(ask_prices, ask_sizes) {
                    let key = make_ask_key(ask_prices[i], unique_priority_idx);
                    let data = make_bulk_level_data(order_id, ask_sizes[i]);
                    match sells.tree_add(key, data, read_sells) {
                        Ok(w) => {
                            sells_writes = w;
                        },
                        Err(_) => {},
                    }
                }
            },
        }
        (buys_writes, sells_writes)
    }

    /// As [`Self::remove_bulk_order_prices`], through the trees of both
    /// sides; a side whose removal fails writes nothing. The slot writes of
    /// the buy and the sell side come back.
    pub fn tree_remove_bulk_order_prices(
        &mut self,
        old_order: &BulkOrder,
        read_buys: &SlotStore<PriceDescTime, OrderData>,
        read_sells: &SlotStore<PriceAscTime, OrderData>,
    ) -> (r: (Vec<TableWrite<PriceDescTime, OrderData>>, Vec<TableWrite<PriceAscTime, OrderData>>))
        ensures
            ({
                let q = old_order->order_request;
                &&& first_active_level(q->bid_prices@, q->bid_sizes@) is None ==> r.0@.len() == 0
                    && final(self).buys_map() == old(self).buys_map()
                &&& first_active_level(q->ask_prices@, q->ask_sizes@) is None ==> r.1@.len() == 0
                    && final(self).sells_map() == old(self).sells_map()
            }),
            ({
                let q = old_order->order_request;
                let idx = old_order->unique_priority_idx;
                let m = old(self).buys_map();
                first_active_level(q->bid_prices@, q->bid_sizes@) matches Some(i) ==> ({
                    let k = bid_key(q->bid_prices@[i], idx);
                    &&& m.root_node().leaf_flag() ==> r.0@.len() == 0 && final(self).buys_map().root_node().leaf_flag()
                        && final(self).buys_map().root_entries() == with_removed(m.root_entries(), k)
                    &&& m.at_rest() && !m.root_node().leaf_flag() && m.in_place_remove(*read_buys, k) ==> m.in_place_remove_result(
                        *read_buys,
                        k,
                        removed_at_search_end(m, *read_buys, k),
                        final(self).buys_map(),
                        r.0@,
                    )
                })
            }),
            ({
                let q = old_order->order_request;
                let idx = old_order->unique_priority_idx;
                let m = old(self).sells_map();
                first_active_level(q->ask_prices@, q->ask_sizes@) matches Some(i) ==> ({
                    let k = ask_key(q->ask_prices@[i], idx);
                    &&& m.root_node().leaf_flag() ==> r.1@.len() == 0 && final(self).sells_map().root_node().leaf_flag()
                        && final(self).sells_map().root_entries() == with_removed(m.root_entries(), k)
                    &&& m.at_rest() && !m.root_node().leaf_flag() && m.in_place_remove(*read_sells, k) ==> m.in_place_remove_result(
                        *read_sells,
                        k,
                        removed_at_search_end(m, *read_sells, k),
                        final(self).sells_map(),
                        r.1@,
                    )
                })
            }),
    {
        let mut buys_writes: Vec<TableWrite<PriceDescTime, OrderData>> = Vec::new();
        let mut sells_writes: Vec<TableWrite<PriceAscTime, OrderData>> = Vec::new();
        match old_order {
            BulkOrder::V1 { order_request, unique_priority_idx, .. } => match order_request {
                BulkOrderRequest::V1 { bid_prices, bid_sizes, ask_prices, ask_sizes, .. } => match self {
                    PriceTimeIndex::V1 { buys, sells } => {
                        if let Some(i) = active_level(bid_prices.as_slice(), bid_sizes.as_slice()) {
                            let key = make_bid_key(bid_prices[i], *unique_priority_idx);
                            match buys.tree_remove(&key, read_buys) {
                                Ok((_, w)) => {
                                    buys_writes = w;
                                },
                                Err(_) => {},
                            }
                        }
                        if let Some(i) = active_level(ask_prices.as_slice(), ask_sizes.as_slice()) {
                            let key = make_ask_key(ask_prices[i], *unique_priority_idx);
                            match sells.tree_remove(&key, read_sells) {
                                Ok((_, w)) => {
                                    sells_writes = w;
                                },
                                Err(_) => {},
                            }
                        }
                    },
                },
            },
        }
        (buys_writes, sells_writes)
    }
}

impl PerpMarket {
    pub open spec fn book(self) -> OrderBook {
        self->market->order_book
    }

    pub open spec fn index(self) -> PriceTimeIndex {
        self.book()->price_time_idx
    }

    /// The best bid: the price of the last buy entry in a leaf root.
    pub open spec fn best_bid_spec(self) -> Option<u64> {
        let m = self.index().buys_map();
        if m.root_node().leaf_flag() {
            match back_pair(m.root_entries()) {
                Some(p) => Some(p.0.price),
                None => None,
            }
        } else {
            None
        }
    }

    /// The best ask: the price of the first sell entry in a leaf root.
    pub open spec fn best_ask_spec(self) -> Option<u64> {
        let m = self.index().sells_map();
        if m.root_node().leaf_flag() {
            match front_pair(m.root_entries()) {
                Some(p) => Some(p.0.price),
                None => None,
            }
        } else {
            None
        }
    }

    /// The best bid price, while the buy side's root is a leaf.
    pub fn best_bid_price(&self) -> (r: Option<u64>)
        ensures
            r == self.best_bid_spec(),
    {
        match self {
            PerpMarket::V1 { market } => match market {
                Market::V1 { order_book, .. } => match order_book {
                    OrderBook::UnifiedV1 { price_time_idx, .. } => match price_time_idx {
                        PriceTimeIndex::V1 { buys, .. } => match buys {
                            BigOrderedMap::BPlusTreeMap { root, .. } => match root {
                                Node::V1 { is_leaf, children, .. } => {
                                    if !*is_leaf {
                                        return None;
                                    }
                                    match children {
                                        OrderedMap::SortedVectorMap { entries } => {
                                            if entries.len() == 0 {
                                                return None;
                                            }
                                            let e = &entries[entries.len() - 1];
                                            match &e.value {
                                                Child::Leaf { .. } => Some(e.key.price),
                                                Child::Inner { .. } => None,
                                            }
                                        },
                                    }
                                },
                            },
                        },
                    },
                },
            },
        }
    }

    /// The best ask price, while the sell side's root is a leaf.
    pub fn best_ask_price(&self) -> (r: Option<u64>)
        ensures
            r == self.best_ask_spec(),
    {
        match self {
            PerpMarket::V1 { market } => match market {
                Market::V1 { order_book, .. } => match order_book {
                    OrderBook::UnifiedV1 { price_time_idx, .. } => match price_time_idx {
                        PriceTimeIndex::V1 { sells, .. } => match sells {
                            BigOrderedMap::BPlusTreeMap { root, .. } => match root {
                                Node::V1 { is_leaf, children, .. } => {
                                    if !*is_leaf {
                                        return None;
                                    }
                                    match children {
                                        OrderedMap::SortedVectorMap { entries } => {
                                            if entries.len() == 0 {
                                                return None;
                                            }
                                            let e = &entries[0];
                                            match &e.value {
                                                Child::Leaf { .. } => Some(e.key.price),
                                                Child::Inner { .. } => None,
                                            }
                                        },
                                    }
                                },
                            },
                        },
                    },
                },
            },
        }
    }

    /// Mutable borrows of the bulk order book and the price-time index.
    pub fn order_book_mut(&mut self) -> ((bulk, index): (&mut BulkOrderBook, &mut PriceTimeIndex))
        ensures
            *bulk == old(self).book()->bulk_order_book,
            *index == old(self).book()->price_time_idx,
            ({
                let m = old(self)->market;
                *final(self) == (PerpMarket::V1 {
                    market: Market::V1 {
                        parent: m->parent,
                        market: m->market,
                        config: m->config,
                        order_book: OrderBook::UnifiedV1 {
                            single_order_book: m->order_book->single_order_book,
                            bulk_order_book: *final(bulk),
                            price_time_idx: *final(index),
                        },
                        secondary_resources_ref: m->secondary_resources_ref,
                    },
                })
            }),
    {
        match self {
            PerpMarket::V1 { market } => match market {
                Market::V1 { order_book, .. } => match order_book {
                    OrderBook::UnifiedV1 { bulk_order_book, price_time_idx, .. } => (bulk_order_book, price_time_idx),
                },
            },
        }
    }

    /// Mutable borrows of the single and bulk order books and the
    /// price-time index.
    pub fn full_order_book_mut(&mut self) -> ((single, bulk, index): (
        &mut SingleOrderBook,
        &mut BulkOrderBook,
        &mut PriceTimeIndex,
    ))
        ensures
            *single == old(self).book()->single_order_book,
            *bulk == old(self).book()->bulk_order_book,
            *index == old(self).book()->price_time_idx,
            ({
                let m = old(self)->market;
                *final(self) == (PerpMarket::V1 {
                    market: Market::V1 {
                        parent: m->parent,
                        market: m->market,
                        config: m->config,
                        order_book: OrderBook::UnifiedV1 {
                            single_order_book: *final(single),
                            bulk_order_book: *final(bulk),
                            price_time_idx: *final(index),
                        },
                        secondary_resources_ref: m->secondary_resources_ref,
                    },
                })
            }),
    {
        match self {
            PerpMarket::V1 { market } => match market {
                Market::V1 { order_book, .. } => match order_book {
                    OrderBook::UnifiedV1 { single_order_book, bulk_order_book, price_time_idx } => (
                        single_order_book,
                        bulk_order_book,
                        price_time_idx,
                    ),
                },
            },
        }
    }

    /// The parent's address and the market's own.
    pub fn parent_and_market_addresses(&self) -> (r: ([u8; 32], [u8; 32]))
        ensures
            r == (self->market->parent, self->market->market),
    {
        match self {
            PerpMarket::V1 { market } => match market {
                Market::V1 { parent, market: market_addr, .. } => (*parent, *market_addr),
            },
        }
    }

    /// Whether the market emits events.
    pub fn allow_events_emission(&self) -> (r: bool)
        ensures
            r == self->market->config->allow_events_emission,
    {
        match self {
            PerpMarket::V1 { market } => match market {
                Market::V1 { config, .. } => match config {
                    MarketConfig::V1 { allow_events_emission, .. } => *allow_events_emission,
                },
            },
        }
    }

    /// Whether an order would cross the book: a buy at or above the best
    /// ask, a sell at or below the best bid; an order with a trigger never
    /// does.
    pub fn is_taker_order(&self, price: u64, is_buy: bool, trigger_condition: &Option<TriggerCondition>) -> (r: bool)
        ensures
            r == (trigger_condition is None && if is_buy {
                match self.best_ask_spec() {
                    Some(a) => price >= a,
                    None => false,
                }
            } else {
                match self.best_bid_spec() {
                    Some(b) => price <= b,
                    None => false,
                }
            }),
    {
        if trigger_condition.is_some() {
            return false;
        }
        if is_buy {
            match self.best_ask_price() {
                Some(best_ask) => price >= best_ask,
                None => false,
            }
        } else {
            match self.best_bid_price() {
                Some(best_bid) => price <= best_bid,
                None => false,
            }
        }
    }
}


/// The key of a request in the matching queue: its time, its priority, and
/// a tie-breaker.
#[derive(Clone, Copy, Debug)]
pub enum PendingRequestKey {
    V1 { time: u64, priority: u8, tie_breaker: u128 },
}

/// A running sum of funding.
#[derive(Clone, Copy, Debug)]
pub struct AccumulativeIndex {
    pub index: i128,
}

/// The price configuration of a market.
#[derive(Clone, Copy, Debug)]
pub enum PriceConfig {
    V1 { size_multiplier: u64, unrealized_pnl_haircut_bps: u64, withdrawable_margin_leverage: u8, max_leverage: u8 },
}

/// The recent prices of a market.
#[derive(Clone, Debug)]
pub enum PriceHistory {
    V1 {
        last_oracle_update_us: u64,
        oracle_px: u64,
        mark_prices: Vec<u64>,
        book_mid_px: u64,
        book_mid_30_ema: MovingAverage,
        ratio_mid_vs_oracle_150_ema: DeviationMovingAverage,
        book_oracle_ratio_cap_bps: u64,
    },
}

/// The mark prices of both sides and the funding index.
#[derive(Clone, Copy, Debug)]
pub enum PriceState {
    V1 { short_mark_px: u64, long_mark_px: u64, accumulative_index: AccumulativeIndex },
}

/// How the instant funding rate is adjusted.
#[allow(non_camel_case_types)]
#[derive(Clone, Copy, Debug)]
pub enum FundingInstantRateAdjustment {
    INSTANT,
}

/// Whether funding is charged continuously or in periods.
#[derive(Clone, Copy, Debug)]
pub enum FundingChargingMode {
    ContinuousV1,
    PeriodicV1 { outstanding_funding_index: AccumulativeIndex, last_funding_charged_us: u64, funding_period_us: u64 },
}

/// The funding state of a market.
#[derive(Clone, Copy, Debug)]
pub enum FundingRateHistory {
    V1 {
        funding_rate_pause_timeout_us: u64,
        last_funding_calculated_us: u64,
        instant_rate_adjustment: FundingInstantRateAdjustment,
        charging_mode: FundingChargingMode,
    },
}

/// All the price records of a market.
#[derive(Clone, Debug)]
pub enum PriceDetails {
    V1 {
        price_config: PriceConfig,
        price_history: PriceHistory,
        price_state: PriceState,
        funding_rate_history: FundingRateHistory,
    },
}

/// The identifier of a price feed.
#[derive(Clone, Debug)]
pub struct PriceIdentifier {
    pub bytes: Vec<u8>,
}

/// The interest and premium rates that funding is computed from.
#[derive(Clone, Copy, Debug)]
pub enum PriceIndexStore {
    V1 { interest_rate: u64 },
    V2 {
        daily_interest_rate: u64,
        daily_premium_rate: u64,
        daily_rate_at_zero_diff: u64,
        max_rate_as_fraction_of_initial_margin: u64,
    },
}

/// The step of the matching queue that an acknowledgement is for.
#[derive(Clone, Copy, Debug)]
pub enum AckPhase {
    BackstopLiquidation,
    MarginCall,
    CheckADL,
    TriggerADL,
    CommitMarkPrice,
    QueueBackstopLiquidationsAndADL,
    QueueMarginCallLiquidations,
    InitialEnqueue,
}

/// The funding part of a price update.
#[derive(Clone, Copy, Debug)]
pub enum PriceFundingUpdateDetails {
    V1 {
        funding_index: i128,
        funding_timestamp_us: u64,
        outstanding_funding_index: i128,
        outstanding_funding_timestamp_us: u64,
        funding_period_us: u64,
        instant_daily_funding_rate: i64,
    },
}

/// What a trade does to a position.
#[derive(Clone, Copy, Debug)]
pub enum Action {
    OpenLong,
    CloseLong,
    OpenShort,
    CloseShort,
}

/// What a trade came from.
#[allow(non_camel_case_types)]
#[derive(Clone, Copy, Debug)]
pub enum TradeTriggerSource {
    OrderFill,
    MarginCall,
    BackStopLiquidation,
    ADL,
    MarketDelisted,
}


impl TreeKey for PendingUpOrderKey {
    open spec fn key_lt(self, other: Self) -> bool {
        self.price < other.price || (self.price == other.price && self.tie_breaker.idx
            < other.tie_breaker.idx)
    }

    proof fn lemma_key_lt_irreflexive(a: Self) {
    }

    proof fn lemma_key_lt_transitive(a: Self, b: Self, c: Self) {
    }

    proof fn lemma_key_lt_total(a: Self, b: Self) {
    }

    fn compare_to(&self, other: &Self) -> (r: KeyOrder) {
        if self.price < other.price {
            KeyOrder::Less
        } else if self.price > other.price {
            KeyOrder::Greater
        } else if self.tie_breaker.idx < other.tie_breaker.idx {
            KeyOrder::Less
        } else if self.tie_breaker.idx > other.tie_breaker.idx {
            KeyOrder::Greater
        } else {
            KeyOrder::Equal
        }
    }
}

impl TreeKey for PendingDownOrderKey {
    open spec fn key_lt(self, other: Self) -> bool {
        self.price < other.price || (self.price == other.price && self.tie_breaker.idx
            < other.tie_breaker.idx)
    }

    proof fn lemma_key_lt_irreflexive(a: Self) {
    }

    proof fn lemma_key_lt_transitive(a: Self, b: Self, c: Self) {
    }

    proof fn lemma_key_lt_total(a: Self, b: Self) {
    }

    fn compare_to(&self, other: &Self) -> (r: KeyOrder) {
        if self.price < other.price {
            KeyOrder::Less
        } else if self.price > other.price {
            KeyOrder::Greater
        } else if self.tie_breaker.idx < other.tie_breaker.idx {
            KeyOrder::Less
        } else if self.tie_breaker.idx > other.tie_breaker.idx {
            KeyOrder::Greater
        } else {
            KeyOrder::Equal
        }
    }
}

impl TreeKey for PendingTimeKey {
    open spec fn key_lt(self, other: Self) -> bool {
        self.time < other.time || (self.time == other.time && self.tie_breaker.idx < other.tie_breaker.idx)
    }

    proof fn lemma_key_lt_irreflexive(a: Self) {
    }

    proof fn lemma_key_lt_transitive(a: Self, b: Self, c: Self) {
    }

    proof fn lemma_key_lt_total(a: Self, b: Self) {
    }

    fn compare_to(&self, other: &Self) -> (r: KeyOrder) {
        if self.time < other.time {
            KeyOrder::Less
        } else if self.time > other.time {
            KeyOrder::Greater
        } else if self.tie_breaker.idx < other.tie_breaker.idx {
            KeyOrder::Less
        } else if self.tie_breaker.idx > other.tie_breaker.idx {
            KeyOrder::Greater
        } else {
            KeyOrder::Equal
        }
    }
}

} // verus!
