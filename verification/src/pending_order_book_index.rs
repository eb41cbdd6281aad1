//! The orders that wait for a trigger: those that fire when the price
//! rises to a level, when it falls to a level, or at a time; and the
//! taking of the orders whose trigger has come.
use vstd::prelude::*;
use crate::bcs_types::{PendingDownOrderKey, PendingTimeKey, PendingUpOrderKey};
use crate::big_ordered_map::{
    lemma_sorted_find, lemma_sorted_index_is_bound_pub, remove_entries, sorted_keys, Entry, TreeKey,
};
use crate::order_book_types::{
    get_trigger_condition_indices, into_decreasing_idx_type, DecreasingIdx, IncreasingIdx, OrderId,
    TriggerCondition,
};
use crate::order_book_utils::BigOrderedMap;

verus! {

/// The waiting orders, indexed by the price they wait for (falling or
/// rising) or by the time.
pub enum PendingOrderBookIndex {
    V1 {
        price_move_down_index: BigOrderedMap<PendingDownOrderKey, OrderId>,
        price_move_up_index: BigOrderedMap<PendingUpOrderKey, OrderId>,
        time_based_index: BigOrderedMap<PendingTimeKey, OrderId>,
    },
}

impl PendingOrderBookIndex {
    pub open spec fn down_map(self) -> BigOrderedMap<PendingDownOrderKey, OrderId> {
        self->price_move_down_index
    }

    pub open spec fn up_map(self) -> BigOrderedMap<PendingUpOrderKey, OrderId> {
        self->price_move_up_index
    }

    pub open spec fn time_map(self) -> BigOrderedMap<PendingTimeKey, OrderId> {
        self->time_based_index
    }

    /// All three indices are sorted.
    pub open spec fn wf(self) -> bool {
        self.down_map().wf() && self.up_map().wf() && self.time_map().wf()
    }
}

/// The order ids of the entries, in order.
pub open spec fn values_of<K>(s: Seq<Entry<K, OrderId>>) -> Seq<OrderId> {
    s.map_values(|e: Entry<K, OrderId>| e.value)
}

/// The order ids of the last `t` entries, the last first.
pub open spec fn values_from_back<K>(s: Seq<Entry<K, OrderId>>, t: nat) -> Seq<OrderId> {
    Seq::new(t, |i: int| s[s.len() - 1 - i].value)
}

/// The number of leading entries waiting for a rise to at most `price`.
pub open spec fn ready_up_count(s: Seq<Entry<PendingUpOrderKey, OrderId>>, price: u64) -> nat
    decreases s.len(),
{
    if s.len() == 0 || s[0].key.price > price {
        0
    } else {
        1 + ready_up_count(s.drop_first(), price)
    }
}

/// The number of leading entries waiting for a time at most `time`.
pub open spec fn ready_time_count(s: Seq<Entry<PendingTimeKey, OrderId>>, time: u64) -> nat
    decreases s.len(),
{
    if s.len() == 0 || s[0].key.time > time {
        0
    } else {
        1 + ready_time_count(s.drop_first(), time)
    }
}

/// The number of trailing entries waiting for a fall to at least `price`.
pub open spec fn ready_down_count(s: Seq<Entry<PendingDownOrderKey, OrderId>>, price: u64) -> nat
    decreases s.len(),
{
    if s.len() == 0 || s.last().key.price < price {
        0
    } else {
        1 + ready_down_count(s.drop_last(), price)
    }
}

/// How many of `ready` orders fit after `already` taken, under `limit`.
pub open spec fn take_count(ready: nat, already: int, limit: u64) -> nat {
    if already >= limit {
        0
    } else if ready < limit - already {
        ready
    } else {
        (limit - already) as nat
    }
}

proof fn lemma_remove_front<K: TreeKey, C>(s: Seq<Entry<K, C>>)
    requires
        sorted_keys(s),
        s.len() > 0,
    ensures
        remove_entries(s, s[0].key) == s.drop_first(),
{
    lemma_sorted_find(s, s[0].key);
    lemma_sorted_index_is_bound_pub(s, s[0].key, 0);
    assert(s.remove(0) =~= s.drop_first());
}

proof fn lemma_remove_back<K: TreeKey, C>(s: Seq<Entry<K, C>>)
    requires
        sorted_keys(s),
        s.len() > 0,
    ensures
        remove_entries(s, s.last().key) == s.drop_last(),
{
    lemma_sorted_find(s, s.last().key);
    lemma_sorted_index_is_bound_pub(s, s.last().key, s.len() - 1);
    assert(s.remove(s.len() - 1) =~= s.drop_last());
}

/// A new index with nothing waiting.
pub fn new_pending_order_book_index() -> (r: PendingOrderBookIndex)
    ensures
        r.wf(),
        r.down_map()@ == Map::<PendingDownOrderKey, OrderId>::empty(),
        r.up_map()@ == Map::<PendingUpOrderKey, OrderId>::empty(),
        r.time_map()@ == Map::<PendingTimeKey, OrderId>::empty(),
{
    PendingOrderBookIndex::V1 {
        price_move_down_index: BigOrderedMap::new(),
        price_move_up_index: BigOrderedMap::new(),
        time_based_index: BigOrderedMap::new(),
    }
}

/// The key under which an order waiting for a rise to `price` stands.
pub open spec fn up_key(price: u64, idx: IncreasingIdx) -> PendingUpOrderKey {
    PendingUpOrderKey { price, tie_breaker: idx }
}

/// The key under which an order waiting for a fall to `price` stands.
pub open spec fn down_key(price: u64, idx: IncreasingIdx) -> PendingDownOrderKey {
    PendingDownOrderKey { price, tie_breaker: DecreasingIdx { idx: (u128::MAX - idx.idx) as u128 } }
}

/// The key under which an order waiting for `time` stands.
pub open spec fn time_key(time: u64, idx: IncreasingIdx) -> PendingTimeKey {
    PendingTimeKey { time, tie_breaker: idx }
}

/// Whether the order of a trigger condition waits in the index.
pub open spec fn is_waiting(index: PendingOrderBookIndex, trigger: TriggerCondition, idx: IncreasingIdx) -> bool {
    match trigger {
        TriggerCondition::PriceMoveAbove(p) => index.up_map()@.contains_key(up_key(p, idx)),
        TriggerCondition::PriceMoveBelow(p) => index.down_map()@.contains_key(down_key(p, idx)),
        TriggerCondition::TimeBased(t) => index.time_map()@.contains_key(time_key(t, idx)),
    }
}

/// Takes a waiting order out of the index; it must be there.
pub fn cancel_pending_order(
    index: &mut PendingOrderBookIndex,
    trigger_condition: TriggerCondition,
    unique_priority_idx: IncreasingIdx,
)
    requires
        old(index).wf(),
        is_waiting(*old(index), trigger_condition, unique_priority_idx),
    ensures
        final(index).wf(),
        final(index).up_map()@ == match trigger_condition {
            TriggerCondition::PriceMoveAbove(p) => old(index).up_map()@.remove(up_key(p, unique_priority_idx)),
            _ => old(index).up_map()@,
        },
        final(index).down_map()@ == match trigger_condition {
            TriggerCondition::PriceMoveBelow(p) => old(index).down_map()@.remove(down_key(p, unique_priority_idx)),
            _ => old(index).down_map()@,
        },
        final(index).time_map()@ == match trigger_condition {
            TriggerCondition::TimeBased(t) => old(index).time_map()@.remove(time_key(t, unique_priority_idx)),
            _ => old(index).time_map()@,
        },
{
    match index {
        PendingOrderBookIndex::V1 { price_move_down_index, price_move_up_index, time_based_index } => {
            let (price_move_down, price_move_up, time_based) = get_trigger_condition_indices(&trigger_condition);
            if let Some(price) = price_move_up {
                let key = PendingUpOrderKey { price, tie_breaker: unique_priority_idx };
                price_move_up_index.remove(&key);
            }
            if let Some(price) = price_move_down {
                let key = PendingDownOrderKey {
                    price,
                    tie_breaker: into_decreasing_idx_type(&unique_priority_idx),
                };
                price_move_down_index.remove(&key);
            }
            if let Some(time) = time_based {
                let key = PendingTimeKey { time, tie_breaker: unique_priority_idx };
                time_based_index.remove(&key);
            }
        },
    }
}

/// Puts an order into the index that its trigger condition names.
pub fn place_pending_order(
    index: &mut PendingOrderBookIndex,
    order_id: OrderId,
    trigger_condition: TriggerCondition,
    unique_priority_idx: IncreasingIdx,
)
    requires
        old(index).wf(),
    ensures
        final(index).wf(),
        final(index).up_map()@ == match trigger_condition {
            TriggerCondition::PriceMoveAbove(p) => old(index).up_map()@.insert(up_key(p, unique_priority_idx), order_id),
            _ => old(index).up_map()@,
        },
        final(index).down_map()@ == match trigger_condition {
            TriggerCondition::PriceMoveBelow(p) => old(index).down_map()@.insert(
                down_key(p, unique_priority_idx),
                order_id,
            ),
            _ => old(index).down_map()@,
        },
        final(index).time_map()@ == match trigger_condition {
            TriggerCondition::TimeBased(t) => old(index).time_map()@.insert(time_key(t, unique_priority_idx), order_id),
            _ => old(index).time_map()@,
        },
{
    match index {
        PendingOrderBookIndex::V1 { price_move_down_index, price_move_up_index, time_based_index } => {
            let (price_move_down, price_move_up, time_based) = get_trigger_condition_indices(&trigger_condition);
            if let Some(price) = price_move_up {
                price_move_up_index.add(PendingUpOrderKey { price, tie_breaker: unique_priority_idx }, order_id);
            } else if let Some(price) = price_move_down {
                price_move_down_index.add(
                    PendingDownOrderKey { price, tie_breaker: into_decreasing_idx_type(&unique_priority_idx) },
                    order_id,
                );
            } else if let Some(time) = time_based {
                time_based_index.add(PendingTimeKey { time, tie_breaker: unique_priority_idx }, order_id);
            }
        },
    }
}

fn take_ready_price_move_up_orders(
    price_move_up_index: &mut BigOrderedMap<PendingUpOrderKey, OrderId>,
    current_price: u64,
    orders: &mut Vec<OrderId>,
    limit: u64,
)
    requires
        old(price_move_up_index).wf(),
    ensures
        ({
            let s = old(price_move_up_index).entry_seq();
            let t = take_count(ready_up_count(s, current_price), old(orders)@.len() as int, limit);
            &&& final(price_move_up_index).wf()
            &&& final(price_move_up_index).entry_seq() == s.skip(t as int)
            &&& final(orders)@ == old(orders)@ + values_of(s.take(t as int))
            &&& final(orders)@.len() == old(orders)@.len() + t
            &&& t <= s.len()
        }),
{
    let ghost s = price_move_up_index.entry_seq();
    let ghost o = orders@;
    let ghost mut t: int = 0;
    let mut done = false;
    assert(s.skip(0) =~= s);
    assert(values_of(s.take(0)) =~= Seq::<OrderId>::empty());
    while !done && !price_move_up_index.is_empty() && (orders.len() as u64) < limit
        invariant
            price_move_up_index.wf(),
            0 <= t <= s.len(),
            price_move_up_index.entry_seq() == s.skip(t),
            orders@ == o + values_of(s.take(t)),
            ready_up_count(s, current_price) == t + ready_up_count(s.skip(t), current_price),
            done ==> ready_up_count(s.skip(t), current_price) == 0,
            o.len() < limit || t == 0,
            t > 0 ==> o.len() + t <= limit,
        decreases s.len() - t + (if done { 0int } else { 1int }),
    {
        let (k, v) = price_move_up_index.borrow_front();
        let key = *k;
        let order_id = *v;
        proof {
            assert(s.skip(t)[0] == s[t]);
        }
        if current_price >= key.price {
            orders.push(order_id);
            proof {
                lemma_remove_front(s.skip(t));
                assert(s.skip(t).drop_first() =~= s.skip(t + 1));
                assert(values_of(s.take(t + 1)) =~= values_of(s.take(t)).push(s[t].value));
                t = t + 1;
            }
            price_move_up_index.remove(&key);
        } else {
            done = true;
        }
    }
}

fn take_ready_price_move_down_orders(
    price_move_down_index: &mut BigOrderedMap<PendingDownOrderKey, OrderId>,
    current_price: u64,
    orders: &mut Vec<OrderId>,
    limit: u64,
)
    requires
        old(price_move_down_index).wf(),
    ensures
        ({
            let s = old(price_move_down_index).entry_seq();
            let t = take_count(ready_down_count(s, current_price), old(orders)@.len() as int, limit);
            &&& final(price_move_down_index).wf()
            &&& final(price_move_down_index).entry_seq() == s.take(s.len() - t)
            &&& final(orders)@ == old(orders)@ + values_from_back(s, t)
            &&& final(orders)@.len() == old(orders)@.len() + t
            &&& t <= s.len()
        }),
{
    let ghost s = price_move_down_index.entry_seq();
    let ghost o = orders@;
    let ghost mut t: int = 0;
    let mut done = false;
    assert(s.take(s.len() as int) =~= s);
    assert(values_from_back(s, 0) =~= Seq::<OrderId>::empty());
    while !done && !price_move_down_index.is_empty() && (orders.len() as u64) < limit
        invariant
            price_move_down_index.wf(),
            0 <= t <= s.len(),
            price_move_down_index.entry_seq() == s.take(s.len() - t),
            orders@ == o + values_from_back(s, t as nat),
            ready_down_count(s, current_price) == t + ready_down_count(s.take(s.len() - t), current_price),
            done ==> ready_down_count(s.take(s.len() - t), current_price) == 0,
            o.len() < limit || t == 0,
            t > 0 ==> o.len() + t <= limit,
        decreases s.len() - t + (if done { 0int } else { 1int }),
    {
        let (k, v) = price_move_down_index.borrow_back();
        let key = *k;
        let order_id = *v;
        if current_price <= key.price {
            orders.push(order_id);
            proof {
                let rest = s.take(s.len() - t);
                lemma_remove_back(rest);
                assert(rest.drop_last() =~= s.take(s.len() - (t + 1)));
                assert(values_from_back(s, (t + 1) as nat) =~= values_from_back(s, t as nat).push(rest.last().value));
                t = t + 1;
            }
            price_move_down_index.remove(&key);
        } else {
            done = true;
        }
    }
}

/// Takes, in priority order, the orders whose price trigger has come at
/// `current_price`: first rises up to half the limit (rounded up), then
/// falls up to the limit, then rises again to fill what is left.
pub fn take_ready_price_based_orders(index: &mut PendingOrderBookIndex, current_price: u64, order_limit: u64) -> (r:
    Vec<OrderId>)
    requires
        old(index).wf(),
        order_limit < u64::MAX,
    ensures
        ({
            let up = old(index).up_map().entry_seq();
            let down = old(index).down_map().entry_seq();
            let half = ((order_limit + 1) / 2) as u64;
            let t1 = take_count(ready_up_count(up, current_price), 0, half);
            let t2 = take_count(ready_down_count(down, current_price), t1 as int, order_limit);
            let t3 = take_count(ready_up_count(up.skip(t1 as int), current_price), (t1 + t2) as int, order_limit);
            &&& r@ == values_of(up.take(t1 as int)) + values_from_back(down, t2) + values_of(
                up.skip(t1 as int).take(t3 as int),
            )
            &&& final(index).up_map().entry_seq() == up.skip(t1 as int).skip(t3 as int)
            &&& final(index).down_map().entry_seq() == down.take(down.len() - t2)
            &&& final(index).time_map() == old(index).time_map()
            &&& final(index).wf()
        }),
{
    match index {
        PendingOrderBookIndex::V1 { price_move_down_index, price_move_up_index, .. } => {
            let mut orders: Vec<OrderId> = Vec::new();
            let half_limit = (order_limit + 1) / 2;
            take_ready_price_move_up_orders(price_move_up_index, current_price, &mut orders, half_limit);
            take_ready_price_move_down_orders(price_move_down_index, current_price, &mut orders, order_limit);
            take_ready_price_move_up_orders(price_move_up_index, current_price, &mut orders, order_limit);
            proof {
                assert(Seq::<OrderId>::empty() + values_of(
                    old(index).up_map().entry_seq().take(
                        take_count(ready_up_count(old(index).up_map().entry_seq(), current_price), 0, half_limit)
                            as int,
                    ),
                ) =~= values_of(
                    old(index).up_map().entry_seq().take(
                        take_count(ready_up_count(old(index).up_map().entry_seq(), current_price), 0, half_limit)
                            as int,
                    ),
                ));
            }
            orders
        },
    }
}

/// Takes, in time order, the orders whose time has come at
/// `current_time_secs`, up to the limit.
pub fn take_ready_time_based_orders(index: &mut PendingOrderBookIndex, order_limit: u64, current_time_secs: u64) -> (r:
    Vec<OrderId>)
    requires
        old(index).wf(),
    ensures
        ({
            let s = old(index).time_map().entry_seq();
            let t = take_count(ready_time_count(s, current_time_secs), 0, order_limit);
            &&& r@ == values_of(s.take(t as int))
            &&& final(index).time_map().entry_seq() == s.skip(t as int)
            &&& final(index).up_map() == old(index).up_map()
            &&& final(index).down_map() == old(index).down_map()
            &&& final(index).wf()
        }),
{
    match index {
        PendingOrderBookIndex::V1 { time_based_index, .. } => {
            let mut orders: Vec<OrderId> = Vec::new();
            let ghost s = time_based_index.entry_seq();
            let ghost mut t: int = 0;
            let mut done = false;
            assert(s.skip(0) =~= s);
            assert(values_of(s.take(0)) =~= Seq::<OrderId>::empty());
            while !done && !time_based_index.is_empty() && (orders.len() as u64) < order_limit
                invariant
                    time_based_index.wf(),
                    0 <= t <= s.len(),
                    time_based_index.entry_seq() == s.skip(t),
                    orders@ == values_of(s.take(t)),
                    ready_time_count(s, current_time_secs) == t + ready_time_count(s.skip(t), current_time_secs),
                    done ==> ready_time_count(s.skip(t), current_time_secs) == 0,
                    t <= order_limit,
                decreases s.len() - t + (if done { 0int } else { 1int }),
            {
                let (k, v) = time_based_index.borrow_front();
                let key = *k;
                let order_id = *v;
                proof {
                    assert(s.skip(t)[0] == s[t]);
                }
                if current_time_secs >= key.time {
                    orders.push(order_id);
                    proof {
                        lemma_remove_front(s.skip(t));
                        assert(s.skip(t).drop_first() =~= s.skip(t + 1));
                        assert(values_of(s.take(t + 1)) =~= values_of(s.take(t)).push(s[t].value));
                        t = t + 1;
                    }
                    time_based_index.remove(&key);
                } else {
                    done = true;
                }
            }
            orders
        },
    }
}

/// The index of orders waiting for a fall.
pub fn get_price_move_down_index(index: &PendingOrderBookIndex) -> (r: &BigOrderedMap<PendingDownOrderKey, OrderId>)
    ensures
        *r == index.down_map(),
{
    match index {
        PendingOrderBookIndex::V1 { price_move_down_index, .. } => price_move_down_index,
    }
}

/// The index of orders waiting for a rise.
pub fn get_price_move_up_index(index: &PendingOrderBookIndex) -> (r: &BigOrderedMap<PendingUpOrderKey, OrderId>)
    ensures
        *r == index.up_map(),
{
    match index {
        PendingOrderBookIndex::V1 { price_move_up_index, .. } => price_move_up_index,
    }
}

/// The index of orders waiting for a time.
pub fn get_time_based_index(index: &PendingOrderBookIndex) -> (r: &BigOrderedMap<PendingTimeKey, OrderId>)
    ensures
        *r == index.time_map(),
{
    match index {
        PendingOrderBookIndex::V1 { time_based_index, .. } => time_based_index,
    }
}

} // verus!
