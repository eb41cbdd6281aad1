//! Per-account, per-market tracking of resting orders: the size and
//! notional of pending longs and shorts (single and bulk), the margin that
//! they reserve, reduce-only orders, and (where enabled) the sizes of the
//! individual orders by id.
use vstd::prelude::*;
use crate::addr_map::AddrMap;
use crate::order_book_types::OrderId;

verus! {

pub const EINVALID_ADDRESS: u64 = 1;

pub const E_MARKET_NOT_FOUND: u64 = 2;

pub const E_INVALID_ORDER_CLEANUP_SIZE: u64 = 3;

pub const E_INVALID_REDUCE_ONLY_ORDER: u64 = 4;

pub const EINVALID_TRIGGER_PRICE: u64 = 5;

pub const EMAX_FIXED_SIZED_PENDING_REQS_HIT: u64 = 6;

pub const EINVALID_TP_SL_SIZE: u64 = 7;

pub const E_ORDER_BASED_TP_SL_COUNT_UNDERFLOW: u64 = 8;

pub const E_PENDING_ORDERS_EXIST: u64 = 9;

pub const E_GLOBAL_SUMMARY_NOT_FOUND: u64 = 10;

pub const MAX_REDUCE_ONLY_ORDERS_PER_MARKET: u8 = 10;

pub const MAX_FIXED_SIZED_PENDING_REQS_PER_POSITION: u64 = 5;

pub const MAX_ORDER_BASED_TP_SL_PER_MARKET: u64 = 5;

/// The resting orders on one side: the sum of size times limit price, and
/// the sum of sizes.
#[derive(Clone, Copy, Debug, PartialEq, Eq, Structural)]
pub enum PendingOrderSummary {
    V1 { price_size_sum: u128, size_sum: u64 },
}

#[derive(Clone, Copy, Debug, PartialEq, Eq, Structural)]
pub enum ReduceOnlyOrderInfo {
    V1 { order_id: OrderId, size: u64 },
}

/// The reduce-only orders of a market: their total size, and each order.
#[derive(Clone, Debug)]
pub struct ReduceOnlyOrders {
    pub total_size: u64,
    pub orders: Vec<ReduceOnlyOrderInfo>,
}

/// A take-profit or stop-loss request, by the order it belongs to.
#[derive(Clone, Copy, Debug, PartialEq, Eq, Structural)]
pub enum PendingTpSlKey {
    V1 { order_id: OrderId },
}

#[derive(Clone, Debug)]
pub enum PendingTpSLs {
    V1 {
        full_sized: Option<PendingTpSlKey>,
        fixed_sized: Vec<PendingTpSlKey>,
        pending_order_based_tp_sl_count: u64,
    },
}

#[derive(Clone, Copy, Debug)]
pub enum TrackedOrderInfo {
    V1 { market: [u8; 32], order_id: OrderId, size: u64 },
}

#[derive(Clone, Copy, Debug)]
pub enum PendingTpSlInfo {
    V1 {
        order_id: OrderId,
        trigger_price: u64,
        account: [u8; 32],
        limit_price: Option<u64>,
        size: Option<u64>,
    },
}

#[derive(Clone, Copy, Debug)]
pub enum FullSizedTpSlForEvent {
    V1 { order_id: u128, trigger_price: u64, limit_price: Option<u64> },
}

#[derive(Clone, Copy, Debug)]
pub enum FixedSizedTpSlForEvent {
    V1 { order_id: u128, trigger_price: u64, limit_price: Option<u64>, size: u64 },
}

// ------------------------------------------------------------------
// Order sizes by order id, kept in increasing id order.
// ------------------------------------------------------------------
/// Whether the ids of the entries increase strictly.
pub open spec fn ids_increasing(s: Seq<(u128, u64)>) -> bool {
    forall|i: int, j: int| 0 <= i < j < s.len() ==> s[i].0 < s[j].0
}

/// The size recorded for `id`, if any.
pub open spec fn size_of_id(s: Seq<(u128, u64)>, id: u128) -> Option<u64>
    decreases s.len(),
{
    if s.len() == 0 {
        None
    } else if s[0].0 == id {
        Some(s[0].1)
    } else {
        size_of_id(s.drop_first(), id)
    }
}

/// The sizes of the tracked orders of one market, by order id, in increasing
/// id order.
#[derive(Clone, Debug)]
pub struct TrackedOrderSizes {
    entries: Vec<(u128, u64)>,
}

proof fn lemma_size_of_id_absent(s: Seq<(u128, u64)>, id: u128)
    requires
        forall|i: int| 0 <= i < s.len() ==> s[i].0 != id,
    ensures
        size_of_id(s, id) is None,
    decreases s.len(),
{
    if s.len() > 0 {
        lemma_size_of_id_absent(s.drop_first(), id);
    }
}

proof fn lemma_size_of_id_at(s: Seq<(u128, u64)>, i: int)
    requires
        ids_increasing(s),
        0 <= i < s.len(),
    ensures
        size_of_id(s, s[i].0) == Some(s[i].1),
    decreases s.len(),
{
    if i > 0 {
        assert(ids_increasing(s.drop_first()));
        lemma_size_of_id_at(s.drop_first(), i - 1);
        assert(s[0].0 < s[i].0);
    }
}

proof fn lemma_size_of_id_index(s: Seq<(u128, u64)>, id: u128)
    requires
        ids_increasing(s),
    ensures
        size_of_id(s, id) is None <==> forall|i: int| 0 <= i < s.len() ==> s[i].0 != id,
{
    if exists|i: int| 0 <= i < s.len() && s[i].0 == id {
        let i = choose|i: int| 0 <= i < s.len() && s[i].0 == id;
        lemma_size_of_id_at(s, i);
    } else {
        lemma_size_of_id_absent(s, id);
    }
}

impl TrackedOrderSizes {
    /// The entries, in increasing id order.
    pub closed spec fn entries(&self) -> Seq<(u128, u64)> {
        self.entries@
    }

    pub closed spec fn wf(&self) -> bool {
        ids_increasing(self.entries@)
    }

    /// The size recorded for an order id.
    pub open spec fn size_of(&self, id: u128) -> Option<u64> {
        size_of_id(self.entries(), id)
    }

    pub fn new() -> (r: Self)
        ensures
            r.wf(),
            r.entries() == Seq::<(u128, u64)>::empty(),
    {
        TrackedOrderSizes { entries: Vec::new() }
    }

    pub fn len(&self) -> (r: usize)
        ensures
            r == self.entries().len(),
    {
        self.entries.len()
    }

    pub fn entry_at(&self, i: usize) -> (r: (u128, u64))
        requires
            i < self.entries().len(),
        ensures
            r == self.entries()[i as int],
    {
        self.entries[i]
    }

    /// The first position whose id is not below `id`.
    fn lower_bound(&self, id: u128) -> (r: usize)
        requires
            self.wf(),
        ensures
            r <= self.entries@.len(),
            forall|j: int| 0 <= j < r ==> self.entries@[j].0 < id,
            r < self.entries@.len() ==> self.entries@[r as int].0 >= id,
    {
        let mut i: usize = 0;
        while i < self.entries.len()
            invariant
                i <= self.entries@.len(),
                forall|j: int| 0 <= j < i ==> self.entries@[j].0 < id,
            decreases self.entries@.len() - i,
        {
            if self.entries[i].0 >= id {
                return i;
            }
            i += 1;
        }
        i
    }

    /// The size recorded for `id`.
    pub fn get(&self, id: u128) -> (r: Option<u64>)
        requires
            self.wf(),
        ensures
            r == self.size_of(id),
    {
        let p = self.lower_bound(id);
        if p < self.entries.len() && self.entries[p].0 == id {
            proof {
                lemma_size_of_id_at(self.entries@, p as int);
            }
            Some(self.entries[p].1)
        } else {
            proof {
                assert forall|j: int| 0 <= j < self.entries@.len() implies self.entries@[j].0
                    != id by {
                    if j >= p {
                        assert(self.entries@[p as int].0 <= self.entries@[j].0);
                    }
                }
                lemma_size_of_id_absent(self.entries@, id);
            }
            None
        }
    }

    /// Records `size` for `id`, in place of any size recorded before.
    pub fn insert(&mut self, id: u128, size: u64)
        requires
            old(self).wf(),
        ensures
            final(self).wf(),
            final(self).size_of(id) == Some(size),
            forall|k: u128| k != id ==> #[trigger] final(self).size_of(k) == old(self).size_of(k),
    {
        let p = self.lower_bound(id);
        let ghost old_s = self.entries@;
        if p < self.entries.len() && self.entries[p].0 == id {
            self.entries.set(p, (id, size));
            proof {
                let s = self.entries@;
                assert(s == old_s.update(p as int, (id, size)));
                assert(ids_increasing(s));
                lemma_size_of_id_at(s, p as int);
                assert forall|k: u128| k != id implies #[trigger] size_of_id(s, k) == size_of_id(
                    old_s,
                    k,
                ) by {
                    lemma_size_of_id_index(s, k);
                    lemma_size_of_id_index(old_s, k);
                    if exists|i: int| 0 <= i < s.len() && s[i].0 == k {
                        let i = choose|i: int| 0 <= i < s.len() && s[i].0 == k;
                        lemma_size_of_id_at(s, i);
                        lemma_size_of_id_at(old_s, i);
                    } else {
                        assert forall|i: int| 0 <= i < old_s.len() implies old_s[i].0 != k by {
                            if i != p {
                                assert(s[i] == old_s[i]);
                            }
                        }
                    }
                }
            }
        } else {
            self.entries.insert(p, (id, size));
            proof {
                let s = self.entries@;
                assert(s == old_s.insert(p as int, (id, size)));
                assert forall|a: int, b: int| 0 <= a < b < s.len() implies s[a].0 < s[b].0 by {
                    if b < p {
                    } else if b == p {
                    } else if a < p {
                        assert(s[b] == old_s[b - 1]);
                        assert(old_s[p as int].0 >= id);
                        assert(old_s[p as int].0 <= old_s[b - 1].0);
                    } else if a == p {
                        assert(s[b] == old_s[b - 1]);
                        assert(old_s[p as int].0 != id);
                        assert(old_s[p as int].0 <= old_s[b - 1].0);
                    } else {
                        assert(s[a] == old_s[a - 1]);
                        assert(s[b] == old_s[b - 1]);
                    }
                }
                assert(ids_increasing(s));
                assert(s[p as int] == (id, size));
                lemma_size_of_id_at(s, p as int);
                assert forall|k: u128| k != id implies #[trigger] size_of_id(s, k) == size_of_id(
                    old_s,
                    k,
                ) by {
                    lemma_size_of_id_index(s, k);
                    lemma_size_of_id_index(old_s, k);
                    if exists|i: int| 0 <= i < s.len() && s[i].0 == k {
                        let i = choose|i: int| 0 <= i < s.len() && s[i].0 == k;
                        lemma_size_of_id_at(s, i);
                        let i0 = if i < p { i } else { i - 1 };
                        assert(old_s[i0] == s[i]);
                        lemma_size_of_id_at(old_s, i0);
                    } else {
                        assert forall|i: int| 0 <= i < old_s.len() implies old_s[i].0 != k by {
                            let i1 = if i < p { i } else { i + 1 };
                            assert(s[i1] == old_s[i]);
                        }
                    }
                }
            }
        }
    }

    /// Forgets `id`.
    pub fn remove(&mut self, id: u128)
        requires
            old(self).wf(),
        ensures
            final(self).wf(),
            final(self).size_of(id) is None,
            forall|k: u128| k != id ==> #[trigger] final(self).size_of(k) == old(self).size_of(k),
    {
        let p = self.lower_bound(id);
        let ghost old_s = self.entries@;
        if p < self.entries.len() && self.entries[p].0 == id {
            self.entries.remove(p);
            proof {
                let s = self.entries@;
                assert(s == old_s.remove(p as int));
                assert forall|a: int, b: int| 0 <= a < b < s.len() implies s[a].0 < s[b].0 by {
                    let a0 = if a < p { a } else { a + 1 };
                    let b0 = if b < p { b } else { b + 1 };
                    assert(s[a] == old_s[a0]);
                    assert(s[b] == old_s[b0]);
                }
                assert forall|i: int| 0 <= i < s.len() implies s[i].0 != id by {
                    let i0 = if i < p { i } else { i + 1 };
                    assert(s[i] == old_s[i0]);
                }
                lemma_size_of_id_absent(s, id);
                assert forall|k: u128| k != id implies #[trigger] size_of_id(s, k) == size_of_id(
                    old_s,
                    k,
                ) by {
                    lemma_size_of_id_index(s, k);
                    lemma_size_of_id_index(old_s, k);
                    if exists|i: int| 0 <= i < s.len() && s[i].0 == k {
                        let i = choose|i: int| 0 <= i < s.len() && s[i].0 == k;
                        lemma_size_of_id_at(s, i);
                        let i0 = if i < p { i } else { i + 1 };
                        assert(old_s[i0] == s[i]);
                        lemma_size_of_id_at(old_s, i0);
                    } else {
                        assert forall|i: int| 0 <= i < old_s.len() implies old_s[i].0 != k by {
                            if i != p {
                                let i1 = if i < p { i } else { i - 1 };
                                assert(s[i1] == old_s[i]);
                            }
                        }
                    }
                }
            }
        } else {
            proof {
                assert forall|j: int| 0 <= j < old_s.len() implies old_s[j].0 != id by {
                    if j >= p {
                        assert(old_s[p as int].0 <= old_s[j].0);
                    }
                }
                lemma_size_of_id_absent(old_s, id);
            }
        }
    }
}

// ------------------------------------------------------------------
// Side summaries and the margin they reserve.
// ------------------------------------------------------------------
/// The summary of a side with nothing on it.
pub open spec fn empty_summary() -> PendingOrderSummary {
    PendingOrderSummary::V1 { price_size_sum: 0, size_sum: 0 }
}

/// Whether `size` at `price` can be added to a side without overflow.
pub open spec fn can_add(s: PendingOrderSummary, size: u64, price: u64) -> bool {
    &&& s->price_size_sum + size * price <= u128::MAX
    &&& s->size_sum + size <= u64::MAX
}

/// The side after adding `size` at `price`.
pub open spec fn added(s: PendingOrderSummary, size: u64, price: u64) -> PendingOrderSummary {
    PendingOrderSummary::V1 {
        price_size_sum: (s->price_size_sum + size * price) as u128,
        size_sum: (s->size_sum + size) as u64,
    }
}

/// Whether `size` at `price` can be taken off a side: the side holds at
/// least that size, and, where something remains, at least that notional.
pub open spec fn can_remove(s: PendingOrderSummary, size: u64, price: u64) -> bool {
    &&& s->size_sum >= size
    &&& s->size_sum - size != 0 ==> s->price_size_sum >= size * price
}

/// The side after taking off `size` at `price`; a side left with no size is
/// cleared.
pub open spec fn removed(s: PendingOrderSummary, size: u64, price: u64) -> PendingOrderSummary {
    if s->size_sum - size == 0 {
        empty_summary()
    } else {
        PendingOrderSummary::V1 {
            price_size_sum: (s->price_size_sum - size * price) as u128,
            size_sum: (s->size_sum - size) as u64,
        }
    }
}

/// A side whose notional is zero whenever its size is.
pub open spec fn consistent(s: PendingOrderSummary) -> bool {
    s->size_sum == 0 ==> s->price_size_sum == 0
}

fn add_to_pending_orders(pending_orders: &mut PendingOrderSummary, order_size: u64, limit_price: u64)
    requires
        can_add(*old(pending_orders), order_size, limit_price),
    ensures
        *final(pending_orders) == added(*old(pending_orders), order_size, limit_price),
{
    let PendingOrderSummary::V1 { price_size_sum, size_sum } = *pending_orders;
    proof {
        assert(order_size * limit_price <= u64::MAX * u64::MAX) by (nonlinear_arith)
            requires
                order_size <= u64::MAX,
                limit_price <= u64::MAX,
        ;
    }
    let notional = (order_size as u128) * (limit_price as u128);
    *pending_orders = PendingOrderSummary::V1 {
        price_size_sum: price_size_sum + notional,
        size_sum: size_sum + order_size,
    };
}

fn remove_from_pending_orders(
    pending_orders: &mut PendingOrderSummary,
    cleanup_size: u64,
    limit_price: u64,
)
    requires
        can_remove(*old(pending_orders), cleanup_size, limit_price),
    ensures
        *final(pending_orders) == removed(*old(pending_orders), cleanup_size, limit_price),
{
    let PendingOrderSummary::V1 { price_size_sum, size_sum } = *pending_orders;
    let new_size = size_sum - cleanup_size;
    if new_size == 0 {
        *pending_orders = PendingOrderSummary::V1 { price_size_sum: 0, size_sum: 0 };
    } else {
        proof {
            assert(cleanup_size * limit_price <= u64::MAX * u64::MAX) by (nonlinear_arith)
                requires
                    cleanup_size <= u64::MAX,
                    limit_price <= u64::MAX,
            ;
        }
        let notional = (cleanup_size as u128) * (limit_price as u128);
        *pending_orders = PendingOrderSummary::V1 {
            price_size_sum: price_size_sum - notional,
            size_sum: new_size,
        };
    }
}

/// Adding an order to a side and then taking the same order off again gives
/// back the side, where the side's notional is zero whenever its size is.
pub proof fn lemma_add_then_remove_restores(s: PendingOrderSummary, size: u64, price: u64)
    requires
        consistent(s),
        can_add(s, size, price),
    ensures
        can_remove(added(s, size, price), size, price),
        removed(added(s, size, price), size, price) == s,
{
}

/// The sum of sizes times prices over the first `n` orders.
pub open spec fn price_size_sum_prefix(prices: Seq<u64>, sizes: Seq<u64>, n: nat) -> int
    decreases n,
{
    if n == 0 {
        0
    } else {
        price_size_sum_prefix(prices, sizes, (n - 1) as nat) + prices[n - 1] * sizes[n - 1]
    }
}

/// The sum of sizes over the first `n` orders.
pub open spec fn size_sum_prefix(sizes: Seq<u64>, n: nat) -> int
    decreases n,
{
    if n == 0 {
        0
    } else {
        size_sum_prefix(sizes, (n - 1) as nat) + sizes[n - 1]
    }
}

proof fn lemma_prefix_sums_monotone(prices: Seq<u64>, sizes: Seq<u64>, i: nat, n: nat)
    requires
        i <= n,
    ensures
        0 <= price_size_sum_prefix(prices, sizes, i) <= price_size_sum_prefix(prices, sizes, n),
        0 <= size_sum_prefix(sizes, i) <= size_sum_prefix(sizes, n),
    decreases n,
{
    if n > 0 {
        assert(prices[n - 1] * sizes[n - 1] >= 0) by (nonlinear_arith)
            requires
                prices[n - 1] >= 0,
                sizes[n - 1] >= 0,
        ;
        if i < n {
            lemma_prefix_sums_monotone(prices, sizes, i, (n - 1) as nat);
        } else {
            lemma_prefix_sums_monotone(prices, sizes, (n - 1) as nat, (n - 1) as nat);
        }
    }
}

/// The summary of the orders at `prices` with `sizes` (one size per price).
pub fn calculate_pending_orders_from_prices_sizes(prices: &[u64], sizes: &[u64]) -> (r:
    PendingOrderSummary)
    requires
        sizes@.len() >= prices@.len(),
        price_size_sum_prefix(prices@, sizes@, prices@.len()) <= u128::MAX,
        size_sum_prefix(sizes@, prices@.len()) <= u64::MAX,
    ensures
        r->price_size_sum == price_size_sum_prefix(prices@, sizes@, prices@.len()),
        r->size_sum == size_sum_prefix(sizes@, prices@.len()),
{
    let mut price_size_sum: u128 = 0;
    let mut size_sum: u64 = 0;
    let n = prices.len();
    let mut i: usize = 0;
    while i < n
        invariant
            n == prices@.len(),
            sizes@.len() >= n,
            i <= n,
            price_size_sum == price_size_sum_prefix(prices@, sizes@, i as nat),
            size_sum == size_sum_prefix(sizes@, i as nat),
            price_size_sum_prefix(prices@, sizes@, n as nat) <= u128::MAX,
            size_sum_prefix(sizes@, n as nat) <= u64::MAX,
        decreases n - i,
    {
        proof {
            lemma_prefix_sums_monotone(prices@, sizes@, (i + 1) as nat, n as nat);
            assert(prices@[i as int] * sizes@[i as int] <= u64::MAX * u64::MAX) by (nonlinear_arith)
                requires
                    prices@[i as int] <= u64::MAX,
                    sizes@[i as int] <= u64::MAX,
            ;
        }
        price_size_sum = price_size_sum + (prices[i] as u128) * (sizes[i] as u128);
        size_sum = size_sum + sizes[i];
        i += 1;
    }
    PendingOrderSummary::V1 { price_size_sum, size_sum }
}

/// The notional that pending orders of one market can add to the position's
/// exposure: all orders on the position's side, or, on the other side, the
/// part beyond twice the position (priced at that side's average), whichever
/// is larger.
pub open spec fn pending_price_size_spec(
    position_size: u64,
    position_is_long: bool,
    sl: PendingOrderSummary,
    ss: PendingOrderSummary,
    bl: PendingOrderSummary,
    bs: PendingOrderSummary,
) -> int {
    let longs_size = sl->size_sum + bl->size_sum;
    let longs_notional = sl->price_size_sum + bl->price_size_sum;
    let shorts_size = ss->size_sum + bs->size_sum;
    let shorts_notional = ss->price_size_sum + bs->price_size_sum;
    if position_is_long {
        let effective = if shorts_size > 2 * position_size {
            shorts_size - 2 * position_size
        } else {
            0
        };
        let other = if shorts_size == 0 {
            0
        } else {
            effective * shorts_notional / shorts_size
        };
        if longs_notional >= other {
            longs_notional
        } else {
            other
        }
    } else {
        let effective = if longs_size > 2 * position_size {
            longs_size - 2 * position_size
        } else {
            0
        };
        let other = if longs_size == 0 {
            0
        } else {
            effective * longs_notional / longs_size
        };
        if shorts_notional >= other {
            shorts_notional
        } else {
            other
        }
    }
}

/// The notional of a side's orders beyond twice the position, priced at the
/// side's average: nothing when the side holds no more than twice the
/// position.
pub open spec fn excess_notional(side_size: int, side_notional: int, position_size: u64) -> int {
    if side_size > 2 * position_size {
        (side_size - 2 * position_size) * side_notional / side_size
    } else {
        0
    }
}

/// The pending notional of a market is the larger of two amounts: the
/// notional of all orders on the position's side, and the notional of the
/// opposite side's orders beyond twice the position, priced at that side's
/// average. It is at least each of them and equal to one of them.
pub proof fn lemma_pending_price_size_covers_both_sides(
    position_size: u64,
    position_is_long: bool,
    sl: PendingOrderSummary,
    ss: PendingOrderSummary,
    bl: PendingOrderSummary,
    bs: PendingOrderSummary,
)
    ensures
        ({
            let r = pending_price_size_spec(position_size, position_is_long, sl, ss, bl, bs);
            let longs_size = sl->size_sum + bl->size_sum;
            let longs_notional = sl->price_size_sum + bl->price_size_sum;
            let shorts_size = ss->size_sum + bs->size_sum;
            let shorts_notional = ss->price_size_sum + bs->price_size_sum;
            let own = if position_is_long {
                longs_notional
            } else {
                shorts_notional
            };
            let other = if position_is_long {
                excess_notional(shorts_size, shorts_notional, position_size)
            } else {
                excess_notional(longs_size, longs_notional, position_size)
            };
            &&& r >= own
            &&& r >= other
            &&& (r == own || r == other)
        }),
{
    let longs_size = sl->size_sum + bl->size_sum;
    let shorts_size = ss->size_sum + bs->size_sum;
    let longs_notional = sl->price_size_sum + bl->price_size_sum;
    let shorts_notional = ss->price_size_sum + bs->price_size_sum;
    if shorts_size != 0 {
        assert(0 * shorts_notional / shorts_size == 0) by (nonlinear_arith)
            requires
                shorts_size > 0,
        ;
    }
    if longs_size != 0 {
        assert(0 * longs_notional / longs_size == 0) by (nonlinear_arith)
            requires
                longs_size > 0,
        ;
    }
}

/// The inputs on which the computation of the pending notional does not
/// overflow.
pub open spec fn pending_price_size_ok(
    position_size: u64,
    position_is_long: bool,
    sl: PendingOrderSummary,
    ss: PendingOrderSummary,
    bl: PendingOrderSummary,
    bs: PendingOrderSummary,
) -> bool {
    let longs_size = sl->size_sum + bl->size_sum;
    let longs_notional = sl->price_size_sum + bl->price_size_sum;
    let shorts_size = ss->size_sum + bs->size_sum;
    let shorts_notional = ss->price_size_sum + bs->price_size_sum;
    &&& longs_size <= u64::MAX
    &&& shorts_size <= u64::MAX
    &&& longs_notional <= u128::MAX
    &&& shorts_notional <= u128::MAX
    &&& 2 * position_size <= u64::MAX
    &&& (position_is_long && shorts_size > 2 * position_size) ==> (shorts_size - 2 * position_size)
        * shorts_notional <= u128::MAX
    &&& (!position_is_long && longs_size > 2 * position_size) ==> (longs_size - 2 * position_size)
        * longs_notional <= u128::MAX
}

fn other_side_notional(effective: u64, notional: u128, size: u64) -> (r: u128)
    requires
        effective <= size,
        effective * notional <= u128::MAX,
    ensures
        r == (if size == 0 {
            0
        } else {
            effective * notional / (size as int)
        }),
{
    if size == 0 {
        0
    } else {
        let prod = (effective as u128) * notional;
        prod / (size as u128)
    }
}

fn pending_price_size_for_market(
    position_size: u64,
    position_is_long: bool,
    pending_single_longs: &PendingOrderSummary,
    pending_single_shorts: &PendingOrderSummary,
    pending_bulk_longs: &PendingOrderSummary,
    pending_bulk_shorts: &PendingOrderSummary,
) -> (r: u128)
    requires
        pending_price_size_ok(
            position_size,
            position_is_long,
            *pending_single_longs,
            *pending_single_shorts,
            *pending_bulk_longs,
            *pending_bulk_shorts,
        ),
    ensures
        r == pending_price_size_spec(
            position_size,
            position_is_long,
            *pending_single_longs,
            *pending_single_shorts,
            *pending_bulk_longs,
            *pending_bulk_shorts,
        ),
        r >= (if position_is_long {
            pending_single_longs->price_size_sum + pending_bulk_longs->price_size_sum
        } else {
            pending_single_shorts->price_size_sum + pending_bulk_shorts->price_size_sum
        }),
        r >= (if position_is_long {
            excess_notional(
                pending_single_shorts->size_sum + pending_bulk_shorts->size_sum,
                pending_single_shorts->price_size_sum + pending_bulk_shorts->price_size_sum,
                position_size,
            )
        } else {
            excess_notional(
                pending_single_longs->size_sum + pending_bulk_longs->size_sum,
                pending_single_longs->price_size_sum + pending_bulk_longs->price_size_sum,
                position_size,
            )
        }),
{
    proof {
        lemma_pending_price_size_covers_both_sides(
            position_size,
            position_is_long,
            *pending_single_longs,
            *pending_single_shorts,
            *pending_bulk_longs,
            *pending_bulk_shorts,
        );
    }
    let PendingOrderSummary::V1 { price_size_sum: sl_pss, size_sum: sl_ss } = *pending_single_longs;
    let PendingOrderSummary::V1 { price_size_sum: ss_pss, size_sum: ss_ss } = *pending_single_shorts;
    let PendingOrderSummary::V1 { price_size_sum: bl_pss, size_sum: bl_ss } = *pending_bulk_longs;
    let PendingOrderSummary::V1 { price_size_sum: bs_pss, size_sum: bs_ss } = *pending_bulk_shorts;
    let total_longs_size = sl_ss + bl_ss;
    let total_longs_price_size = sl_pss + bl_pss;
    let total_shorts_size = ss_ss + bs_ss;
    let total_shorts_price_size = ss_pss + bs_pss;
    let twice = 2 * position_size;
    if position_is_long {
        let effective = if total_shorts_size > twice {
            total_shorts_size - twice
        } else {
            0
        };
        let short_notional = other_side_notional(effective, total_shorts_price_size, total_shorts_size);
        if total_longs_price_size >= short_notional {
            total_longs_price_size
        } else {
            short_notional
        }
    } else {
        let effective = if total_longs_size > twice {
            total_longs_size - twice
        } else {
            0
        };
        let long_notional = other_side_notional(effective, total_longs_price_size, total_longs_size);
        if total_shorts_price_size >= long_notional {
            total_shorts_price_size
        } else {
            long_notional
        }
    }
}

/// The margin that pending orders on these sides reserve for the position.
pub fn pending_price_size_for_market_pub(
    position_size: u64,
    position_is_long: bool,
    pending_single_longs: &PendingOrderSummary,
    pending_single_shorts: &PendingOrderSummary,
    pending_bulk_longs: &PendingOrderSummary,
    pending_bulk_shorts: &PendingOrderSummary,
    user_leverage: u8,
    size_multiplier: u64,
) -> (r: u64)
    requires
        sides_margin_ok(
            position_size,
            position_is_long,
            *pending_single_longs,
            *pending_single_shorts,
            *pending_bulk_longs,
            *pending_bulk_shorts,
            user_leverage,
            size_multiplier,
        ),
    ensures
        r == sides_margin(
            position_size,
            position_is_long,
            *pending_single_longs,
            *pending_single_shorts,
            *pending_bulk_longs,
            *pending_bulk_shorts,
            user_leverage,
            size_multiplier,
        ),
{
    let pps = pending_price_size_for_market(
        position_size,
        position_is_long,
        pending_single_longs,
        pending_single_shorts,
        pending_bulk_longs,
        pending_bulk_shorts,
    );
    required_margin(pps, user_leverage, size_multiplier)
}

/// The margin that a pending notional reserves: the notional divided by size
/// multiplier times leverage, rounded up (none where either is zero), cut to
/// 64 bits.
pub open spec fn required_margin_spec(pending_price_size: int, user_leverage: u8, size_multiplier: u64) -> u64 {
    let divisor = size_multiplier * user_leverage;
    if divisor == 0 {
        0
    } else {
        ((pending_price_size + divisor - 1) / divisor) as u64
    }
}

/// The inputs on which computing the margin does not overflow.
pub open spec fn required_margin_ok(pending_price_size: int, user_leverage: u8, size_multiplier: u64) -> bool {
    let divisor = size_multiplier * user_leverage;
    divisor != 0 ==> pending_price_size + divisor <= u128::MAX
}

fn required_margin(pending_price_size: u128, user_leverage: u8, size_multiplier: u64) -> (r: u64)
    requires
        required_margin_ok(pending_price_size as int, user_leverage, size_multiplier),
    ensures
        r == required_margin_spec(pending_price_size as int, user_leverage, size_multiplier),
{
    proof {
        assert(size_multiplier * user_leverage <= u64::MAX * 255) by (nonlinear_arith)
            requires
                size_multiplier <= u64::MAX,
                user_leverage <= 255,
        ;
    }
    let divisor = (size_multiplier as u128) * (user_leverage as u128);
    assert(divisor == size_multiplier * user_leverage);
    if divisor == 0 {
        0
    } else {
        #[verifier::truncate] (((pending_price_size + divisor - 1) / divisor) as u64)
    }
}

// ------------------------------------------------------------------
// The state of one account in one market.
// ------------------------------------------------------------------
/// The pending orders of one account in one market.
#[derive(Clone, Debug)]
pub struct PendingMarketState {
    pub pending_margin: u64,
    pub pending_single_longs: PendingOrderSummary,
    pub pending_single_shorts: PendingOrderSummary,
    pub pending_bulk_longs: PendingOrderSummary,
    pub pending_bulk_shorts: PendingOrderSummary,
    pub reduce_only_orders: ReduceOnlyOrders,
    pub tp_reqs: PendingTpSLs,
    pub sl_reqs: PendingTpSLs,
    pub pending_order_ids: Option<TrackedOrderSizes>,
}

/// Whether computing the margin of these sides does not overflow.
pub open spec fn sides_margin_ok(
    position_size: u64,
    position_is_long: bool,
    sl: PendingOrderSummary,
    ss: PendingOrderSummary,
    bl: PendingOrderSummary,
    bs: PendingOrderSummary,
    user_leverage: u8,
    size_multiplier: u64,
) -> bool {
    &&& pending_price_size_ok(position_size, position_is_long, sl, ss, bl, bs)
    &&& required_margin_ok(
        pending_price_size_spec(position_size, position_is_long, sl, ss, bl, bs),
        user_leverage,
        size_multiplier,
    )
}

/// The margin that these sides reserve.
pub open spec fn sides_margin(
    position_size: u64,
    position_is_long: bool,
    sl: PendingOrderSummary,
    ss: PendingOrderSummary,
    bl: PendingOrderSummary,
    bs: PendingOrderSummary,
    user_leverage: u8,
    size_multiplier: u64,
) -> u64 {
    required_margin_spec(
        pending_price_size_spec(position_size, position_is_long, sl, ss, bl, bs),
        user_leverage,
        size_multiplier,
    )
}

impl PendingMarketState {
    /// The tracked sizes, where kept, are in increasing id order.
    pub open spec fn wf(&self) -> bool {
        match self.pending_order_ids {
            Some(m) => m.wf(),
            None => true,
        }
    }

    /// The tracked size of an order id.
    pub open spec fn tracked_size(&self, id: u128) -> Option<u64> {
        match self.pending_order_ids {
            Some(m) => m.size_of(id),
            None => None,
        }
    }

    /// Whether any order rests on any side, or any reduce-only order.
    pub open spec fn has_pending(&self) -> bool {
        self.pending_single_longs->size_sum > 0 || self.pending_single_shorts->size_sum > 0
            || self.pending_bulk_longs->size_sum > 0 || self.pending_bulk_shorts->size_sum > 0
            || self.reduce_only_orders.total_size > 0
    }

    pub open spec fn margin_ok(
        &self,
        position_size: u64,
        position_is_long: bool,
        user_leverage: u8,
        size_multiplier: u64,
    ) -> bool {
        sides_margin_ok(
            position_size,
            position_is_long,
            self.pending_single_longs,
            self.pending_single_shorts,
            self.pending_bulk_longs,
            self.pending_bulk_shorts,
            user_leverage,
            size_multiplier,
        )
    }

    /// The margin that the market's pending orders reserve for this position.
    pub open spec fn margin_for(
        &self,
        position_size: u64,
        position_is_long: bool,
        user_leverage: u8,
        size_multiplier: u64,
    ) -> u64 {
        sides_margin(
            position_size,
            position_is_long,
            self.pending_single_longs,
            self.pending_single_shorts,
            self.pending_bulk_longs,
            self.pending_bulk_shorts,
            user_leverage,
            size_multiplier,
        )
    }
}

/// Whether two states agree on everything but the margin and the tracked
/// ids.
pub open spec fn same_orders(a: PendingMarketState, b: PendingMarketState) -> bool {
    &&& a.pending_single_longs == b.pending_single_longs
    &&& a.pending_single_shorts == b.pending_single_shorts
    &&& a.pending_bulk_longs == b.pending_bulk_longs
    &&& a.pending_bulk_shorts == b.pending_bulk_shorts
    &&& a.reduce_only_orders == b.reduce_only_orders
    &&& a.tp_reqs == b.tp_reqs
    &&& a.sl_reqs == b.sl_reqs
}

/// The state of a market with nothing pending.
pub open spec fn is_fresh_market_state(s: PendingMarketState) -> bool {
    &&& s.pending_margin == 0
    &&& s.pending_single_longs == empty_summary()
    &&& s.pending_single_shorts == empty_summary()
    &&& s.pending_bulk_longs == empty_summary()
    &&& s.pending_bulk_shorts == empty_summary()
    &&& s.reduce_only_orders.total_size == 0
    &&& s.reduce_only_orders.orders@.len() == 0
    &&& s.tp_reqs matches PendingTpSLs::V1 { full_sized, fixed_sized, pending_order_based_tp_sl_count }
        && full_sized is None && fixed_sized@.len() == 0 && pending_order_based_tp_sl_count == 0
    &&& s.sl_reqs matches PendingTpSLs::V1 { full_sized, fixed_sized, pending_order_based_tp_sl_count }
        && full_sized is None && fixed_sized@.len() == 0 && pending_order_based_tp_sl_count == 0
    &&& s.pending_order_ids is None
}

fn new_reduce_only_orders() -> (r: ReduceOnlyOrders)
    ensures
        r.total_size == 0,
        r.orders@.len() == 0,
{
    ReduceOnlyOrders { total_size: 0, orders: Vec::new() }
}

fn new_pending_tp_sls() -> (r: PendingTpSLs)
    ensures
        r matches PendingTpSLs::V1 { full_sized, fixed_sized, pending_order_based_tp_sl_count }
            && full_sized is None && fixed_sized@.len() == 0 && pending_order_based_tp_sl_count
            == 0,
{
    PendingTpSLs::V1 { full_sized: None, fixed_sized: Vec::new(), pending_order_based_tp_sl_count: 0 }
}

/// The state of a market with nothing pending.
pub fn new_market_state() -> (r: PendingMarketState)
    ensures
        is_fresh_market_state(r),
        r.wf(),
{
    PendingMarketState {
        pending_margin: 0,
        pending_single_longs: PendingOrderSummary::V1 { price_size_sum: 0, size_sum: 0 },
        pending_single_shorts: PendingOrderSummary::V1 { price_size_sum: 0, size_sum: 0 },
        pending_bulk_longs: PendingOrderSummary::V1 { price_size_sum: 0, size_sum: 0 },
        pending_bulk_shorts: PendingOrderSummary::V1 { price_size_sum: 0, size_sum: 0 },
        reduce_only_orders: new_reduce_only_orders(),
        tp_reqs: new_pending_tp_sls(),
        sl_reqs: new_pending_tp_sls(),
        pending_order_ids: None,
    }
}

fn update_required_margin_for_market(
    market_state: &mut PendingMarketState,
    position_size: u64,
    position_is_long: bool,
    user_leverage: u8,
    size_multiplier: u64,
)
    requires
        old(market_state).margin_ok(position_size, position_is_long, user_leverage, size_multiplier),
    ensures
        same_orders(*final(market_state), *old(market_state)),
        final(market_state).pending_order_ids == old(market_state).pending_order_ids,
        final(market_state).pending_margin == old(market_state).margin_for(
            position_size,
            position_is_long,
            user_leverage,
            size_multiplier,
        ),
{
    let pending_price_size = pending_price_size_for_market(
        position_size,
        position_is_long,
        &market_state.pending_single_longs,
        &market_state.pending_single_shorts,
        &market_state.pending_bulk_longs,
        &market_state.pending_bulk_shorts,
    );
    market_state.pending_margin = required_margin(pending_price_size, user_leverage, size_multiplier);
}

fn add_order_id_tracking(market_state: &mut PendingMarketState, order_id: OrderId, size: u64)
    requires
        old(market_state).wf(),
    ensures
        final(market_state).wf(),
        same_orders(*final(market_state), *old(market_state)),
        final(market_state).pending_margin == old(market_state).pending_margin,
        final(market_state).pending_order_ids is Some,
        final(market_state).tracked_size(order_id.order_id) == Some(size),
        forall|k: u128|
            k != order_id.order_id ==> #[trigger] final(market_state).tracked_size(k)
                == old(market_state).tracked_size(k),
{
    let mut ids = match market_state.pending_order_ids.take() {
        Some(m) => m,
        None => {
            let m = TrackedOrderSizes::new();
            proof {
                assert forall|k: u128| #[trigger] m.size_of(k) is None by {
                    lemma_size_of_id_absent(m.entries(), k);
                }
            }
            m
        },
    };
    ids.insert(order_id.order_id, size);
    market_state.pending_order_ids = Some(ids);
}

/// The tracked size of `id` after `cleanup` of it leaves the book.
pub open spec fn tracked_after_cleanup(before: Option<u64>, cleanup: u64) -> Option<u64> {
    match before {
        Some(cur) => if cur == cleanup {
            None
        } else {
            Some((cur - cleanup) as u64)
        },
        None => None,
    }
}

/// Whether the tracked size of `id` (if any) covers `cleanup`.
pub open spec fn cleanup_ok(s: PendingMarketState, id: u128, cleanup: u64) -> bool {
    s.tracked_size(id) matches Some(cur) ==> cur >= cleanup
}

fn remove_order_id_tracking(market_state: &mut PendingMarketState, order_id: OrderId, cleanup_size: u64)
    requires
        old(market_state).wf(),
        cleanup_ok(*old(market_state), order_id.order_id, cleanup_size),
    ensures
        final(market_state).wf(),
        same_orders(*final(market_state), *old(market_state)),
        final(market_state).pending_margin == old(market_state).pending_margin,
        final(market_state).pending_order_ids is Some <==> old(market_state).pending_order_ids is Some,
        final(market_state).tracked_size(order_id.order_id) == tracked_after_cleanup(
            old(market_state).tracked_size(order_id.order_id),
            cleanup_size,
        ),
        forall|k: u128|
            k != order_id.order_id ==> #[trigger] final(market_state).tracked_size(k)
                == old(market_state).tracked_size(k),
{
    match market_state.pending_order_ids.take() {
        Some(mut ids) => {
            match ids.get(order_id.order_id) {
                Some(current_size) => {
                    if current_size == cleanup_size {
                        ids.remove(order_id.order_id);
                    } else {
                        ids.insert(order_id.order_id, current_size - cleanup_size);
                    }
                },
                None => {},
            }
            market_state.pending_order_ids = Some(ids);
        },
        None => {},
    }
}

// ------------------------------------------------------------------
// Accounts and the global summary.
// ------------------------------------------------------------------
/// The pending orders of one account: its markets, and whether the sizes of
/// its orders are tracked by id.
#[derive(Debug)]
pub struct AccountSummary {
    pub markets: AddrMap<PendingMarketState>,
    pub is_order_id_tracking_enabled: bool,
}

impl AccountSummary {
    pub open spec fn wf(&self) -> bool {
        &&& self.markets.wf()
        &&& forall|m: [u8; 32]| #[trigger]
            self.markets.view().contains_key(m) ==> self.markets.view()[m].wf()
    }

    /// The state of one market.
    pub open spec fn market(&self, m: [u8; 32]) -> Option<PendingMarketState> {
        if self.markets.view().contains_key(m) {
            Some(self.markets.view()[m])
        } else {
            None
        }
    }

    /// Whether any market has anything pending.
    pub open spec fn has_pending(&self) -> bool {
        exists|m: [u8; 32]| #[trigger]
            self.markets.view().contains_key(m) && self.markets.view()[m].has_pending()
    }
}

/// The sum of the margins of the first `n` markets, in storage order.
pub open spec fn margin_sum(markets: AddrMap<PendingMarketState>, n: nat) -> int
    decreases n,
{
    if n == 0 {
        0
    } else {
        margin_sum(markets, (n - 1) as nat) + markets.view()[markets.key_at_spec(n - 1)].pending_margin
    }
}

/// The margin that all the pending orders of an account reserve.
pub open spec fn total_pending_margin(acc: AccountSummary) -> int {
    margin_sum(acc.markets, acc.markets.len_spec())
}

proof fn lemma_margin_sum_monotone(markets: AddrMap<PendingMarketState>, i: nat, n: nat)
    requires
        i <= n,
    ensures
        0 <= margin_sum(markets, i) <= margin_sum(markets, n),
    decreases n,
{
    if n > 0 {
        if i < n {
            lemma_margin_sum_monotone(markets, i, (n - 1) as nat);
        } else {
            lemma_margin_sum_monotone(markets, (n - 1) as nat, (n - 1) as nat);
        }
    }
}

/// Whether the bytes of `a` come before those of `b` in dictionary order.
pub open spec fn lex_lt(a: Seq<u8>, b: Seq<u8>) -> bool
    decreases a.len(),
{
    if a.len() == 0 || b.len() == 0 {
        false
    } else if a[0] < b[0] {
        true
    } else if a[0] == b[0] {
        lex_lt(a.drop_first(), b.drop_first())
    } else {
        false
    }
}

pub proof fn lemma_lex_trans(a: Seq<u8>, b: Seq<u8>, c: Seq<u8>)
    requires
        lex_lt(a, b),
        lex_lt(b, c),
    ensures
        lex_lt(a, c),
    decreases a.len(),
{
    if a[0] == b[0] && b[0] == c[0] {
        lemma_lex_trans(a.drop_first(), b.drop_first(), c.drop_first());
    }
}

pub proof fn lemma_lex_total(a: Seq<u8>, b: Seq<u8>)
    requires
        a.len() == b.len(),
        a != b,
    ensures
        lex_lt(a, b) || lex_lt(b, a),
    decreases a.len(),
{
    if a.len() == 0 {
        assert(a =~= b);
    } else if a[0] == b[0] {
        if a.drop_first() == b.drop_first() {
            assert(a =~= b) by {
                assert forall|i: int| 0 <= i < a.len() implies a[i] == b[i] by {
                    if i > 0 {
                        assert(a[i] == a.drop_first()[i - 1]);
                        assert(b[i] == b.drop_first()[i - 1]);
                    }
                }
            }
        }
        lemma_lex_total(a.drop_first(), b.drop_first());
    }
}

pub proof fn lemma_lex_asym(a: Seq<u8>, b: Seq<u8>)
    requires
        lex_lt(a, b),
    ensures
        !lex_lt(b, a),
    decreases a.len(),
{
    if a[0] == b[0] {
        lemma_lex_asym(a.drop_first(), b.drop_first());
    }
}

/// Whether address `a` comes before `b` in byte order.
pub fn addr_lt(a: &[u8; 32], b: &[u8; 32]) -> (r: bool)
    ensures
        r == lex_lt(a@, b@),
{
    let mut i: usize = 0;
    assert(a@.skip(0) =~= a@);
    assert(b@.skip(0) =~= b@);
    while i < 32
        invariant
            i <= 32,
            a@.len() == 32,
            b@.len() == 32,
            lex_lt(a@, b@) == lex_lt(a@.skip(i as int), b@.skip(i as int)),
        decreases 32 - i,
    {
        assert(a@.skip(i as int)[0] == a@[i as int]);
        assert(b@.skip(i as int)[0] == b@[i as int]);
        if a[i] < b[i] {
            return true;
        }
        if a[i] > b[i] {
            return false;
        }
        assert(a@.skip(i as int).drop_first() =~= a@.skip(i + 1));
        assert(b@.skip(i as int).drop_first() =~= b@.skip(i + 1));
        i += 1;
    }
    false
}

/// Whether an account's market holds margin and tracked orders.
pub open spec fn market_uses_tracked_margin(s: PendingMarketState) -> bool {
    &&& s.pending_margin > 0
    &&& s.pending_order_ids matches Some(m) && m.entries().len() > 0
}

/// The pending orders of all accounts.
#[derive(Debug)]
pub struct GlobalSummary {
    summary: AddrMap<AccountSummary>,
}

impl GlobalSummary {
    /// The accounts and their summaries.
    pub closed spec fn accounts(&self) -> Map<[u8; 32], AccountSummary> {
        self.summary.view()
    }

    pub closed spec fn wf(&self) -> bool {
        &&& self.summary.wf()
        &&& forall|a: [u8; 32]| #[trigger]
            self.summary.view().contains_key(a) ==> self.summary.view()[a].wf()
    }

    /// The summary of one account.
    pub open spec fn account(&self, a: [u8; 32]) -> Option<AccountSummary> {
        if self.accounts().contains_key(a) {
            Some(self.accounts()[a])
        } else {
            None
        }
    }

    /// The state of one account in one market.
    pub open spec fn market_state(&self, a: [u8; 32], m: [u8; 32]) -> Option<PendingMarketState> {
        match self.account(a) {
            Some(acc) => acc.market(m),
            None => None,
        }
    }

    pub proof fn lemma_wf_accounts(&self)
        requires
            self.wf(),
        ensures
            forall|a: [u8; 32]| #[trigger]
                self.accounts().contains_key(a) ==> self.accounts()[a].wf(),
    {
    }

    /// The summary of one account, if it is known.
    pub fn account_summary(&self, account: [u8; 32]) -> (r: Option<&AccountSummary>)
        requires
            self.wf(),
        ensures
            match r {
                Some(acc) => self.account(account) == Some(*acc) && acc.wf(),
                None => self.account(account) is None,
            },
    {
        let r = self.summary.get(&account);
        proof {
            if r is Some {
                assert(self.accounts()[account].wf());
            }
        }
        r
    }

    /// An empty summary.
    pub fn new() -> (r: Self)
        ensures
            r.wf(),
            r.accounts() == Map::<[u8; 32], AccountSummary>::empty(),
    {
        GlobalSummary { summary: AddrMap::new() }
    }

    /// Adds an account with no markets and no tracking, where it is missing.
    pub fn initialize_account_summary(&mut self, account: [u8; 32])
        requires
            old(self).wf(),
        ensures
            final(self).wf(),
            old(self).accounts().contains_key(account) ==> final(self).accounts() == old(
                self,
            ).accounts(),
            !old(self).accounts().contains_key(account) ==> {
                &&& final(self).accounts().dom() == old(self).accounts().dom().insert(account)
                &&& forall|a: [u8; 32]|
                    a != account ==> #[trigger] final(self).accounts()[a] == old(
                        self,
                    ).accounts()[a]
                &&& final(self).accounts()[account].markets.view() == Map::<
                    [u8; 32],
                    PendingMarketState,
                >::empty()
                &&& !final(self).accounts()[account].is_order_id_tracking_enabled
            },
    {
        if !self.summary.contains_key(&account) {
            let acc = AccountSummary { markets: AddrMap::new(), is_order_id_tracking_enabled: false };
            self.summary.insert(account, acc);
        }
    }

    /// The margin that all the account's pending orders reserve (zero for an
    /// unknown account).
    pub fn get_pending_order_margin(&self, account: [u8; 32]) -> (r: u64)
        requires
            self.wf(),
            self.account(account) matches Some(acc) ==> total_pending_margin(acc) <= u64::MAX,
        ensures
            r == (match self.account(account) {
                Some(acc) => total_pending_margin(acc),
                None => 0,
            }),
    {
        match self.summary.get(&account) {
            Some(acc) => {
                let n = acc.markets.len();
                let mut total: u64 = 0;
                let mut i: usize = 0;
                while i < n
                    invariant
                        acc.wf(),
                        n == acc.markets.len_spec(),
                        i <= n,
                        total == margin_sum(acc.markets, i as nat),
                        margin_sum(acc.markets, n as nat) <= u64::MAX,
                    decreases n - i,
                {
                    proof {
                        lemma_margin_sum_monotone(acc.markets, (i + 1) as nat, n as nat);
                    }
                    let st = acc.markets.value_at(i);
                    total = total + st.pending_margin;
                    i += 1;
                }
                total
            },
            None => 0,
        }
    }

    /// The margin that the account's pending orders in one market reserve.
    pub fn get_pending_order_margin_for_market(&self, account: [u8; 32], market: [u8; 32]) -> (r:
        u64)
        requires
            self.wf(),
        ensures
            r == (match self.market_state(account, market) {
                Some(s) => s.pending_margin,
                None => 0,
            }),
    {
        match self.summary.get(&account) {
            Some(acc) => {
                proof {
                    assert(self.accounts()[account].wf());
                }
                match acc.markets.get(&market) {
                    Some(st) => st.pending_margin,
                    None => 0,
                }
            },
            None => 0,
        }
    }

    /// Whether the account has bulk orders resting in the market.
    pub fn bulk_order_using_margin(&self, account: [u8; 32], market: [u8; 32]) -> (r: bool)
        requires
            self.wf(),
        ensures
            r == (match self.market_state(account, market) {
                Some(s) => s.pending_bulk_longs->size_sum > 0 || s.pending_bulk_shorts->size_sum
                    > 0,
                None => false,
            }),
    {
        match self.summary.get(&account) {
            Some(acc) => {
                proof {
                    assert(self.accounts()[account].wf());
                }
                match acc.markets.get(&market) {
                    Some(st) => {
                        let PendingOrderSummary::V1 { size_sum: bulk_long_size, .. } =
                            st.pending_bulk_longs;
                        let PendingOrderSummary::V1 { size_sum: bulk_short_size, .. } =
                            st.pending_bulk_shorts;
                        bulk_long_size > 0 || bulk_short_size > 0
                    },
                    None => false,
                }
            },
            None => false,
        }
    }

    /// The sizes of the account's bulk longs and shorts in the market.
    pub fn get_bulk_order_pending_sizes(&self, account: [u8; 32], market: [u8; 32]) -> (r: (
        u64,
        u64,
    ))
        requires
            self.wf(),
        ensures
            r == (match self.market_state(account, market) {
                Some(s) => (s.pending_bulk_longs->size_sum, s.pending_bulk_shorts->size_sum),
                None => (0u64, 0u64),
            }),
    {
        match self.summary.get(&account) {
            Some(acc) => {
                proof {
                    assert(self.accounts()[account].wf());
                }
                match acc.markets.get(&market) {
                    Some(st) => {
                        let PendingOrderSummary::V1 { size_sum: bulk_long_size, .. } =
                            st.pending_bulk_longs;
                        let PendingOrderSummary::V1 { size_sum: bulk_short_size, .. } =
                            st.pending_bulk_shorts;
                        (bulk_long_size, bulk_short_size)
                    },
                    None => (0, 0),
                }
            },
            None => (0, 0),
        }
    }

    /// Whether the account has anything pending in any market.
    pub fn has_any_pending_orders(&self, account: [u8; 32]) -> (r: bool)
        requires
            self.wf(),
        ensures
            r == (match self.account(account) {
                Some(acc) => acc.has_pending(),
                None => false,
            }),
    {
        match self.summary.get(&account) {
            Some(acc) => {
                proof {
                    assert(self.accounts()[account].wf());
                }
                has_any_pending_orders_internal(acc)
            },
            None => false,
        }
    }
}

fn has_any_pending_orders_internal(account_summary: &AccountSummary) -> (r: bool)
    requires
        account_summary.wf(),
    ensures
        r == account_summary.has_pending(),
{
    let n = account_summary.markets.len();
    let mut i: usize = 0;
    proof {
        account_summary.markets.lemma_key_positions();
    }
    while i < n
        invariant
            account_summary.wf(),
            n == account_summary.markets.len_spec(),
            i <= n,
            forall|j: int|
                0 <= j < i ==> !account_summary.markets.view()[#[trigger] account_summary.markets.key_at_spec(
                    j,
                )].has_pending(),
        decreases n - i,
    {
        let st = account_summary.markets.value_at(i);
        let PendingOrderSummary::V1 { size_sum: sl_size, .. } = st.pending_single_longs;
        let PendingOrderSummary::V1 { size_sum: ss_size, .. } = st.pending_single_shorts;
        let PendingOrderSummary::V1 { size_sum: bl_size, .. } = st.pending_bulk_longs;
        let PendingOrderSummary::V1 { size_sum: bs_size, .. } = st.pending_bulk_shorts;
        let ro_size = st.reduce_only_orders.total_size;
        if sl_size > 0 || ss_size > 0 || bl_size > 0 || bs_size > 0 || ro_size > 0 {
            proof {
                let k = account_summary.markets.key_at_spec(i as int);
                assert(account_summary.markets.view().contains_key(k));
            }
            return true;
        }
        i += 1;
    }
    proof {
        assert forall|m: [u8; 32]| #[trigger]
            account_summary.markets.view().contains_key(m) implies !account_summary.markets.view()[m].has_pending() by {
            let j = choose|j: int|
                0 <= j < account_summary.markets.len_spec()
                    && #[trigger] account_summary.markets.key_at_spec(j) == m;
        }
    }
    false
}

// ------------------------------------------------------------------
// Placing and removing orders.
// ------------------------------------------------------------------
/// Whether an order of `size` at `price` can be added to these sides and the
/// margin computed afterwards without overflow.
pub open spec fn placement_ok(
    sl: PendingOrderSummary,
    ss: PendingOrderSummary,
    bl: PendingOrderSummary,
    bs: PendingOrderSummary,
    size: u64,
    price: u64,
    is_long: bool,
    position_size: u64,
    position_is_long: bool,
    user_leverage: u8,
    size_multiplier: u64,
) -> bool {
    &&& is_long ==> can_add(sl, size, price)
    &&& !is_long ==> can_add(ss, size, price)
    &&& sides_margin_ok(
        position_size,
        position_is_long,
        if is_long {
            added(sl, size, price)
        } else {
            sl
        },
        if is_long {
            ss
        } else {
            added(ss, size, price)
        },
        bl,
        bs,
        user_leverage,
        size_multiplier,
    )
}

/// The state of a market after an order is placed in it: the order is added
/// to its side, tracked by id where tracking is on, and the margin is
/// computed anew.
pub open spec fn order_placed(
    before: PendingMarketState,
    after: PendingMarketState,
    order_id: OrderId,
    size: u64,
    price: u64,
    is_long: bool,
    tracking: bool,
    position_size: u64,
    position_is_long: bool,
    user_leverage: u8,
    size_multiplier: u64,
) -> bool {
    &&& after.pending_single_longs == (if is_long {
        added(before.pending_single_longs, size, price)
    } else {
        before.pending_single_longs
    })
    &&& after.pending_single_shorts == (if is_long {
        before.pending_single_shorts
    } else {
        added(before.pending_single_shorts, size, price)
    })
    &&& after.pending_bulk_longs == before.pending_bulk_longs
    &&& after.pending_bulk_shorts == before.pending_bulk_shorts
    &&& after.reduce_only_orders == before.reduce_only_orders
    &&& after.tp_reqs == before.tp_reqs
    &&& after.sl_reqs == before.sl_reqs
    &&& tracking ==> {
        &&& after.pending_order_ids is Some
        &&& after.tracked_size(order_id.order_id) == Some(size)
        &&& forall|k: u128|
            k != order_id.order_id ==> #[trigger] after.tracked_size(k) == before.tracked_size(k)
    }
    &&& !tracking ==> after.pending_order_ids == before.pending_order_ids
    &&& after.pending_margin == after.margin_for(
        position_size,
        position_is_long,
        user_leverage,
        size_multiplier,
    )
}

/// Whether an order of `size` at `price` can be taken off these sides and the
/// margin computed afterwards without overflow.
pub open spec fn cancellation_ok(
    sl: PendingOrderSummary,
    ss: PendingOrderSummary,
    bl: PendingOrderSummary,
    bs: PendingOrderSummary,
    size: u64,
    price: u64,
    is_long: bool,
    position_size: u64,
    position_is_long: bool,
    user_leverage: u8,
    size_multiplier: u64,
) -> bool {
    &&& is_long ==> can_remove(sl, size, price)
    &&& !is_long ==> can_remove(ss, size, price)
    &&& sides_margin_ok(
        position_size,
        position_is_long,
        if is_long {
            removed(sl, size, price)
        } else {
            sl
        },
        if is_long {
            ss
        } else {
            removed(ss, size, price)
        },
        bl,
        bs,
        user_leverage,
        size_multiplier,
    )
}

/// The state of a market after `size` of an order leaves it: the size is
/// taken off its side, and off its tracked size where tracking is on, and
/// the margin is computed anew.
pub open spec fn order_cancelled(
    before: PendingMarketState,
    after: PendingMarketState,
    order_id: OrderId,
    size: u64,
    price: u64,
    is_long: bool,
    tracking: bool,
    position_size: u64,
    position_is_long: bool,
    user_leverage: u8,
    size_multiplier: u64,
) -> bool {
    &&& after.pending_single_longs == (if is_long {
        removed(before.pending_single_longs, size, price)
    } else {
        before.pending_single_longs
    })
    &&& after.pending_single_shorts == (if is_long {
        before.pending_single_shorts
    } else {
        removed(before.pending_single_shorts, size, price)
    })
    &&& after.pending_bulk_longs == before.pending_bulk_longs
    &&& after.pending_bulk_shorts == before.pending_bulk_shorts
    &&& after.reduce_only_orders == before.reduce_only_orders
    &&& after.tp_reqs == before.tp_reqs
    &&& after.sl_reqs == before.sl_reqs
    &&& tracking ==> {
        &&& after.tracked_size(order_id.order_id) == tracked_after_cleanup(
            before.tracked_size(order_id.order_id),
            size,
        )
        &&& forall|k: u128|
            k != order_id.order_id ==> #[trigger] after.tracked_size(k) == before.tracked_size(k)
    }
    &&& !tracking ==> after.pending_order_ids == before.pending_order_ids
    &&& after.pending_margin == after.margin_for(
        position_size,
        position_is_long,
        user_leverage,
        size_multiplier,
    )
}

/// Whether `after` differs from `before` only in the state of `account` in
/// `market`, which `after` has.
pub open spec fn only_market_changed(
    before: Map<[u8; 32], AccountSummary>,
    after: Map<[u8; 32], AccountSummary>,
    account: [u8; 32],
    market: [u8; 32],
) -> bool {
    &&& after.dom() == before.dom()
    &&& forall|a: [u8; 32]| a != account ==> #[trigger] after[a] == before[a]
    &&& after[account].is_order_id_tracking_enabled == before[account].is_order_id_tracking_enabled
    &&& after[account].markets.view().dom() == before[account].markets.view().dom().insert(market)
    &&& forall|m: [u8; 32]|
        m != market ==> #[trigger] after[account].markets.view()[m]
            == before[account].markets.view()[m]
}

impl GlobalSummary {
    /// Adds an order that is not reduce-only to the account's side of the
    /// market (creating the market's state where it is missing), tracks it
    /// where tracking is on, and computes the market's margin anew.
    pub fn add_non_reduce_only_order(
        &mut self,
        account: [u8; 32],
        market: [u8; 32],
        order_id: OrderId,
        order_size: u64,
        limit_price: u64,
        is_long: bool,
        position_size: u64,
        position_is_long: bool,
        user_leverage: u8,
        size_multiplier: u64,
    )
        requires
            old(self).wf(),
            old(self).accounts().contains_key(account),
            match old(self).market_state(account, market) {
                Some(st) => placement_ok(
                    st.pending_single_longs,
                    st.pending_single_shorts,
                    st.pending_bulk_longs,
                    st.pending_bulk_shorts,
                    order_size,
                    limit_price,
                    is_long,
                    position_size,
                    position_is_long,
                    user_leverage,
                    size_multiplier,
                ),
                None => placement_ok(
                    empty_summary(),
                    empty_summary(),
                    empty_summary(),
                    empty_summary(),
                    order_size,
                    limit_price,
                    is_long,
                    position_size,
                    position_is_long,
                    user_leverage,
                    size_multiplier,
                ),
            },
        ensures
            final(self).wf(),
            only_market_changed(old(self).accounts(), final(self).accounts(), account, market),
            match old(self).market_state(account, market) {
                Some(before) => order_placed(
                    before,
                    final(self).accounts()[account].markets.view()[market],
                    order_id,
                    order_size,
                    limit_price,
                    is_long,
                    old(self).accounts()[account].is_order_id_tracking_enabled,
                    position_size,
                    position_is_long,
                    user_leverage,
                    size_multiplier,
                ),
                None => exists|before: PendingMarketState|
                    is_fresh_market_state(before) && #[trigger] order_placed(
                        before,
                        final(self).accounts()[account].markets.view()[market],
                        order_id,
                        order_size,
                        limit_price,
                        is_long,
                        old(self).accounts()[account].is_order_id_tracking_enabled,
                        position_size,
                        position_is_long,
                        user_leverage,
                        size_multiplier,
                    ),
            },
    {
        let ai = self.summary.index_of(&account).unwrap();
        proof {
            assert(old(self).accounts()[account].wf());
        }
        let acc = self.summary.value_at_mut(ai);
        let tracking = acc.is_order_id_tracking_enabled;
        let ghost had_market = acc.markets.view().contains_key(market);
        let ghost mut before: PendingMarketState;
        if !acc.markets.contains_key(&market) {
            let fresh = new_market_state();
            proof {
                before = fresh;
            }
            acc.markets.insert(market, fresh);
        } else {
            proof {
                before = acc.markets.view()[market];
            }
        }
        let ghost markets_mid = acc.markets.view();
        let mi = acc.markets.index_of(&market).unwrap();
        let st = acc.markets.value_at_mut(mi);
        assert(*st == before);
        assert(placement_ok(
                    st.pending_single_longs,
                    st.pending_single_shorts,
                    st.pending_bulk_longs,
                    st.pending_bulk_shorts,
                    order_size,
                    limit_price,
                    is_long,
                    position_size,
                    position_is_long,
                    user_leverage,
                    size_multiplier,
                ));
        if is_long {
            add_to_pending_orders(&mut st.pending_single_longs, order_size, limit_price);
        } else {
            add_to_pending_orders(&mut st.pending_single_shorts, order_size, limit_price);
        }
        let ghost st0 = *st;
        if tracking {
            add_order_id_tracking(st, order_id, order_size);
        }
        let ghost st1 = *st;
        assert(st.pending_single_longs == (if is_long {
        added(before.pending_single_longs, order_size, limit_price)
    } else {
        before.pending_single_longs
    }));
        assert(st.reduce_only_orders == before.reduce_only_orders);
        update_required_margin_for_market(
            st,
            position_size,
            position_is_long,
            user_leverage,
            size_multiplier,
        );
        assert(st.pending_single_longs == (if is_long {
        added(before.pending_single_longs, order_size, limit_price)
    } else {
        before.pending_single_longs
    }));
        proof {
            assert(st.pending_bulk_longs == before.pending_bulk_longs);
            assert(st.tp_reqs == before.tp_reqs);
            assert(st.sl_reqs == before.sl_reqs);
            assert(tracking ==> st.pending_order_ids is Some);
            assert(tracking ==> st.tracked_size(order_id.order_id) == Some(order_size));
            assert(!tracking ==> st.pending_order_ids == before.pending_order_ids);
            assert(st.pending_margin == st.margin_for(position_size, position_is_long, user_leverage, size_multiplier));
            if tracking {
                assert forall|k: u128| k != order_id.order_id implies #[trigger] st.tracked_size(k) == before.tracked_size(k) by {
                    assert(st1.tracked_size(k) == st0.tracked_size(k));
                    assert(st0.pending_order_ids == before.pending_order_ids);
                }
            }
            assert(order_placed(
                before,
                *st,
                order_id,
                order_size,
                limit_price,
                is_long,
                tracking,
                position_size,
                position_is_long,
                user_leverage,
                size_multiplier,
            ));
            assert(*final(st) == *st);
            assert(final(acc).markets.view() == markets_mid.insert(market, *st));
            assert(final(self).accounts() == old(self).accounts().insert(account, *final(acc)));
            assert(final(acc).is_order_id_tracking_enabled == tracking);
            assert(final(self).accounts()[account].markets.view()[market] == *st);
            assert(st.wf());
            assert(final(self).accounts().dom() =~= old(self).accounts().dom());
            assert(final(self).accounts()[account].markets.view().dom() =~= old(self).accounts()[account].markets.view().dom().insert(market));
            if had_market {
                assert(old(self).market_state(account, market) == Some(before));
            } else {
                assert(old(self).market_state(account, market) is None);
                assert(is_fresh_market_state(before));
            }
        }
    }
}

// ------------------------------------------------------------------
// Reduce-only orders.
// ------------------------------------------------------------------
/// Whether `i` is the first position of order `oid` among the reduce-only
/// orders.
pub open spec fn is_first_reduce_only(orders: Seq<ReduceOnlyOrderInfo>, oid: OrderId, i: int) -> bool {
    &&& 0 <= i < orders.len()
    &&& orders[i]->order_id == oid
    &&& forall|j: int| 0 <= j < i ==> #[trigger] orders[j]->order_id != oid
}

/// Whether the reduce-only orders hold `oid`.
pub open spec fn holds_reduce_only(orders: Seq<ReduceOnlyOrderInfo>, oid: OrderId) -> bool {
    exists|i: int| #[trigger] is_first_reduce_only(orders, oid, i)
}

/// Whether `cleanup` of reduce-only order `oid` can leave the book: the
/// total and the order's size cover it.
pub open spec fn reduce_only_cleanup_ok(ro: ReduceOnlyOrders, oid: OrderId, cleanup: u64) -> bool {
    forall|i: int|
        #[trigger] is_first_reduce_only(ro.orders@, oid, i) ==> ro.total_size >= cleanup && cleanup
            <= ro.orders@[i]->size
}

/// The reduce-only orders after `cleanup` of order `oid` leaves the book:
/// the total shrinks, and the order shrinks, or goes where nothing of it is
/// left; an order not held changes nothing.
pub open spec fn reduce_only_removed(
    before: ReduceOnlyOrders,
    after: ReduceOnlyOrders,
    oid: OrderId,
    cleanup: u64,
) -> bool {
    if holds_reduce_only(before.orders@, oid) {
        let i = choose|i: int| #[trigger] is_first_reduce_only(before.orders@, oid, i);
        &&& after.total_size == before.total_size - cleanup
        &&& after.orders@ == (if cleanup < before.orders@[i]->size {
            before.orders@.update(
                i,
                ReduceOnlyOrderInfo::V1 {
                    order_id: oid,
                    size: (before.orders@[i]->size - cleanup) as u64,
                },
            )
        } else {
            before.orders@.remove(i)
        })
    } else {
        after == before
    }
}

/// The state of a market after `cleanup` of reduce-only order `oid` leaves
/// it; the margin stays as it was.
pub open spec fn reduce_only_cancelled(
    before: PendingMarketState,
    after: PendingMarketState,
    oid: OrderId,
    cleanup: u64,
    tracking: bool,
) -> bool {
    &&& reduce_only_removed(before.reduce_only_orders, after.reduce_only_orders, oid, cleanup)
    &&& after.pending_margin == before.pending_margin
    &&& after.pending_single_longs == before.pending_single_longs
    &&& after.pending_single_shorts == before.pending_single_shorts
    &&& after.pending_bulk_longs == before.pending_bulk_longs
    &&& after.pending_bulk_shorts == before.pending_bulk_shorts
    &&& after.tp_reqs == before.tp_reqs
    &&& after.sl_reqs == before.sl_reqs
    &&& if tracking && holds_reduce_only(before.reduce_only_orders.orders@, oid) {
        &&& after.tracked_size(oid.order_id) == tracked_after_cleanup(
            before.tracked_size(oid.order_id),
            cleanup,
        )
        &&& forall|k: u128|
            k != oid.order_id ==> #[trigger] after.tracked_size(k) == before.tracked_size(k)
    } else {
        after.pending_order_ids == before.pending_order_ids
    }
}

fn find_reduce_only(orders: &Vec<ReduceOnlyOrderInfo>, oid: OrderId) -> (r: Option<usize>)
    ensures
        r is None ==> !holds_reduce_only(orders@, oid),
        r matches Some(i) ==> is_first_reduce_only(orders@, oid, i as int),
{
    let mut i: usize = 0;
    while i < orders.len()
        invariant
            i <= orders@.len(),
            forall|j: int| 0 <= j < i ==> #[trigger] orders@[j]->order_id != oid,
        decreases orders@.len() - i,
    {
        let ReduceOnlyOrderInfo::V1 { order_id, .. } = orders[i];
        if order_id == oid {
            return Some(i);
        }
        i += 1;
    }
    proof {
        assert forall|i: int| !#[trigger] is_first_reduce_only(orders@, oid, i) by {}
    }
    None
}

proof fn lemma_first_reduce_only_unique(orders: Seq<ReduceOnlyOrderInfo>, oid: OrderId, i: int, j: int)
    requires
        is_first_reduce_only(orders, oid, i),
        is_first_reduce_only(orders, oid, j),
    ensures
        i == j,
{
    if i < j {
        assert(orders[i]->order_id != oid);
    }
    if j < i {
        assert(orders[j]->order_id != oid);
    }
}

fn remove_reduce_only_in_market(
    market_state: &mut PendingMarketState,
    order_id: OrderId,
    cleanup_size: u64,
    tracking: bool,
)
    requires
        old(market_state).wf(),
        reduce_only_cleanup_ok(old(market_state).reduce_only_orders, order_id, cleanup_size),
        tracking && holds_reduce_only(old(market_state).reduce_only_orders.orders@, order_id)
            ==> cleanup_ok(*old(market_state), order_id.order_id, cleanup_size),
    ensures
        final(market_state).wf(),
        reduce_only_cancelled(*old(market_state), *final(market_state), order_id, cleanup_size, tracking),
{
    match find_reduce_only(&market_state.reduce_only_orders.orders, order_id) {
        Some(i) => {
            let ghost before = *market_state;
            let ReduceOnlyOrderInfo::V1 { size, .. } = market_state.reduce_only_orders.orders[i];
            proof {
                assert(holds_reduce_only(before.reduce_only_orders.orders@, order_id));
                let c = choose|c: int| #[trigger] is_first_reduce_only(before.reduce_only_orders.orders@, order_id, c);
                lemma_first_reduce_only_unique(before.reduce_only_orders.orders@, order_id, c, i as int);
            }
            market_state.reduce_only_orders.total_size = market_state.reduce_only_orders.total_size
                - cleanup_size;
            if cleanup_size < size {
                market_state.reduce_only_orders.orders.set(
                    i,
                    ReduceOnlyOrderInfo::V1 { order_id, size: size - cleanup_size },
                );
            } else {
                market_state.reduce_only_orders.orders.remove(i);
            }
            if tracking {
                remove_order_id_tracking(market_state, order_id, cleanup_size);
            }
        },
        None => {},
    }
}

impl GlobalSummary {
    /// Takes `cleanup_size` of an order off the account's pending orders in
    /// the market: off the reduce-only orders for a reduce-only order (with
    /// the margin left as it was), else off the order's side, with the margin
    /// computed anew; in both cases off the order's tracked size where
    /// tracking is on.
    pub fn remove_pending_order(
        &mut self,
        account: [u8; 32],
        market: [u8; 32],
        order_id: OrderId,
        cleanup_size: u64,
        limit_price: u64,
        is_long: bool,
        is_reduce_only: bool,
        position_size: u64,
        position_is_long: bool,
        user_leverage: u8,
        size_multiplier: u64,
    )
        requires
            old(self).wf(),
            is_reduce_only ==> (old(self).market_state(account, market) matches Some(st) ==> {
                &&& reduce_only_cleanup_ok(st.reduce_only_orders, order_id, cleanup_size)
                &&& old(self).accounts()[account].is_order_id_tracking_enabled && holds_reduce_only(
                    st.reduce_only_orders.orders@,
                    order_id,
                ) ==> cleanup_ok(st, order_id.order_id, cleanup_size)
            }),
            !is_reduce_only ==> (old(self).market_state(account, market) matches Some(st) && {
                &&& cancellation_ok(
                    st.pending_single_longs,
                    st.pending_single_shorts,
                    st.pending_bulk_longs,
                    st.pending_bulk_shorts,
                    cleanup_size,
                    limit_price,
                    is_long,
                    position_size,
                    position_is_long,
                    user_leverage,
                    size_multiplier,
                )
                &&& old(self).accounts()[account].is_order_id_tracking_enabled ==> cleanup_ok(
                    st,
                    order_id.order_id,
                    cleanup_size,
                )
            }),
        ensures
            final(self).wf(),
            old(self).market_state(account, market) is None ==> final(self).accounts() == old(
                self,
            ).accounts(),
            old(self).market_state(account, market) matches Some(before) ==> {
                &&& only_market_changed(
                    old(self).accounts(),
                    final(self).accounts(),
                    account,
                    market,
                )
                &&& is_reduce_only ==> reduce_only_cancelled(
                    before,
                    final(self).accounts()[account].markets.view()[market],
                    order_id,
                    cleanup_size,
                    old(self).accounts()[account].is_order_id_tracking_enabled,
                )
                &&& !is_reduce_only ==> order_cancelled(
                    before,
                    final(self).accounts()[account].markets.view()[market],
                    order_id,
                    cleanup_size,
                    limit_price,
                    is_long,
                    old(self).accounts()[account].is_order_id_tracking_enabled,
                    position_size,
                    position_is_long,
                    user_leverage,
                    size_multiplier,
                )
            },
    {
        let ai = match self.summary.index_of(&account) {
            Some(i) => i,
            None => {
                return ;
            },
        };
        proof {
            assert(old(self).accounts()[account].wf());
        }
        let acc = self.summary.value_at_mut(ai);
        let tracking = acc.is_order_id_tracking_enabled;
        let mi = match acc.markets.index_of(&market) {
            Some(i) => i,
            None => {
                proof {
                    assert(final(self).accounts() =~= old(self).accounts());
                }
                return ;
            },
        };
        let ghost markets_mid = acc.markets.view();
        let st = acc.markets.value_at_mut(mi);
        let ghost before = *st;
        if is_reduce_only {
            remove_reduce_only_in_market(st, order_id, cleanup_size, tracking);
        } else {
            if is_long {
                remove_from_pending_orders(&mut st.pending_single_longs, cleanup_size, limit_price);
            } else {
                remove_from_pending_orders(&mut st.pending_single_shorts, cleanup_size, limit_price);
            }
            let ghost st0 = *st;
            if tracking {
                remove_order_id_tracking(st, order_id, cleanup_size);
            }
            let ghost st1 = *st;
            update_required_margin_for_market(
                st,
                position_size,
                position_is_long,
                user_leverage,
                size_multiplier,
            );
            proof {
                if tracking {
                    assert forall|k: u128| k != order_id.order_id implies #[trigger] st.tracked_size(k)
                        == before.tracked_size(k) by {
                        assert(st1.tracked_size(k) == st0.tracked_size(k));
                        assert(st0.pending_order_ids == before.pending_order_ids);
                    }
                    assert(st1.tracked_size(order_id.order_id) == st.tracked_size(order_id.order_id));
                }
            }
        }
        proof {
            assert(*final(st) == *st);
            assert(final(acc).markets.view() == markets_mid.insert(market, *st));
            assert(final(self).accounts() == old(self).accounts().insert(account, *final(acc)));
            assert(final(acc).is_order_id_tracking_enabled == tracking);
            assert(final(self).accounts()[account].markets.view()[market] == *st);
            assert(final(self).accounts().dom() =~= old(self).accounts().dom());
            assert(final(self).accounts()[account].markets.view().dom() =~= old(self).accounts()[account].markets.view().dom().insert(market));
            assert(old(self).market_state(account, market) == Some(before));
        }
    }

    /// Computes the account's margin in the market anew for a changed
    /// position; nothing changes where the account or market is unknown.
    pub fn update_position(
        &mut self,
        account: [u8; 32],
        market: [u8; 32],
        position_size: u64,
        position_is_long: bool,
        user_leverage: u8,
        size_multiplier: u64,
    )
        requires
            old(self).wf(),
            old(self).market_state(account, market) matches Some(st) ==> st.margin_ok(
                position_size,
                position_is_long,
                user_leverage,
                size_multiplier,
            ),
        ensures
            final(self).wf(),
            old(self).market_state(account, market) is None ==> final(self).accounts() == old(
                self,
            ).accounts(),
            old(self).market_state(account, market) matches Some(before) ==> {
                &&& only_market_changed(
                    old(self).accounts(),
                    final(self).accounts(),
                    account,
                    market,
                )
                &&& same_orders(final(self).accounts()[account].markets.view()[market], before)
                &&& final(self).accounts()[account].markets.view()[market].pending_order_ids
                    == before.pending_order_ids
                &&& final(self).accounts()[account].markets.view()[market].pending_margin
                    == before.margin_for(
                    position_size,
                    position_is_long,
                    user_leverage,
                    size_multiplier,
                )
            },
    {
        let ai = match self.summary.index_of(&account) {
            Some(i) => i,
            None => {
                return ;
            },
        };
        proof {
            assert(old(self).accounts()[account].wf());
        }
        let acc = self.summary.value_at_mut(ai);
        let mi = match acc.markets.index_of(&market) {
            Some(i) => i,
            None => {
                proof {
                    assert(final(self).accounts() =~= old(self).accounts());
                }
                return ;
            },
        };
        let ghost markets_mid = acc.markets.view();
        let st = acc.markets.value_at_mut(mi);
        let ghost before = *st;
        update_required_margin_for_market(
            st,
            position_size,
            position_is_long,
            user_leverage,
            size_multiplier,
        );
        proof {
            assert(*final(st) == *st);
            assert(final(acc).markets.view() == markets_mid.insert(market, *st));
            assert(final(self).accounts() == old(self).accounts().insert(account, *final(acc)));
            assert(final(self).accounts()[account].markets.view()[market] == *st);
            assert(final(self).accounts().dom() =~= old(self).accounts().dom());
            assert(final(self).accounts()[account].markets.view().dom() =~= old(self).accounts()[account].markets.view().dom().insert(market));
            assert(old(self).market_state(account, market) == Some(before));
        }
    }

    /// The ids of the account's reduce-only orders in the market, in order.
    pub fn get_reduce_only_orders(&self, account: [u8; 32], market: [u8; 32]) -> (r: Vec<OrderId>)
        requires
            self.wf(),
        ensures
            match self.market_state(account, market) {
                Some(st) => r@.len() == st.reduce_only_orders.orders@.len() && forall|i: int|
                    0 <= i < r@.len() ==> #[trigger] r@[i] == st.reduce_only_orders.orders@[i]->order_id,
                None => r@.len() == 0,
            },
    {
        match self.summary.get(&account) {
            Some(acc) => {
                proof {
                    assert(self.accounts()[account].wf());
                }
                match acc.markets.get(&market) {
                    Some(st) => {
                        let orders = &st.reduce_only_orders.orders;
                        let mut r: Vec<OrderId> = Vec::new();
                        let mut i: usize = 0;
                        while i < orders.len()
                            invariant
                                i <= orders@.len(),
                                r@.len() == i,
                                forall|j: int| 0 <= j < i ==> #[trigger] r@[j] == orders@[j]->order_id,
                            decreases orders@.len() - i,
                        {
                            let ReduceOnlyOrderInfo::V1 { order_id, .. } = orders[i];
                            r.push(order_id);
                            i += 1;
                        }
                        r
                    },
                    None => Vec::new(),
                }
            },
            None => Vec::new(),
        }
    }
}

// ------------------------------------------------------------------
// Tracking orders by id.
// ------------------------------------------------------------------
fn tracked_prefix(ids: &TrackedOrderSizes, max_orders: u64) -> (r: (Vec<OrderId>, Vec<u64>))
    ensures
        r.0@.len() == r.1@.len(),
        r.0@.len() == (if max_orders < ids.entries().len() {
            max_orders as int
        } else {
            ids.entries().len() as int
        }),
        forall|i: int|
            #![trigger r.0@[i]]
            0 <= i < r.0@.len() ==> r.0@[i].order_id == ids.entries()[i].0 && r.1@[i]
                == ids.entries()[i].1,
{
    let mut order_ids: Vec<OrderId> = Vec::new();
    let mut sizes: Vec<u64> = Vec::new();
    let n = ids.len();
    let mut count: u64 = 0;
    let mut i: usize = 0;
    while i < n && count < max_orders
        invariant
            n == ids.entries().len(),
            i <= n,
            count == i,
            count <= max_orders,
            order_ids@.len() == i,
            sizes@.len() == i,
            forall|j: int|
                0 <= j < i ==> #[trigger] order_ids@[j].order_id == ids.entries()[j].0 && sizes@[j]
                    == ids.entries()[j].1,
        decreases n - i,
    {
        let (oid, size) = ids.entry_at(i);
        order_ids.push(OrderId { order_id: oid });
        sizes.push(size);
        count += 1;
        i += 1;
    }
    let ghost ids_s = order_ids@;
    let ghost sizes_s = sizes@;
    let r = (order_ids, sizes);
    assert(r.0@ == ids_s && r.1@ == sizes_s);
    assert forall|i: int| 0 <= i < r.0@.len() implies r.0@[i].order_id == ids.entries()[i].0 && r.1@[i]
                == ids.entries()[i].1 by {
        assert(ids_s[i].order_id == ids.entries()[i].0);
    }
    r
}

impl GlobalSummary {
    /// Turns tracking by order id on for the account (adding the account if
    /// it is missing); an account with tracking off must have nothing
    /// pending.
    pub fn enable_order_id_tracking(&mut self, account: [u8; 32])
        requires
            old(self).wf(),
            old(self).account(account) matches Some(acc) ==> (acc.is_order_id_tracking_enabled
                || !acc.has_pending()),
        ensures
            final(self).wf(),
            final(self).accounts().dom() == old(self).accounts().dom().insert(account),
            forall|a: [u8; 32]|
                a != account ==> #[trigger] final(self).accounts()[a] == old(self).accounts()[a],
            final(self).accounts()[account].is_order_id_tracking_enabled,
            old(self).accounts().contains_key(account) ==> final(self).accounts()[account].markets
                == old(self).accounts()[account].markets,
            !old(self).accounts().contains_key(account) ==> final(self).accounts()[account].markets.view()
                == Map::<[u8; 32], PendingMarketState>::empty(),
    {
        match self.summary.index_of(&account) {
            None => {
                let acc = AccountSummary { markets: AddrMap::new(), is_order_id_tracking_enabled: true };
                self.summary.insert(account, acc);
                proof {
                    assert(final(self).accounts().dom() =~= old(self).accounts().dom().insert(account));
                }
            },
            Some(ai) => {
                proof {
                    assert(old(self).accounts()[account].wf());
                }
                let acc = self.summary.value_at_mut(ai);
                if !acc.is_order_id_tracking_enabled {
                    acc.is_order_id_tracking_enabled = true;
                }
                proof {
                    assert(final(self).accounts().dom() =~= old(self).accounts().dom().insert(account));
                }
            },
        }
    }

    /// Whether tracking by order id is on for the account.
    pub fn is_order_id_tracking_enabled(&self, account: [u8; 32]) -> (r: bool)
        requires
            self.wf(),
        ensures
            r == (match self.account(account) {
                Some(acc) => acc.is_order_id_tracking_enabled,
                None => false,
            }),
    {
        match self.summary.get(&account) {
            Some(acc) => acc.is_order_id_tracking_enabled,
            None => false,
        }
    }

    /// The first `max_orders` tracked orders of the account in the market,
    /// in increasing id order, with their sizes (none where nothing is
    /// tracked).
    pub fn get_tracked_order_ids_with_sizes(
        &self,
        account: [u8; 32],
        market: [u8; 32],
        max_orders: u64,
    ) -> (r: (Vec<OrderId>, Vec<u64>))
        requires
            self.wf(),
        ensures
            r.0@.len() == r.1@.len(),
            match self.market_state(account, market) {
                Some(st) => match st.pending_order_ids {
                    Some(ids) => {
                        &&& r.0@.len() == (if max_orders < ids.entries().len() {
                            max_orders as int
                        } else {
                            ids.entries().len() as int
                        })
                        &&& forall|i: int|
                            #![trigger r.0@[i]]
                            0 <= i < r.0@.len() ==> r.0@[i].order_id == ids.entries()[i].0
                                && r.1@[i] == ids.entries()[i].1
                    },
                    None => r.0@.len() == 0,
                },
                None => r.0@.len() == 0,
            },
    {
        let acc = match self.summary.get(&account) {
            Some(acc) => acc,
            None => {
                return (Vec::new(), Vec::new());
            },
        };
        proof {
            assert(self.accounts()[account].wf());
        }
        let st = match acc.markets.get(&market) {
            Some(st) => st,
            None => {
                return (Vec::new(), Vec::new());
            },
        };
        proof {
            assert(self.market_state(account, market) == Some(*st));
        }
        match &st.pending_order_ids {
            Some(ids) => {
                let r = tracked_prefix(ids, max_orders);
                proof {
                    assert(st.pending_order_ids == Some(*ids));
                }
                r
            },
            None => (Vec::new(), Vec::new()),
        }
    }

    /// The first tracked order (lowest id) of the first market, in address
    /// order, where the account has margin reserved and tracked orders.
    pub fn get_next_tracked_order_using_margin(&self, account: [u8; 32]) -> (r: Option<
        TrackedOrderInfo,
    >)
        requires
            self.wf(),
        ensures
            match self.account(account) {
                None => r is None,
                Some(acc) => {
                    &&& r is None <==> forall|m: [u8; 32]| #[trigger]
                        acc.markets.view().contains_key(m) ==> !market_uses_tracked_margin(
                            acc.markets.view()[m],
                        )
                    &&& r matches Some(TrackedOrderInfo::V1 { market, order_id, size }) ==> {
                        &&& acc.markets.view().contains_key(market)
                        &&& market_uses_tracked_margin(acc.markets.view()[market])
                        &&& forall|m: [u8; 32]| #[trigger]
                            acc.markets.view().contains_key(m) && market_uses_tracked_margin(
                                acc.markets.view()[m],
                            ) ==> m == market || lex_lt(market@, m@)
                        &&& acc.markets.view()[market].pending_order_ids matches Some(ids) && (
                        order_id.order_id, size) == ids.entries()[0]
                    }
                },
            },
    {
        let acc = match self.summary.get(&account) {
            Some(acc) => acc,
            None => {
                return None;
            },
        };
        proof {
            assert(self.accounts()[account].wf());
            acc.markets.lemma_key_positions();
        }
        let n = acc.markets.len();
        let mut best: Option<usize> = None;
        let mut i: usize = 0;
        while i < n
            invariant
                acc.wf(),
                n == acc.markets.len_spec(),
                i <= n,
                forall|k: [u8; 32]|
                    acc.markets.view().contains_key(k) <==> exists|j: int|
                        0 <= j < acc.markets.len_spec() && #[trigger] acc.markets.key_at_spec(j) == k,
                forall|j: int|
                    0 <= j < acc.markets.len_spec() ==> acc.markets.view().contains_key(
                        #[trigger] acc.markets.key_at_spec(j),
                    ),
                best is None ==> forall|j: int|
                    0 <= j < i ==> !market_uses_tracked_margin(
                        acc.markets.view()[#[trigger] acc.markets.key_at_spec(j)],
                    ),
                best matches Some(b) ==> {
                    &&& b < i
                    &&& market_uses_tracked_margin(acc.markets.view()[acc.markets.key_at_spec(b as int)])
                    &&& forall|j: int|
                        0 <= j < i && market_uses_tracked_margin(
                            acc.markets.view()[#[trigger] acc.markets.key_at_spec(j)],
                        ) ==> acc.markets.key_at_spec(j) == acc.markets.key_at_spec(b as int)
                            || lex_lt(acc.markets.key_at_spec(b as int)@, acc.markets.key_at_spec(j)@)
                },
            decreases n - i,
        {
            let st = acc.markets.value_at(i);
            let qualifies = st.pending_margin > 0 && match &st.pending_order_ids {
                Some(ids) => ids.len() > 0,
                None => false,
            };
            if qualifies {
                match best {
                    None => {
                        best = Some(i);
                    },
                    Some(b) => {
                        let kb = acc.markets.key_at(b);
                        let ki = acc.markets.key_at(i);
                        if addr_lt(&ki, &kb) {
                            proof {
                                assert forall|j: int|
                                    0 <= j < i + 1 && market_uses_tracked_margin(
                                        acc.markets.view()[#[trigger] acc.markets.key_at_spec(j)],
                                    ) implies acc.markets.key_at_spec(j) == ki || lex_lt(
                                    ki@,
                                    acc.markets.key_at_spec(j)@,
                                ) by {
                                    if j < i {
                                        if acc.markets.key_at_spec(j) != kb {
                                            lemma_lex_trans(ki@, kb@, acc.markets.key_at_spec(j)@);
                                        }
                                    }
                                }
                            }
                            best = Some(i);
                        } else {
                            proof {
                                if ki != kb {
                                    if ki@ == kb@ {
                                        crate::addr_map::lemma_addr_ext(ki, kb);
                                    }
                                    lemma_lex_total(ki@, kb@);
                                }
                            }
                        }
                    },
                }
            }
            i += 1;
        }
        match best {
            None => {
                proof {
                    assert forall|m: [u8; 32]| #[trigger]
                        acc.markets.view().contains_key(m) implies !market_uses_tracked_margin(
                        acc.markets.view()[m],
                    ) by {
                        let j = choose|j: int|
                            0 <= j < acc.markets.len_spec() && #[trigger] acc.markets.key_at_spec(j)
                                == m;
                    }
                }
                None
            },
            Some(b) => {
                let market = acc.markets.key_at(b);
                let st = acc.markets.value_at(b);
                let (oid, size) = match &st.pending_order_ids {
                    Some(ids) => ids.entry_at(0),
                    None => (0, 0),
                };
                proof {
                    assert forall|m: [u8; 32]| #[trigger]
                        acc.markets.view().contains_key(m) && market_uses_tracked_margin(
                            acc.markets.view()[m],
                        ) implies m == market || lex_lt(market@, m@) by {
                        let j = choose|j: int|
                            0 <= j < acc.markets.len_spec() && #[trigger] acc.markets.key_at_spec(j)
                                == m;
                    }
                }
                Some(TrackedOrderInfo::V1 { market, order_id: OrderId { order_id: oid }, size })
            },
        }
    }
}

impl TrackedOrderInfo {
    pub fn get_market(&self) -> (r: [u8; 32])
        ensures
            r == self->market,
    {
        match self {
            TrackedOrderInfo::V1 { market, .. } => *market,
        }
    }

    pub fn get_order_id(&self) -> (r: OrderId)
        ensures
            r == self->order_id,
    {
        match self {
            TrackedOrderInfo::V1 { order_id, .. } => *order_id,
        }
    }

    pub fn get_size(&self) -> (r: u64)
        ensures
            r == self->size,
    {
        match self {
            TrackedOrderInfo::V1 { size, .. } => *size,
        }
    }
}

/// Whether the account at an address has pending orders, as the host
/// reports it: without a host, no account has any.
pub fn has_any_pending_orders_by_addr(_account: [u8; 32]) -> (r: bool)
    ensures
        !r,
{
    false
}

} // verus!
