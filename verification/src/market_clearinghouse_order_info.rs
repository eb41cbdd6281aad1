//! What a market tells its clearinghouse about an order.
use vstd::prelude::*;
use crate::market_types::{clone_opt_bytes, opt_bytes};
use crate::order_book_types::{OrderId, OrderType, TimeInForce, TriggerCondition};

verus! {

#[derive(Clone, Debug)]
pub enum MarketClearinghouseOrderInfo<M: Clone + Copy> {
    V1 {
        account: [u8; 32],
        order_id: OrderId,
        client_order_id: Option<Vec<u8>>,
        is_bid: bool,
        limit_price: u64,
        time_in_force: TimeInForce,
        order_type: OrderType,
        trigger_condition: Option<TriggerCondition>,
        metadata: M,
    },
}

pub fn new_clearinghouse_order_info<M: Clone + Copy>(
    account: [u8; 32],
    order_id: OrderId,
    client_order_id: Option<Vec<u8>>,
    is_bid: bool,
    limit_price: u64,
    time_in_force: TimeInForce,
    order_type: OrderType,
    trigger_condition: Option<TriggerCondition>,
    metadata: M,
) -> (r: MarketClearinghouseOrderInfo<M>)
    ensures
        r == (MarketClearinghouseOrderInfo::V1 {
            account,
            order_id,
            client_order_id,
            is_bid,
            limit_price,
            time_in_force,
            order_type,
            trigger_condition,
            metadata,
        }),
{
    MarketClearinghouseOrderInfo::V1 {
        account,
        order_id,
        client_order_id,
        is_bid,
        limit_price,
        time_in_force,
        order_type,
        trigger_condition,
        metadata,
    }
}

pub fn get_account<M: Clone + Copy>(info: &MarketClearinghouseOrderInfo<M>) -> (r: [u8; 32])
    ensures
        r == info->account,
{
    let MarketClearinghouseOrderInfo::V1 { account, .. } = info;
    *account
}

pub fn get_order_id<M: Clone + Copy>(info: &MarketClearinghouseOrderInfo<M>) -> (r: OrderId)
    ensures
        r == info->order_id,
{
    let MarketClearinghouseOrderInfo::V1 { order_id, .. } = info;
    *order_id
}

pub fn is_bid<M: Clone + Copy>(info: &MarketClearinghouseOrderInfo<M>) -> (r: bool)
    ensures
        r == info->is_bid,
{
    let MarketClearinghouseOrderInfo::V1 { is_bid, .. } = info;
    *is_bid
}

pub fn get_client_order_id<M: Clone + Copy>(info: &MarketClearinghouseOrderInfo<M>) -> (r: Option<
    Vec<u8>,
>)
    ensures
        opt_bytes(r) == opt_bytes(info->client_order_id),
{
    let MarketClearinghouseOrderInfo::V1 { client_order_id, .. } = info;
    clone_opt_bytes(client_order_id)
}

pub fn get_metadata<M: Clone + Copy>(info: &MarketClearinghouseOrderInfo<M>) -> (r: &M)
    ensures
        *r == info->metadata,
{
    let MarketClearinghouseOrderInfo::V1 { metadata, .. } = info;
    metadata
}

/// The fields of the order info.
pub fn into_inner<M: Clone + Copy>(info: MarketClearinghouseOrderInfo<M>) -> (r: (
    [u8; 32],
    OrderId,
    Option<Vec<u8>>,
    bool,
    u64,
    TimeInForce,
    OrderType,
    Option<TriggerCondition>,
    M,
))
    ensures
        r == (
            info->account,
            info->order_id,
            info->client_order_id,
            info->is_bid,
            info->limit_price,
            info->time_in_force,
            info->order_type,
            info->trigger_condition,
            info->metadata,
        ),
{
    let MarketClearinghouseOrderInfo::V1 {
        account,
        order_id,
        client_order_id,
        is_bid,
        limit_price,
        time_in_force,
        order_type,
        trigger_condition,
        metadata,
    } = info;
    (
        account,
        order_id,
        client_order_id,
        is_bid,
        limit_price,
        time_in_force,
        order_type,
        trigger_condition,
        metadata,
    )
}

} // verus!
