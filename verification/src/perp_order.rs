//! The arguments of a perpetual-futures order request.
use vstd::prelude::*;
use crate::order_book_types::TimeInForce;

verus! {

#[derive(Clone, Debug)]
pub enum PerpOrderRequestCommonArgs {
    V1 {
        price: u64,
        orig_size: u64,
        is_buy: bool,
        time_in_force: TimeInForce,
        client_order_id: Option<Vec<u8>>,
    },
}

#[derive(Clone, Copy, Debug, PartialEq, Eq, Structural)]
pub enum PerpOrderRequestTpSlArgs {
    V1 {
        tp_trigger_price: Option<u64>,
        tp_limit_price: Option<u64>,
        sl_trigger_price: Option<u64>,
        sl_limit_price: Option<u64>,
    },
}

} // verus!
