use perpdex::clearinghouse_perp::{
    close_delisted_position, get_adjusted_size_for_open_interest_cap, place_maker_order, reduce_order_size,
    settle_backstop_liquidation_or_adl, settle_trade, validate_order_placement, SettleTradeInput,
    EINVALID_PRICE_IS_ZERO, EINVALID_SIZE_IS_ZERO, ENOT_REDUCE_ONLY, ESELF_TRADE_NOT_ALLOWED,
};
use perpdex::fee_distribution::{
    add, distribute_fees, distribute_fees_for_position, get_builder_or_referrer_fees, get_position_fee_delta,
    get_system_fee_delta, new_fee_distribution, new_fee_with_destination, new_margin_call_fee_distribution,
    zero_fees, EINVALID_ADDRESS, EINVALID_AMOUNT, EINVALID_FEE_DISTRIBUTION, ESYSTEM_FEE_DRAIN,
};
use perpdex::liquidation::{heapsort_descending_by_upnl, min_liquidation_units, should_trigger_adl_price};

const A: [u8; 32] = [1u8; 32];
const B: [u8; 32] = [2u8; 32];
const M: [u8; 32] = [3u8; 32];

fn trade(taker: [u8; 32], maker: [u8; 32], price: u64, size: u64) -> SettleTradeInput {
    SettleTradeInput {
        taker,
        maker,
        taker_order_id: 1,
        maker_order_id: 2,
        taker_client_order_id: None,
        maker_client_order_id: None,
        is_taker_long: true,
        settled_price: price,
        size,
        maker_limit_price: price,
        fill_id: 3,
    }
}

#[test]
fn test_open_interest_cap() {
    // below the largest delta: the size stands
    assert_eq!(get_adjusted_size_for_open_interest_cap(A, B, M, true, 5, 10, 30, 0, false), (5, 30, false));
    // summed delta 15 above the cap 10: the size is cut by 5
    assert_eq!(get_adjusted_size_for_open_interest_cap(A, B, M, true, 12, 10, 10, 5, false), (7, 10, true));
    // an excess as large as the size leaves nothing
    assert_eq!(get_adjusted_size_for_open_interest_cap(A, B, M, true, 10, 10, 20, 5, false), (0, 0, true));
    // the backstop liquidator is never capped
    assert_eq!(get_adjusted_size_for_open_interest_cap(A, B, M, true, 12, 10, 10, 5, true), (12, 15, false));
    // within the cap
    assert_eq!(get_adjusted_size_for_open_interest_cap(A, B, M, true, 12, 10, 4, 5, false), (12, 9, false));
}

#[test]
fn test_validate_order_placement() {
    assert_eq!(validate_order_placement(M, A, true, 10, 1, false, false, false, false), Some("Market is halted".to_string()));
    assert_eq!(validate_order_placement(M, A, true, 10, 1, false, false, true, false), None);
    assert_eq!(validate_order_placement(M, A, true, 10, 1, false, false, true, true), None);
}

#[test]
fn test_settle_trade() {
    assert_eq!(settle_trade(trade(A, A, 10, 1)).err(), Some(ESELF_TRADE_NOT_ALLOWED));
    assert_eq!(settle_trade(trade(A, B, 10, 0)).err(), Some(EINVALID_SIZE_IS_ZERO));
    assert_eq!(settle_trade(trade(A, B, 0, 3)).err(), Some(EINVALID_PRICE_IS_ZERO));
    let out = settle_trade(trade(A, B, 10, 3)).unwrap();
    assert_eq!(out.settled_size, 3);
    assert!(out.maker_cancellation_reason.is_none());
    assert!(out.taker_cancellation_reason.is_none());
    assert!(!out.should_stop_matching);
}

#[test]
fn test_settle_backstop_liquidation_or_adl() {
    assert_eq!(settle_backstop_liquidation_or_adl(A, B, M, true, 10, 0, false).err(), Some(EINVALID_SIZE_IS_ZERO));
    assert_eq!(settle_backstop_liquidation_or_adl(A, B, M, true, 0, 4, false).err(), Some(EINVALID_PRICE_IS_ZERO));
    assert_eq!(settle_backstop_liquidation_or_adl(A, A, M, true, 10, 4, true).err(), Some(ESELF_TRADE_NOT_ALLOWED));
    let out = settle_backstop_liquidation_or_adl(A, B, M, false, 10, 4, true).unwrap();
    assert_eq!(out.filled_size, Some(4));
    assert_eq!(out.maker_covered_loss, 0);
}

#[test]
fn test_clearinghouse_small_calls() {
    assert_eq!(reduce_order_size(M, A, 1, 5, false), Err(ENOT_REDUCE_ONLY));
    assert_eq!(reduce_order_size(M, A, 1, 5, true), Ok(()));
    assert_eq!(close_delisted_position(A, M), Ok(()));
    assert!(place_maker_order(M, A, 1, 10, true, 5, false, false, false).is_empty());
}

#[test]
fn test_min_liquidation_units() {
    // deficit 100 - 50 + 1 = 51; 51 * 1000 * 100 / (10 * 1000) = 510, rounded up to the lot of 20
    assert_eq!(min_liquidation_units(1000, 50, 100, 1000, 0, 10, 1000, 100, 1, 20), 520);
    // no more than the position
    assert_eq!(min_liquidation_units(500, 50, 100, 1000, 0, 10, 1000, 100, 1, 20), 500);
    // at least the minimum size
    assert_eq!(min_liquidation_units(1000, 50, 100, 1000, 0, 10, 1, 1, 30, 1), 30);
    // a zero denominator takes the whole position
    assert_eq!(min_liquidation_units(77, 50, 100, 1000, 1000, 10, 1, 1, 1, 1), 77);
}

#[test]
fn test_should_trigger_adl_price() {
    assert_eq!(should_trigger_adl_price(100, 0, 0, 0, 20000, 100, true, 1), None);
    assert_eq!(should_trigger_adl_price(100, 50, 0, 0, 20000, 0, true, 1), None);
    // a loss of 10000 below a threshold of 20000 does not trigger
    assert_eq!(should_trigger_adl_price(100, 20000, 0, 0, 20000, 100, true, 1), None);
    // long: bankruptcy price (50 * -1 + 20000) / 100 = 199, above the mark
    assert_eq!(should_trigger_adl_price(100, 50, 0, 0, 20000, 100, true, 1), Some(199));
    // short: bankruptcy price (50 + 20000) / 100 = 200, below the mark
    assert_eq!(should_trigger_adl_price(300, 50, 0, 0, 20000, 100, false, 1), Some(200));
    // a profit never triggers
    assert_eq!(should_trigger_adl_price(300, 50, 0, 0, 20000, 100, true, 1), None);
}

#[test]
fn test_heapsort_descending_by_upnl() {
    let mut v: Vec<(usize, i64)> = vec![(0, 5), (1, -3), (2, 10), (3, 5), (4, 0)];
    heapsort_descending_by_upnl(&mut v);
    let values: Vec<i64> = v.iter().map(|p| p.1).collect();
    assert_eq!(values, vec![10, 5, 5, 0, -3]);
    let mut ids: Vec<usize> = v.iter().map(|p| p.0).collect();
    ids.sort();
    assert_eq!(ids, vec![0, 1, 2, 3, 4]);
    assert_eq!(v[0], (2, 10));
    assert_eq!(v[4], (1, -3));

    let mut one: Vec<(usize, i64)> = vec![(9, -1)];
    heapsort_descending_by_upnl(&mut one);
    assert_eq!(one, vec![(9, -1)]);
}

#[test]
fn test_fee_distribution_construction_and_sum() {
    let f = new_fee_distribution(A, 100, Some(new_fee_with_destination(B, 10)));
    assert_eq!(get_position_fee_delta(&f), 100);
    assert_eq!(get_system_fee_delta(&f), -90);
    let g = new_fee_distribution(A, 50, Some(new_fee_with_destination(B, 5)));
    let s = add(&f, &g).unwrap();
    assert_eq!(get_position_fee_delta(&s), 150);
    assert_eq!(get_system_fee_delta(&s), -135);
    match get_builder_or_referrer_fees(&s) {
        Some(perpdex::fee_distribution::FeeWithDestination::V1 { address, fees }) => {
            assert_eq!(address, B);
            assert_eq!(fees, 15);
        },
        None => panic!("fees were lost"),
    }
    // different balances, destinations, or a margin call cannot be summed
    assert_eq!(add(&f, &zero_fees(B)).err(), Some(EINVALID_FEE_DISTRIBUTION));
    assert_eq!(add(&f, &zero_fees(A)).err(), Some(EINVALID_FEE_DISTRIBUTION));
    let h = new_fee_distribution(A, 50, Some(new_fee_with_destination(M, 5)));
    assert_eq!(add(&f, &h).err(), Some(EINVALID_ADDRESS));
    assert_eq!(add(&f, &new_margin_call_fee_distribution(A, 3)).err(), Some(EINVALID_FEE_DISTRIBUTION));
}

#[test]
fn test_distribute_fees() {
    let taker = new_fee_distribution(A, 100, None);
    let maker = new_fee_distribution(A, 20, None);
    // the treasury gains 120, of which the vault takes 30 percent
    assert_eq!(distribute_fees(&taker, &maker, B, 30, M).unwrap().backstop_final, 36);
    // a maker rebate larger than the taker fee drains the treasury
    let rebate = new_fee_distribution(A, -200, None);
    assert_eq!(distribute_fees(&taker, &rebate, B, 30, M).err(), Some(ESYSTEM_FEE_DRAIN));
    // a margin call pays the vault nothing of its own fee
    let mc = new_margin_call_fee_distribution(A, 50);
    assert_eq!(distribute_fees(&mc, &maker, B, 30, M).unwrap().backstop_final, 6);
    assert_eq!(distribute_fees_for_position(&rebate), Ok(()));
    assert_eq!(distribute_fees_for_position(&mc), Err(EINVALID_FEE_DISTRIBUTION));
    let negative_mc = new_margin_call_fee_distribution(A, u64::MAX);
    assert_eq!(distribute_fees(&negative_mc, &maker, B, 30, M).err(), Some(EINVALID_AMOUNT));
    assert_eq!(distribute_fees_for_position(&taker), Ok(()));
}
