use perpdex::bulk_order_book::{check_bulk_order_sequence, new_bulk_order_book, BulkOrderBook};
use perpdex::bulk_order_types::{
    destroy_bulk_order_place_response_rejection, get_active_price, get_active_size, get_all_prices, get_all_sizes,
    get_order_id, get_order_request, get_sequence_number, get_total_remaining_size, is_rejection_response,
    is_success_response, new_bulk_order, new_bulk_order_match, new_bulk_order_place_response_rejection,
    new_bulk_order_request, set_empty, BulkOrder,
};
use perpdex::bulk_order_utils::{
    cancel_at_price_level, match_order_and_get_next_from_bulk_order, new_bulk_order_request_with_sanitization,
    new_bulk_order_with_sanitization, reinsert_order_into_bulk_order, E_ASK_LENGTH_MISMATCH,
    E_ASK_ORDER_INVALID, E_ASK_SIZE_ZERO, E_BID_LENGTH_MISMATCH, E_BID_ORDER_INVALID, E_BID_SIZE_ZERO,
    E_BULK_ORDER_DEPTH_EXCEEDED, E_EMPTY_ORDER, E_INVALID_SEQUENCE_NUMBER, EPRICE_CROSSING,
};
use perpdex::order_book_types::{new_order_id_type, IncreasingIdx};
use perpdex::order_match_types::{
    destroy_order_match, get_price_from_match_details, get_remaining_size_from_match_details,
    new_bulk_order_match_details,
};

const ACCOUNT: [u8; 32] = [7u8; 32];

fn request_err(seq: u64, bp: Vec<u64>, bs: Vec<u64>, ap: Vec<u64>, as_: Vec<u64>) -> u64 {
    match new_bulk_order_request_with_sanitization(ACCOUNT, seq, bp, bs, ap, as_, 0u64) {
        Ok(_) => panic!("request was accepted"),
        Err(e) => e,
    }
}

fn order(bp: Vec<u64>, bs: Vec<u64>, ap: Vec<u64>, as_: Vec<u64>) -> BulkOrder<u64> {
    let req = new_bulk_order_request(ACCOUNT, 1, bp, bs, ap, as_, 5u64);
    new_bulk_order(req, new_order_id_type(9), IncreasingIdx { idx: 3 }, 1000)
}

#[test]
fn test_sanitization_accepts_valid_request() {
    let req = new_bulk_order_request_with_sanitization(ACCOUNT, 4, vec![100, 99], vec![1, 2], vec![101], vec![3], 0u64)
        .unwrap();
    assert_eq!(get_sequence_number(&req), 4);
    assert_eq!(get_all_prices(&req, true), vec![100, 99]);
    assert_eq!(get_all_sizes(&req, false), vec![3]);
    assert_eq!(get_total_remaining_size(&req, true), 3);
}

#[test]
fn test_sanitization_errors() {
    assert_eq!(request_err(0, vec![1], vec![1], vec![], vec![]), E_INVALID_SEQUENCE_NUMBER);
    assert_eq!(request_err(1, vec![1], vec![], vec![], vec![]), E_BID_LENGTH_MISMATCH);
    assert_eq!(request_err(1, vec![], vec![], vec![1], vec![]), E_ASK_LENGTH_MISMATCH);
    assert_eq!(request_err(1, vec![], vec![], vec![], vec![]), E_EMPTY_ORDER);
    let deep: Vec<u64> = (1..=41).rev().collect();
    assert_eq!(request_err(1, deep.clone(), vec![1; 41], vec![], vec![]), E_BULK_ORDER_DEPTH_EXCEEDED);
    assert_eq!(request_err(1, vec![2, 1], vec![1, 0], vec![], vec![]), E_BID_SIZE_ZERO);
    assert_eq!(request_err(1, vec![], vec![], vec![1], vec![0]), E_ASK_SIZE_ZERO);
    assert_eq!(request_err(1, vec![1, 2], vec![1, 1], vec![], vec![]), E_BID_ORDER_INVALID);
    assert_eq!(request_err(1, vec![], vec![], vec![2, 2], vec![1, 1]), E_ASK_ORDER_INVALID);
    assert_eq!(request_err(1, vec![10], vec![1], vec![10], vec![1]), EPRICE_CROSSING);
}

#[test]
fn test_sanitization_drops_crossing_levels() {
    let req = new_bulk_order_request(ACCOUNT, 1, vec![105, 100, 95], vec![1, 2, 3], vec![96, 110], vec![4, 5], 0u64);
    // bids at or above the best ask of 100 cross; asks at or below the best bid of 96 cross
    let (o, cbp, cbs, cap, cas) =
        new_bulk_order_with_sanitization(new_order_id_type(1), IncreasingIdx { idx: 1 }, req, Some(96), Some(100), 7);
    assert_eq!(cbp, vec![105, 100]);
    assert_eq!(cbs, vec![1, 2]);
    assert_eq!(cap, vec![96]);
    assert_eq!(cas, vec![4]);
    assert_eq!(get_all_prices(get_order_request(&o), true), vec![95]);
    assert_eq!(get_all_prices(get_order_request(&o), false), vec![110]);
    assert_eq!(get_order_id(&o), new_order_id_type(1));
}

#[test]
fn test_sanitization_without_book_keeps_levels() {
    let req = new_bulk_order_request(ACCOUNT, 1, vec![105], vec![1], vec![], vec![], 0u64);
    let (o, cbp, _, cap, _) =
        new_bulk_order_with_sanitization(new_order_id_type(1), IncreasingIdx { idx: 1 }, req, None, None, 7);
    assert!(cbp.is_empty());
    assert!(cap.is_empty());
    assert_eq!(get_active_price(get_order_request(&o), true), Some(105));
    assert_eq!(get_active_price(get_order_request(&o), false), None);
}

#[test]
fn test_match_partial_then_full_level() {
    let mut o = order(vec![100, 99], vec![5, 7], vec![], vec![]);
    let m = new_bulk_order_match(&o, true, 2);
    let (details, matched) = destroy_order_match(m);
    assert_eq!(matched, 2);
    assert_eq!(get_price_from_match_details(&details), 100);
    assert_eq!(get_remaining_size_from_match_details(&details), 3);

    assert_eq!(match_order_and_get_next_from_bulk_order(&mut o, true, 2), (Some(100), Some(3)));
    assert_eq!(match_order_and_get_next_from_bulk_order(&mut o, true, 3), (Some(99), Some(7)));
    assert_eq!(match_order_and_get_next_from_bulk_order(&mut o, true, 7), (None, None));
    assert_eq!(get_active_size(get_order_request(&o), true), None);
}

#[test]
fn test_reinsert_same_price_and_new_level() {
    let mut o = order(vec![], vec![], vec![101, 102], vec![4, 6]);
    let same = new_bulk_order_match_details(new_order_id_type(9), ACCOUNT, IncreasingIdx { idx: 3 }, 101, 2, false, 1, 1000, 5u64);
    reinsert_order_into_bulk_order(&mut o, &same);
    assert_eq!(get_all_sizes(get_order_request(&o), false), vec![6, 6]);
    let better = new_bulk_order_match_details(new_order_id_type(9), ACCOUNT, IncreasingIdx { idx: 3 }, 100, 1, false, 1, 1000, 5u64);
    reinsert_order_into_bulk_order(&mut o, &better);
    assert_eq!(get_all_prices(get_order_request(&o), false), vec![100, 101, 102]);
    assert_eq!(get_all_sizes(get_order_request(&o), false), vec![1, 6, 6]);
}

#[test]
fn test_cancel_at_price_level() {
    let mut o = order(vec![100, 99, 98], vec![1, 2, 3], vec![], vec![]);
    assert_eq!(cancel_at_price_level(&mut o, 99, true), 2);
    assert_eq!(get_all_prices(get_order_request(&o), true), vec![100, 98]);
    assert_eq!(get_all_sizes(get_order_request(&o), true), vec![1, 3]);
    assert_eq!(cancel_at_price_level(&mut o, 97, true), 0);
    assert_eq!(cancel_at_price_level(&mut o, 100, false), 0);
    assert_eq!(get_all_prices(get_order_request(&o), true), vec![100, 98]);
}

#[test]
fn test_set_empty_and_responses() {
    let mut o = order(vec![100], vec![1], vec![101], vec![1]);
    set_empty(&mut o);
    assert!(get_all_prices(get_order_request(&o), true).is_empty());
    assert!(get_all_sizes(get_order_request(&o), false).is_empty());
    let resp = new_bulk_order_place_response_rejection::<u64>(ACCOUNT, 3, 5);
    assert!(is_rejection_response(&resp));
    assert!(!is_success_response(&resp));
    assert_eq!(destroy_bulk_order_place_response_rejection(resp), (ACCOUNT, 3, 5));
}

#[test]
fn test_bulk_order_sequence_check() {
    let mut book = new_bulk_order_book::<u64>();
    let first = new_bulk_order_request(ACCOUNT, 5, vec![100], vec![1], vec![101], vec![1], 0u64);
    assert!(matches!(check_bulk_order_sequence(&book, &first), Ok(None)));
    match &mut book {
        BulkOrderBook::V1 { orders, .. } => orders.add(ACCOUNT, order(vec![100], vec![1], vec![101], vec![1])),
    }
    let stale = new_bulk_order_request(ACCOUNT, 1, vec![100], vec![1], vec![101], vec![1], 0u64);
    match check_bulk_order_sequence(&book, &stale) {
        Err(resp) => {
            assert!(is_rejection_response(&resp));
            assert_eq!(destroy_bulk_order_place_response_rejection(resp), (ACCOUNT, 1, 1));
        },
        Ok(_) => panic!("a stale sequence number was accepted"),
    }
    let newer = new_bulk_order_request(ACCOUNT, 2, vec![100], vec![1], vec![101], vec![1], 0u64);
    assert!(matches!(check_bulk_order_sequence(&book, &newer), Ok(Some(1))));
}
