use perpdex::market_types::OrderCancellationReason;
use perpdex::order_book_types::TimeInForce;
use perpdex::order_placement::{
    check_order_params, maker_offer_end, new_match_loop, next_step, placement_start, settle_match, LoopStep,
    MakerAction, PlacementStart, ECLIENT_ORDER_ID_LENGTH_EXCEEDED, EINVALID_ORDER,
};

#[test]
fn test_check_order_params() {
    assert_eq!(check_order_params(10, 10, 1, 5, None), Ok(()));
    assert_eq!(check_order_params(10, 11, 1, 5, None), Err(EINVALID_ORDER));
    assert_eq!(check_order_params(10, 5, 0, 5, None), Err(EINVALID_ORDER));
    assert_eq!(check_order_params(10, 5, 1, 0, None), Err(EINVALID_ORDER));
    assert_eq!(check_order_params(10, 5, 1, 5, Some(33)), Err(ECLIENT_ORDER_ID_LENGTH_EXCEEDED));
    assert_eq!(check_order_params(10, 5, 1, 5, Some(32)), Ok(()));
}

#[test]
fn test_placement_start_decisions() {
    match placement_start(false, false, true, TimeInForce::GTC, false) {
        PlacementStart::End(e) => {
            assert_eq!(e.cancel_reason, Some(OrderCancellationReason::PositionUpdateViolation));
            assert_eq!(e.remaining_size, 0);
            assert!(e.cleanup);
        },
        _ => panic!("expected an end"),
    }
    match placement_start(true, true, true, TimeInForce::GTC, false) {
        PlacementStart::End(e) => {
            assert_eq!(e.cancel_reason, Some(OrderCancellationReason::DuplicateClientOrderIdViolation))
        },
        _ => panic!("expected an end"),
    }
    match placement_start(true, false, false, TimeInForce::IOC, false) {
        PlacementStart::End(e) => assert_eq!(e.cancel_reason, Some(OrderCancellationReason::IOCViolation)),
        _ => panic!("expected an end"),
    }
    assert_eq!(placement_start(true, false, false, TimeInForce::IOC, true), PlacementStart::PlaceTriggered);
    assert_eq!(placement_start(true, false, false, TimeInForce::GTC, false), PlacementStart::AskMaker);
    match placement_start(true, false, true, TimeInForce::POST_ONLY, false) {
        PlacementStart::End(e) => assert_eq!(e.cancel_reason, Some(OrderCancellationReason::PostOnlyViolation)),
        _ => panic!("expected an end"),
    }
    assert_eq!(placement_start(true, false, true, TimeInForce::GTC, false), PlacementStart::Match);
}

#[test]
fn test_maker_offer_end() {
    let e = maker_offer_end(true, 7);
    assert_eq!(e.cancel_reason, Some(OrderCancellationReason::PlaceMakerOrderViolation));
    assert_eq!(e.remaining_size, 0);
    let e = maker_offer_end(false, 7);
    assert_eq!(e.remaining_size, 7);
    assert!(e.place_in_book);
}

#[test]
fn test_settle_match_partial_then_filled() {
    let mut st = new_match_loop(10);
    let (action, end) = settle_match(&mut st, 4, 6, 4, false, false);
    assert_eq!(action, MakerAction::Nothing);
    assert_eq!(end, None);
    assert_eq!(st.remaining, 6);
    assert_eq!(st.fill_sizes, vec![4]);
    assert_eq!(st.match_count, 1);
    let (action, end) = settle_match(&mut st, 8, 0, 6, false, false);
    assert_eq!(action, MakerAction::Reinsert { size: 2 });
    let end = end.unwrap();
    assert!(end.cleanup_filled);
    assert_eq!(st.fill_sizes, vec![4, 6]);
    assert_eq!(st.match_count, 2);
}

#[test]
fn test_settle_match_cancellations() {
    let mut st = new_match_loop(10);
    let (action, end) = settle_match(&mut st, 5, 3, 2, true, true);
    assert_eq!(action, MakerAction::CancelAndCleanup { cancel_in_book: true, cleanup_size: 6 });
    assert_eq!(end.unwrap().cancel_reason, Some(OrderCancellationReason::ClearinghouseSettleViolation));
    assert_eq!(st.remaining, 8);
    let mut st = new_match_loop(10);
    let (action, end) = settle_match(&mut st, 5, 0, 5, false, false);
    assert_eq!(action, MakerAction::CleanupFilled);
    assert_eq!(end, None);
}

#[test]
fn test_next_step_decisions() {
    let mut st = new_match_loop(10);
    let _ = settle_match(&mut st, 3, 1, 3, false, false);
    match next_step(&st, false, TimeInForce::IOC, false, 5, false) {
        LoopStep::End(e) => assert_eq!(e.cancel_reason, Some(OrderCancellationReason::IOCViolation)),
        _ => panic!("expected an end"),
    }
    assert_eq!(next_step(&st, false, TimeInForce::GTC, false, 5, false), LoopStep::AskMaker);
    assert_eq!(next_step(&st, true, TimeInForce::GTC, false, 5, false), LoopStep::Continue);
    match next_step(&st, true, TimeInForce::GTC, false, 1, false) {
        LoopStep::End(e) => {
            assert_eq!(e.cancel_reason, Some(OrderCancellationReason::MaxFillLimitViolation));
            assert_eq!(e.remaining_size, 7);
        },
        _ => panic!("expected an end"),
    }
    match next_step(&st, true, TimeInForce::GTC, true, 5, true) {
        LoopStep::End(e) => {
            assert_eq!(e.cancel_reason, Some(OrderCancellationReason::ClearinghouseStoppedMatching));
            assert_eq!(e.remaining_size, 0);
            assert!(e.cleanup);
        },
        _ => panic!("expected an end"),
    }
}
