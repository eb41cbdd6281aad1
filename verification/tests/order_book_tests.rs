use perpdex::order_book_types::{
    new_order_id_type, price_move_down_condition, price_move_up_condition, new_time_based_trigger_condition,
    IncreasingIdx, OrderId,
};
use perpdex::order_book_utils::BigOrderedMap;
use perpdex::pending_order_book_index::{
    cancel_pending_order, get_price_move_down_index, get_price_move_up_index, get_time_based_index,
    new_pending_order_book_index, place_pending_order, take_ready_price_based_orders,
    take_ready_time_based_orders,
};

fn idx(i: u128) -> IncreasingIdx {
    IncreasingIdx { idx: i }
}

fn oid(i: u128) -> OrderId {
    new_order_id_type(i)
}

#[test]
fn test_sorted_map_add_get_remove() {
    let mut m: BigOrderedMap<u64, u64> = BigOrderedMap::new();
    assert!(m.is_empty());
    m.add(30, 300);
    m.add(10, 100);
    m.add(20, 200);
    assert_eq!(m.len(), 3);
    assert_eq!(m.keys(), vec![10, 20, 30]);
    assert_eq!(m.get(&20), Some(200));
    assert_eq!(m.get(&25), None);
    assert!(m.contains(&10));
    // a second add of a key replaces its value
    m.add(20, 222);
    assert_eq!(m.len(), 3);
    assert_eq!(m.get(&20), Some(222));
    assert_eq!(m.remove(&20), 222);
    assert!(!m.contains(&20));
    assert_eq!(m.remove_or_none(&20), None);
    assert_eq!(m.remove_or_none(&10), Some(100));
    assert_eq!(m.keys(), vec![30]);
}

#[test]
fn test_sorted_map_front_back_and_upsert() {
    let mut m: BigOrderedMap<u64, u64> = BigOrderedMap::new();
    for k in [5u64, 1, 9, 3] {
        m.add(k, k * 10);
    }
    assert_eq!(m.borrow_front(), (&1, &10));
    assert_eq!(m.borrow_back(), (&9, &90));
    assert_eq!(m.upsert(3, 33), Some(30));
    assert_eq!(m.upsert(4, 44), None);
    assert_eq!(*m.borrow(&4), 44);
    *m.borrow_mut(&5) = 55;
    assert_eq!(m.get(&5), Some(55));
    assert_eq!(m.get_and_map(&9, |v| *v + 1), Some(91));
    assert_eq!(m.get_and_map(&8, |v| *v + 1), None);
    assert!(m.modify_if_present(&1, |v| *v = 11));
    assert!(!m.modify_if_present(&2, |v| *v = 22));
    assert_eq!(m.get(&1), Some(11));
    assert_eq!(m.keys(), vec![1, 3, 4, 5, 9]);
}

#[test]
fn test_pending_index_place_and_cancel() {
    let mut index = new_pending_order_book_index();
    place_pending_order(&mut index, oid(1), price_move_up_condition(100), idx(1));
    place_pending_order(&mut index, oid(2), price_move_down_condition(90), idx(2));
    place_pending_order(&mut index, oid(3), new_time_based_trigger_condition(50), idx(3));
    assert_eq!(get_price_move_up_index(&index).len(), 1);
    assert_eq!(get_price_move_down_index(&index).len(), 1);
    assert_eq!(get_time_based_index(&index).len(), 1);

    cancel_pending_order(&mut index, price_move_up_condition(100), idx(1));
    assert!(get_price_move_up_index(&index).is_empty());
    assert_eq!(get_price_move_down_index(&index).len(), 1);
    cancel_pending_order(&mut index, price_move_down_condition(90), idx(2));
    cancel_pending_order(&mut index, new_time_based_trigger_condition(50), idx(3));
    assert!(get_price_move_down_index(&index).is_empty());
    assert!(get_time_based_index(&index).is_empty());
}

#[test]
fn test_take_ready_price_based_orders_in_priority() {
    let mut index = new_pending_order_book_index();
    // rises trigger at or above their price, lowest price first
    place_pending_order(&mut index, oid(1), price_move_up_condition(100), idx(1));
    place_pending_order(&mut index, oid(2), price_move_up_condition(90), idx(2));
    place_pending_order(&mut index, oid(3), price_move_up_condition(120), idx(3));
    // falls trigger at or below their price, highest price first
    place_pending_order(&mut index, oid(4), price_move_down_condition(110), idx(4));
    place_pending_order(&mut index, oid(5), price_move_down_condition(80), idx(5));

    let ready = take_ready_price_based_orders(&mut index, 105, 10);
    assert_eq!(ready, vec![oid(2), oid(1), oid(4)]);
    assert_eq!(get_price_move_up_index(&index).len(), 1);
    assert_eq!(get_price_move_down_index(&index).len(), 1);

    let none = take_ready_price_based_orders(&mut index, 100, 10);
    assert!(none.is_empty());
}

#[test]
fn test_take_ready_price_based_orders_respects_limit() {
    let mut index = new_pending_order_book_index();
    for i in 0..4u128 {
        place_pending_order(&mut index, oid(i), price_move_up_condition(10 + i as u64), idx(i));
    }
    for i in 4..8u128 {
        place_pending_order(&mut index, oid(i), price_move_down_condition(1000), idx(i));
    }
    // a limit of 3: two rises (half, rounded up), then one fall
    let ready = take_ready_price_based_orders(&mut index, 100, 3);
    assert_eq!(ready.len(), 3);
    assert_eq!(ready[0], oid(0));
    assert_eq!(ready[1], oid(1));
    assert_eq!(get_price_move_up_index(&index).len(), 2);
    assert_eq!(get_price_move_down_index(&index).len(), 3);
}

#[test]
fn test_take_ready_time_based_orders() {
    let mut index = new_pending_order_book_index();
    place_pending_order(&mut index, oid(1), new_time_based_trigger_condition(30), idx(1));
    place_pending_order(&mut index, oid(2), new_time_based_trigger_condition(10), idx(2));
    place_pending_order(&mut index, oid(3), new_time_based_trigger_condition(20), idx(3));
    assert_eq!(take_ready_time_based_orders(&mut index, 10, 5), Vec::<OrderId>::new());
    assert_eq!(take_ready_time_based_orders(&mut index, 1, 25), vec![oid(2)]);
    assert_eq!(take_ready_time_based_orders(&mut index, 10, 25), vec![oid(3)]);
    assert_eq!(take_ready_time_based_orders(&mut index, 10, 100), vec![oid(1)]);
    assert!(get_time_based_index(&index).is_empty());
}
