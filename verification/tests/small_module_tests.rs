use perpdex::chainlink_state::convert_price;
use perpdex::i64_aggregator::{new_i64_aggregator, new_i64_aggregator_with_value};
use perpdex::liquidation_config::new_config;
use perpdex::math::{convert_decimals, decimals_to_multiplier, new_precision};
use perpdex::oracle::{calculate_deviation_bps, convert_pyth_price_to_u64};
use perpdex::order_id_generation::reverse_bits;

#[test]
fn test_convert_price_basic() {
    let (price, ts) = convert_price(1_000_000_000_000_000_000u128, 12345, 18, 0, 8).unwrap();
    assert_eq!(price, 100_000_000);
    assert_eq!(ts, 12345);
}

#[test]
fn test_convert_price_with_rescale() {
    let (price, _) = convert_price(1_000_000_000_000_000_000u128, 0, 18, 3, 8).unwrap();
    assert_eq!(price, 100_000_000_000);
}

#[test]
fn test_new_with_value() {
    let balance = new_i64_aggregator_with_value(100);
    assert_eq!(balance.read(), 100);

    let balance = new_i64_aggregator_with_value(-50);
    assert_eq!(balance.read(), -50);

    let balance = new_i64_aggregator_with_value(0);
    assert_eq!(balance.read(), 0);

    let balance = new_i64_aggregator_with_value(i64::MAX);
    assert_eq!(balance.read(), i64::MAX);

    let balance = new_i64_aggregator_with_value(i64::MIN);
    assert_eq!(balance.read(), i64::MIN);
}

#[test]
fn test_add_complex_sequence() {
    let mut balance = new_i64_aggregator();
    balance.add(100);
    assert_eq!(balance.read(), 100);
    balance.add(50);
    assert_eq!(balance.read(), 150);
    balance.add(-80);
    assert_eq!(balance.read(), 70);
    balance.add(-120);
    assert_eq!(balance.read(), -50);
    balance.add(-30);
    assert_eq!(balance.read(), -80);
    balance.add(80);
    assert_eq!(balance.read(), 0);
}

#[test]
fn test_is_at_least() {
    let mut balance = new_i64_aggregator();
    assert!(balance.is_at_least(0));
    assert!(!balance.is_at_least(1));

    balance.add(100);
    assert!(balance.is_at_least(50));
    assert!(balance.is_at_least(100));
    assert!(!balance.is_at_least(150));

    balance.add(-200);
    assert!(!balance.is_at_least(0));
}

#[test]
fn test_new_config_defaults() {
    let mut addr = [0u8; 32];
    addr[31] = 0x99;
    let config = new_config(addr);
    assert_eq!(config.backstop_liquidator(), addr);
    assert_eq!(config.maintenance_margin_leverage_multiplier(), 1);
    assert_eq!(config.maintenance_margin_leverage_divisor(), 2);
    assert_eq!(config.backstop_margin_maintenance_multiplier(), 1);
    assert_eq!(config.backstop_margin_maintenance_divisor(), 3);
}

#[test]
fn test_get_liquidation_margin() {
    let config = new_config([0u8; 32]);
    assert_eq!(config.get_liquidation_margin(100, false), 50);
    assert_eq!(config.get_liquidation_margin(100, true), 34);
}

#[test]
fn test_get_liquidation_price() {
    let config = new_config([0u8; 32]);
    assert_eq!(config.get_liquidation_price(1000, 20, false), 25);
    assert_eq!(config.get_liquidation_price(1000, 20, true), 17);
}

#[test]
fn test_decimals_to_multiplier() {
    assert_eq!(decimals_to_multiplier(3).unwrap(), 1000);
    assert_eq!(decimals_to_multiplier(0).unwrap(), 1);

    assert_eq!(new_precision(3).unwrap().multiplier, 1000);
    assert_eq!(new_precision(0).unwrap().multiplier, 1);
}

#[test]
fn test_convert_decimals() {
    let p3 = new_precision(3).unwrap();
    let p1 = new_precision(1).unwrap();

    assert_eq!(convert_decimals(12345, &p3, &p1, false).unwrap(), 123);
    assert_eq!(convert_decimals(98765, &p3, &p1, false).unwrap(), 987);
    assert_eq!(convert_decimals(98765, &p3, &p1, true).unwrap(), 988);

    assert_eq!(convert_decimals(12345, &p1, &p3, false).unwrap(), 1234500);
    assert_eq!(convert_decimals(12345, &p1, &p3, true).unwrap(), 1234500);
}

#[test]
fn test_calculate_deviation_bps_with_zero_price() {
    assert_eq!(calculate_deviation_bps(0, 50000), u64::MAX);
    assert_eq!(calculate_deviation_bps(50000, 0), u64::MAX);
    assert_eq!(calculate_deviation_bps(0, 0), u64::MAX);
    assert_eq!(calculate_deviation_bps(50000, 52500), 500);
    assert_eq!(calculate_deviation_bps(50000, 50000), 0);
}

#[test]
fn test_convert_pyth_price_to_u64_basic() {
    let precision = new_precision(8).unwrap();
    let result = convert_pyth_price_to_u64(6041000000000, 18, true, 0, &precision).unwrap();
    assert_eq!(result, 604);
}

#[test]
fn test_convert_pyth_price_to_u64_with_rescale() {
    let precision = new_precision(8).unwrap();
    let result = convert_pyth_price_to_u64(6041000000000, 18, true, 3, &precision).unwrap();
    assert_eq!(result, 604100);
}

#[test]
fn test_reverse_bits_order_id_type() {
    let order_id_1: u128 = 1;
    let order_id_2: u128 = 2;
    let order_id_3: u128 = 0x12345678;
    let order_id_4: u128 = 0x87654321ABCDEF00;

    let reversed_1 = reverse_bits(order_id_1);
    let reversed_2 = reverse_bits(order_id_2);
    let reversed_3 = reverse_bits(order_id_3);
    let reversed_4 = reverse_bits(order_id_4);

    assert_eq!(order_id_1, reverse_bits(reversed_1));
    assert_eq!(order_id_2, reverse_bits(reversed_2));
    assert_eq!(order_id_3, reverse_bits(reversed_3));
    assert_eq!(order_id_4, reverse_bits(reversed_4));

    assert_ne!(reversed_1, order_id_1);
    assert_ne!(reversed_2, order_id_2);
    assert_ne!(reversed_3, order_id_3);
    assert_ne!(reversed_4, order_id_4);

    assert_eq!(reversed_1, 1u128 << 127);
    assert_eq!(reversed_2, 1u128 << 126);

    let order_id_zero: u128 = 0;
    let reversed_zero = reverse_bits(order_id_zero);
    assert_eq!(order_id_zero, reverse_bits(reversed_zero));
    assert_eq!(reversed_zero, 0);

    let order_id_max: u128 = 0xffffffffffffffffffffffffffffffff;
    let reversed_max = reverse_bits(order_id_max);
    assert_eq!(order_id_max, reverse_bits(reversed_max));
    assert_eq!(reversed_max, 0xffffffffffffffffffffffffffffffff);

    let order_id_alt: u128 = 0xaaaaaaaaaaaaaaaaaaaaaaaaaaaaaaaa;
    let reversed_alt = reverse_bits(order_id_alt);
    assert_eq!(order_id_alt, reverse_bits(reversed_alt));
    assert_eq!(reversed_alt, 0x55555555555555555555555555555555);

    let order_id_alt2: u128 = 0x64328946124712951320956108326756;
    assert_eq!(order_id_alt2, reverse_bits(reverse_bits(order_id_alt2)));
}
