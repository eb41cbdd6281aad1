pub mod math;
pub mod i64_math;
pub mod order_book_types;
pub mod order_id_generation;
pub mod addr_map;
pub mod i64_aggregator;
pub mod liquidation_config;
pub mod decibel_time;
pub mod dead_mans_switch_tracker;
pub mod dead_mans_switch_operations;
pub mod global_liquidation_state;
pub mod fee_treasury;
pub mod internal_oracle_state;
pub mod chainlink_state;
pub mod oracle;
pub mod builder_code_registry;
pub mod liquidation;
pub mod perp_order;
pub mod std_hash;
pub mod dex_accounts;
pub mod perp_engine_api;
pub mod dex_accounts_entry;
pub mod pending_order_tracker;
pub mod market_types;
pub mod order_match_types;
pub mod perp_engine_types;
pub mod market_clearinghouse_order_info;
pub mod order_placement_utils;
pub mod order_placement;
pub mod collateral_balance_sheet;
pub mod moving_average;
pub mod fee_distribution;
pub mod order_margin;
pub mod clearinghouse_perp;
pub mod big_ordered_map;
pub mod tree_add_law;
pub mod tree_order_law;
pub mod bcs_types;
pub mod order_book_utils;
pub mod pending_order_book_index;
pub mod bulk_order_types;
pub mod bulk_order_utils;
pub mod bulk_order_book;
