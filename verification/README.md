# perpdex

The matching, margin and accounting logic of a perpetual-futures exchange,
written in Verus: each function carries a `requires`/`ensures` contract that
Verus proves.

- `src/` is the verified library. Among its parts: fixed-point and signed
  arithmetic (`math`, `i64_math`), order ids and order-book types, the
  pending-order and bulk-order books, fee distribution, collateral balances,
  liquidation, oracles and moving averages, subaccounts and their
  permissions, and the B+ tree map (`big_ordered_map`) that the on-chain
  state keeps its ordered collections in, with the positions and order
  records stored in it (`bcs_types`).
- The B+ tree keeps its root inline; every other node lives in a numbered
  storage slot. The library reads nodes from a `SlotStore` handed to it and
  gives back the slot writes it makes; laws such as
  `lemma_in_place_add_then_get` and `lemma_leaf_split_add_then_get` state
  what a later read gives back once those writes are stored.
  `tree_add_law` proves it for an add whose split climbs any number of
  levels (`lemma_deep_add_view`), on any tree that every search reads as a
  B+ tree (`valid_searches`); `tree_order_law` proves that popping the front
  takes the least key of such a tree (`lemma_front_key_least`).
- `app/` holds what Verus does not see: the BCS layouts of the stored types
  (with serde derives), reading slots out of table storage into a
  `SlotStore`, and encoding the slot writes as bytes.
  It also runs the loop of placing an order: the library decides each step
  (`placement_start`, `settle_match`, `next_step` in `order_placement`) and
  the loop in `app/placement.rs` makes the calls into the book and the
  clearinghouse that those steps ask for.
- `tests/` runs the library on concrete values.
