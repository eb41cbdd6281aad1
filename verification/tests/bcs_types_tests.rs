use perpdex::bcs_types::OnChainUserPositions;
use perpdex::big_ordered_map::{
    BigOrderedMap, Node, OrderedMap, SlotStore, StorageSlotsAllocator, TableHandle, TableWithLength,
};

/// A store with no slots, for maps whose root stays a leaf.
fn no_table() -> SlotStore<u64, u64> {
    SlotStore::new()
}

/// The address whose last eight bytes are `v`.
fn addr_from_u64(v: u64) -> [u8; 32] {
    let mut a = [0u8; 32];
    a[24..].copy_from_slice(&v.to_be_bytes());
    a
}

/// An empty map of `u64` to `u64` with the given leaf degree, inner degree
/// 8, and a node table so that splits can happen.
fn new_test_map(leaf_max_degree: u16) -> BigOrderedMap<u64, u64> {
    BigOrderedMap::BPlusTreeMap {
        root: Node::V1 {
            is_leaf: true,
            children: OrderedMap::SortedVectorMap { entries: vec![] },
            prev: 0,
            next: 0,
        },
        nodes: StorageSlotsAllocator::V1 {
            slots: Some(TableWithLength { inner: TableHandle { handle: addr_from_u64(0x1234) }, length: 0 }),
            new_slot_index: 10,
            should_reuse: false,
            reuse_head_index: 0,
            reuse_spare_count: 0,
            _phantom: std::marker::PhantomData,
        },
        min_leaf_index: 1,
        max_leaf_index: 1,
        constant_kv_size: true,
        inner_max_degree: 8,
        leaf_max_degree,
        write_cache: SlotStore::new(),
    }
}

#[test]
fn test_tree_add_single_entry() {
    let mut map = new_test_map(4);
    let writes = map.tree_add(10, 100, &no_table()).unwrap();
    assert!(writes.is_empty(), "No table writes for root-only insert");
    let front = map.tree_borrow_front(&no_table()).unwrap();
    assert_eq!(front, Some((10, 100)));
}

#[test]
fn test_tree_add_multiple_sorted() {
    let mut map = new_test_map(4);
    map.tree_add(30, 300, &no_table()).unwrap();
    map.tree_add(10, 100, &no_table()).unwrap();
    map.tree_add(20, 200, &no_table()).unwrap();

    let front = map.tree_borrow_front(&no_table()).unwrap();
    assert_eq!(front, Some((10, 100)));

    let back = map.tree_borrow_back(&no_table()).unwrap();
    assert_eq!(back, Some((30, 300)));
}

#[test]
fn test_tree_add_preserves_order() {
    let mut map = new_test_map(10);
    // Insert in reverse order
    for i in (0..8u64).rev() {
        map.tree_add(i, i * 10, &no_table()).unwrap();
    }
    // Pop all in order
    for i in 0..8u64 {
        let (entry, _) = map.tree_pop_front(&no_table()).unwrap();
        assert_eq!(entry, Some((i, i * 10)), "Expected entry ({}, {}) at position {}", i, i * 10, i);
    }
}

#[test]
fn test_tree_add_duplicate_key_upserts() {
    let mut map = new_test_map(4);
    map.tree_add(10, 100, &no_table()).unwrap();
    map.tree_add(10, 999, &no_table()).unwrap();

    let val = map.tree_get(&10, &no_table()).unwrap();
    assert_eq!(val, Some(999), "Duplicate key should upsert the value");

    assert_eq!(map.root_entry_count(), 1, "Should still have exactly 1 entry");
}

#[test]
fn test_tree_is_empty() {
    let mut map = new_test_map(4);
    assert!(map.tree_is_empty(&no_table()).unwrap());
    map.tree_add(1, 10, &no_table()).unwrap();
    assert!(!map.tree_is_empty(&no_table()).unwrap());
}

#[test]
fn test_tree_pop_front_leaf_only() {
    let mut map = new_test_map(4);
    for i in 0..3u64 {
        map.tree_add(i, i * 10, &no_table()).unwrap();
    }
    let (entry, writes) = map.tree_pop_front(&no_table()).unwrap();
    assert_eq!(entry, Some((0, 0)));
    assert!(writes.is_empty());

    let (entry, _) = map.tree_pop_front(&no_table()).unwrap();
    assert_eq!(entry, Some((1, 10)));

    let (entry, _) = map.tree_pop_front(&no_table()).unwrap();
    assert_eq!(entry, Some((2, 20)));

    let (entry, _) = map.tree_pop_front(&no_table()).unwrap();
    assert_eq!(entry, None, "Should be empty now");
}

#[test]
fn test_tree_pop_back_leaf_only() {
    let mut map = new_test_map(4);
    for i in 0..3u64 {
        map.tree_add(i, i * 10, &no_table()).unwrap();
    }
    let (entry, _) = map.tree_pop_back(&no_table()).unwrap();
    assert_eq!(entry, Some((2, 20)));

    let (entry, _) = map.tree_pop_back(&no_table()).unwrap();
    assert_eq!(entry, Some((1, 10)));

    let (entry, _) = map.tree_pop_back(&no_table()).unwrap();
    assert_eq!(entry, Some((0, 0)));

    assert!(map.tree_is_empty(&no_table()).unwrap());
}

#[test]
fn test_tree_remove_leaf_only() {
    let mut map = new_test_map(4);
    map.tree_add(10, 100, &no_table()).unwrap();
    map.tree_add(20, 200, &no_table()).unwrap();
    map.tree_add(30, 300, &no_table()).unwrap();

    let (removed, _) = map.tree_remove(&20, &no_table()).unwrap();
    assert_eq!(removed, Some(200));

    assert!(!map.tree_is_empty(&no_table()).unwrap());
    assert!(!map.tree_contains(&20, &no_table()).unwrap());
    assert!(map.tree_contains(&10, &no_table()).unwrap());
    assert!(map.tree_contains(&30, &no_table()).unwrap());
}

#[test]
fn test_tree_remove_nonexistent_key() {
    let mut map = new_test_map(4);
    map.tree_add(10, 100, &no_table()).unwrap();

    let (removed, _) = map.tree_remove(&99, &no_table()).unwrap();
    assert_eq!(removed, None);
}

#[test]
fn test_tree_contains() {
    let mut map = new_test_map(4);
    assert!(!map.tree_contains(&5, &no_table()).unwrap());
    map.tree_add(5, 50, &no_table()).unwrap();
    assert!(map.tree_contains(&5, &no_table()).unwrap());
    assert!(!map.tree_contains(&6, &no_table()).unwrap());
}

#[test]
fn test_tree_get() {
    let mut map = new_test_map(4);
    map.tree_add(7, 77, &no_table()).unwrap();
    map.tree_add(3, 33, &no_table()).unwrap();

    assert_eq!(map.tree_get(&7, &no_table()).unwrap(), Some(77));
    assert_eq!(map.tree_get(&3, &no_table()).unwrap(), Some(33));
    assert_eq!(map.tree_get(&999, &no_table()).unwrap(), None);
}

#[test]
fn test_tree_first_key() {
    let mut map = new_test_map(4);
    assert_eq!(map.tree_first_key(&no_table()).unwrap(), None);
    map.tree_add(50, 500, &no_table()).unwrap();
    map.tree_add(10, 100, &no_table()).unwrap();
    assert_eq!(map.tree_first_key(&no_table()).unwrap(), Some(10));
}

#[test]
fn test_tree_add_triggers_split() {
    let mut storage: SlotStore<u64, u64> = SlotStore::new();
    let mut map = new_test_map(4); // leaf_max_degree=4

    // Insert entries — first 4 fit in root leaf, 5th should trigger split
    for i in 0..5u64 {
        let writes = map.tree_add(i, i * 10, &storage).unwrap();
        storage.apply_writes(writes);
    }

    // After split, root should be inner (not leaf)
    let (is_leaf, _, _, root_count, _) = map.tree_info();
    assert!(!is_leaf, "Root should be inner after split");
    assert!(root_count >= 2, "Root should have >= 2 inner children after split");

    // Storage should have child nodes
    assert!(storage.len() >= 2, "Should have at least 2 child nodes in storage");

    // All entries should still be accessible
    for i in 0..5u64 {
        let val = map.tree_get(&i, &storage).unwrap();
        assert_eq!(val, Some(i * 10), "Entry {} should be accessible after split", i);
    }
}

#[test]
fn test_tree_split_and_borrow_front_back() {
    let mut storage: SlotStore<u64, u64> = SlotStore::new();
    let mut map = new_test_map(4);

    for i in 0..10u64 {
        let writes = map.tree_add(i, i * 10, &storage).unwrap();
        storage.apply_writes(writes);
    }

    let front = map.tree_borrow_front(&storage).unwrap();
    assert_eq!(front, Some((0, 0)), "Front should be (0, 0)");

    let back = map.tree_borrow_back(&storage).unwrap();
    assert_eq!(back, Some((9, 90)), "Back should be (9, 90)");
}

#[test]
fn test_tree_pop_front_across_nodes() {
    let mut storage: SlotStore<u64, u64> = SlotStore::new();
    let mut map = new_test_map(4);

    for i in 0..10u64 {
        let writes = map.tree_add(i, i * 10, &storage).unwrap();
        storage.apply_writes(writes);
    }

    // Pop all entries in order — this crosses node boundaries
    for i in 0..10u64 {
        let (entry, writes) = map.tree_pop_front(&storage).unwrap();
        storage.apply_writes(writes);
        assert_eq!(entry, Some((i, i * 10)), "Pop front #{} should be ({}, {})", i, i, i * 10);
    }

    assert!(map.tree_is_empty(&storage).unwrap(), "Map should be empty after popping all");
}

#[test]
fn test_tree_pop_back_across_nodes() {
    let mut storage: SlotStore<u64, u64> = SlotStore::new();
    let mut map = new_test_map(4);

    for i in 0..10u64 {
        let writes = map.tree_add(i, i * 10, &storage).unwrap();
        storage.apply_writes(writes);
    }

    // Pop all entries from back
    for i in (0..10u64).rev() {
        let (entry, writes) = map.tree_pop_back(&storage).unwrap();
        storage.apply_writes(writes);
        assert_eq!(entry, Some((i, i * 10)), "Pop back should be ({}, {})", i, i * 10);
    }

    assert!(map.tree_is_empty(&storage).unwrap());
}

#[test]
fn test_tree_remove_across_nodes() {
    let mut storage: SlotStore<u64, u64> = SlotStore::new();
    let mut map = new_test_map(4);

    for i in 0..10u64 {
        let writes = map.tree_add(i, i * 10, &storage).unwrap();
        storage.apply_writes(writes);
    }

    // Remove middle element
    let (removed, writes) = map.tree_remove(&5, &storage).unwrap();
    storage.apply_writes(writes);
    assert_eq!(removed, Some(50));

    // Verify it's gone
    assert!(!map.tree_contains(&5, &storage).unwrap());

    // Verify neighbors still exist
    assert!(map.tree_contains(&4, &storage).unwrap());
    assert!(map.tree_contains(&6, &storage).unwrap());
}

#[test]
fn test_tree_large_insert_then_pop_all() {
    let mut storage: SlotStore<u64, u64> = SlotStore::new();
    let mut map = new_test_map(4);

    // Insert 100 entries
    for i in 0..100u64 {
        let writes = map.tree_add(i, i, &storage).unwrap();
        storage.apply_writes(writes);
    }

    // All entries should be findable
    for i in 0..100u64 {
        let val = map.tree_get(&i, &storage).unwrap();
        assert_eq!(val, Some(i), "Entry {} should exist", i);
    }

    // Pop all — should produce entries in sorted order
    let mut results = vec![];
    while !map.tree_is_empty(&storage).unwrap() {
        let (entry, writes) = map.tree_pop_front(&storage).unwrap();
        storage.apply_writes(writes);
        if let Some(e) = entry {
            results.push(e);
        } else {
            break;
        }
    }

    assert_eq!(results.len(), 100, "Should have popped all 100 entries");
    for i in 0..100 {
        assert_eq!(results[i], (i as u64, i as u64), "Entry {} should be in order", i);
    }
}

#[test]
fn test_tree_interleaved_add_and_pop() {
    let mut storage: SlotStore<u64, u64> = SlotStore::new();
    let mut map = new_test_map(4);

    // Add 20, pop 5, add 20 more, pop all
    for i in 0..20u64 {
        let writes = map.tree_add(i, i, &storage).unwrap();
        storage.apply_writes(writes);
    }

    for _ in 0..5 {
        let (_, writes) = map.tree_pop_front(&storage).unwrap();
        storage.apply_writes(writes);
    }
    // Now front should be 5
    let front = map.tree_borrow_front(&storage).unwrap();
    assert_eq!(front, Some((5, 5)));

    // Add 20 more (20..40)
    for i in 20..40u64 {
        let writes = map.tree_add(i, i, &storage).unwrap();
        storage.apply_writes(writes);
    }

    // Pop all remaining — should be 5..40 in order
    let mut results = vec![];
    while !map.tree_is_empty(&storage).unwrap() {
        let (entry, writes) = map.tree_pop_front(&storage).unwrap();
        storage.apply_writes(writes);
        if let Some(e) = entry {
            results.push(e);
        } else {
            break;
        }
    }

    assert_eq!(results.len(), 35, "Should have 35 entries (5..40)");
    for (idx, &(k, v)) in results.iter().enumerate() {
        let expected = idx as u64 + 5;
        assert_eq!(k, expected, "Key at position {} should be {}", idx, expected);
        assert_eq!(v, expected, "Value at position {} should be {}", idx, expected);
    }
}

#[test]
fn test_tree_reverse_insertion_order() {
    let mut storage: SlotStore<u64, u64> = SlotStore::new();
    let mut map = new_test_map(4);

    // Insert in reverse order — stresses different split paths
    for i in (0..50u64).rev() {
        let writes = map.tree_add(i, i * 100, &storage).unwrap();
        storage.apply_writes(writes);
    }

    // Verify sorted order via pop_front
    for i in 0..50u64 {
        let (entry, writes) = map.tree_pop_front(&storage).unwrap();
        storage.apply_writes(writes);
        assert_eq!(entry, Some((i, i * 100)), "Reverse-inserted entry {} wrong", i);
    }
}

#[test]
fn test_tree_random_ish_insertion() {
    let mut storage: SlotStore<u64, u64> = SlotStore::new();
    let mut map = new_test_map(4);

    // Insert in a shuffled-ish order (not truly random, but non-sequential)
    let keys: Vec<u64> = vec![
        42, 17, 88, 3, 65, 91, 24, 50, 12, 77,
        35, 99, 7, 58, 81, 19, 44, 70, 2, 56,
    ];
    for &k in &keys {
        let writes = map.tree_add(k, k * 10, &storage).unwrap();
        storage.apply_writes(writes);
    }

    // All keys should be findable
    for &k in &keys {
        let val = map.tree_get(&k, &storage).unwrap();
        assert_eq!(val, Some(k * 10), "Key {} should have value {}", k, k * 10);
    }

    // Pop front should yield sorted order
    let mut sorted_keys = keys.clone();
    sorted_keys.sort();
    for &expected_k in &sorted_keys {
        let (entry, writes) = map.tree_pop_front(&storage).unwrap();
        storage.apply_writes(writes);
        assert_eq!(entry, Some((expected_k, expected_k * 10)));
    }
}

#[test]
fn test_tree_upsert_across_nodes() {
    let mut storage: SlotStore<u64, u64> = SlotStore::new();
    let mut map = new_test_map(4);

    // Insert enough to trigger splits
    for i in 0..20u64 {
        let writes = map.tree_add(i, i, &storage).unwrap();
        storage.apply_writes(writes);
    }

    // Upsert existing keys with new values
    for i in 0..20u64 {
        let writes = map.tree_add(i, i + 1000, &storage).unwrap();
        storage.apply_writes(writes);
    }

    // Verify updated values
    for i in 0..20u64 {
        let val = map.tree_get(&i, &storage).unwrap();
        assert_eq!(val, Some(i + 1000), "Key {} should have been upserted to {}", i, i + 1000);
    }
}

#[test]
fn test_tree_remove_all_entries() {
    let mut storage: SlotStore<u64, u64> = SlotStore::new();
    let mut map = new_test_map(4);

    for i in 0..15u64 {
        let writes = map.tree_add(i, i, &storage).unwrap();
        storage.apply_writes(writes);
    }

    // Remove all entries by key
    for i in 0..15u64 {
        let (removed, writes) = map.tree_remove(&i, &storage).unwrap();
        storage.apply_writes(writes);
        assert_eq!(removed, Some(i), "Should remove key {}", i);
    }

    assert!(map.tree_is_empty(&storage).unwrap());
}

#[test]
fn test_tree_remove_from_front_and_back() {
    let mut storage: SlotStore<u64, u64> = SlotStore::new();
    let mut map = new_test_map(4);

    for i in 0..20u64 {
        let writes = map.tree_add(i, i, &storage).unwrap();
        storage.apply_writes(writes);
    }

    // Remove front (0)
    let (val, writes) = map.tree_remove(&0, &storage).unwrap();
    storage.apply_writes(writes);
    assert_eq!(val, Some(0));

    // Remove back (19)
    let (val, writes) = map.tree_remove(&19, &storage).unwrap();
    storage.apply_writes(writes);
    assert_eq!(val, Some(19));

    // Front should now be 1, back should be 18
    assert_eq!(map.tree_borrow_front(&storage).unwrap(), Some((1, 1)));
    assert_eq!(map.tree_borrow_back(&storage).unwrap(), Some((18, 18)));
}

#[test]
fn test_tree_degree_3() {
    let mut storage: SlotStore<u64, u64> = SlotStore::new();
    let mut map = new_test_map(3); // minimum useful degree

    for i in 0..30u64 {
        let writes = map.tree_add(i, i, &storage).unwrap();
        storage.apply_writes(writes);
    }

    // Verify all entries
    for i in 0..30u64 {
        assert_eq!(map.tree_get(&i, &storage).unwrap(), Some(i));
    }

    // Pop all
    for i in 0..30u64 {
        let (entry, writes) = map.tree_pop_front(&storage).unwrap();
        storage.apply_writes(writes);
        assert_eq!(entry, Some((i, i)));
    }
}

#[test]
fn test_tree_degree_8() {
    let mut storage: SlotStore<u64, u64> = SlotStore::new();
    let mut map = new_test_map(8);

    for i in 0..50u64 {
        let writes = map.tree_add(i, i * 100, &storage).unwrap();
        storage.apply_writes(writes);
    }

    assert_eq!(map.tree_borrow_front(&storage).unwrap(), Some((0, 0)));
    assert_eq!(map.tree_borrow_back(&storage).unwrap(), Some((49, 4900)));

    // Pop all back
    for i in (0..50u64).rev() {
        let (entry, writes) = map.tree_pop_back(&storage).unwrap();
        storage.apply_writes(writes);
        assert_eq!(entry, Some((i, i * 100)));
    }
}

#[test]
fn test_tree_pop_front_empty() {
    let mut map = new_test_map(4);
    let (entry, writes) = map.tree_pop_front(&no_table()).unwrap();
    assert_eq!(entry, None);
    assert!(writes.is_empty());
}

#[test]
fn test_tree_pop_back_empty() {
    let mut map = new_test_map(4);
    let (entry, writes) = map.tree_pop_back(&no_table()).unwrap();
    assert_eq!(entry, None);
    assert!(writes.is_empty());
}

#[test]
fn test_tree_borrow_front_empty() {
    let map = new_test_map(4);
    assert_eq!(map.tree_borrow_front(&no_table()).unwrap(), None);
}

#[test]
fn test_tree_borrow_back_empty() {
    let map = new_test_map(4);
    assert_eq!(map.tree_borrow_back(&no_table()).unwrap(), None);
}

#[test]
fn test_tree_remove_from_empty() {
    let mut map = new_test_map(4);
    let (removed, writes) = map.tree_remove(&42, &no_table()).unwrap();
    assert_eq!(removed, None);
    assert!(writes.is_empty());
}

#[test]
fn test_tree_add_and_remove_same_key_repeatedly() {
    let mut storage: SlotStore<u64, u64> = SlotStore::new();
    let mut map = new_test_map(4);

    for round in 0..5 {
        // Add entries
        for i in 0..10u64 {
            let writes = map.tree_add(i, i + round * 100, &storage).unwrap();
            storage.apply_writes(writes);
        }
        // Remove all
        for i in 0..10u64 {
            let (removed, writes) = map.tree_remove(&i, &storage).unwrap();
            storage.apply_writes(writes);
            assert!(removed.is_some(), "Round {}: key {} should be removable", round, i);
        }
        assert!(map.tree_is_empty(&storage).unwrap(), "Round {}: map should be empty", round);
    }
}

#[test]
fn test_tree_sequential_writes_are_visible_to_subsequent_reads() {
    // This tests the "deadlock bug" scenario: tree_pop_front writes must be
    // visible to the next tree_pop_front call.
    let mut storage: SlotStore<u64, u64> = SlotStore::new();
    let mut map = new_test_map(4);

    for i in 0..20u64 {
        let writes = map.tree_add(i, i, &storage).unwrap();
        storage.apply_writes(writes);
    }

    // Pop front 10 times — each pop's writes feed into the next pop's reads
    let mut last_key = None;
    for _ in 0..10 {
        let (entry, writes) = map.tree_pop_front(&storage).unwrap();
        storage.apply_writes(writes); // Critical: apply before next pop
        let (k, _) = entry.unwrap();
        if let Some(prev) = last_key {
            assert!(k > prev, "Keys should be strictly increasing: {} > {}", k, prev);
        }
        last_key = Some(k);
    }
}

#[test]
fn test_user_positions_new_empty() {
    let positions = OnChainUserPositions::new_empty();
    let OnChainUserPositions::V1 { positions: ref map } = positions;
    assert!(map.is_empty());
}

#[test]
fn test_user_positions_update_single_fill() {
    let mut positions = OnChainUserPositions::new_empty();

    let market_addr = addr_from_u64(0xdead);
    let success = positions.update_position_for_fill(&market_addr, 100, 50000, true);
    assert!(success);

    let info = positions.get_position_info_in_root(&market_addr);
    assert!(info.is_some());
    let (size, is_long) = info.unwrap();
    assert_eq!(size, 100);
    assert!(is_long);
}

#[test]
fn test_user_positions_increase_position() {
    let mut positions = OnChainUserPositions::new_empty();
    let market = addr_from_u64(0x1);

    positions.update_position_for_fill(&market, 100, 50000, true);
    positions.update_position_for_fill(&market, 50, 51000, true);

    let (size, is_long) = positions.get_position_info_in_root(&market).unwrap();
    assert_eq!(size, 150);
    assert!(is_long);
}

#[test]
fn test_user_positions_decrease_position() {
    let mut positions = OnChainUserPositions::new_empty();
    let market = addr_from_u64(0x1);

    positions.update_position_for_fill(&market, 100, 50000, true); // long 100
    positions.update_position_for_fill(&market, 30, 51000, false); // sell 30

    let (size, is_long) = positions.get_position_info_in_root(&market).unwrap();
    assert_eq!(size, 70);
    assert!(is_long); // still long
}

#[test]
fn test_user_positions_flip_position() {
    let mut positions = OnChainUserPositions::new_empty();
    let market = addr_from_u64(0x1);

    positions.update_position_for_fill(&market, 100, 50000, true); // long 100
    positions.update_position_for_fill(&market, 150, 49000, false); // sell 150 -> short 50

    let (size, is_long) = positions.get_position_info_in_root(&market).unwrap();
    assert_eq!(size, 50);
    assert!(!is_long); // flipped to short
}

#[test]
fn test_user_positions_multiple_markets() {
    let mut positions = OnChainUserPositions::new_empty();

    for i in 0..10u64 {
        let mut addr_bytes = [0u8; 32];
        addr_bytes[31] = i as u8;
        let market_addr = addr_bytes;
        positions.update_position_for_fill(&market_addr, 100 + i, 50000, i % 2 == 0);
    }

    // Verify all 10 positions
    for i in 0..10u64 {
        let mut addr_bytes = [0u8; 32];
        addr_bytes[31] = i as u8;
        let market_addr = addr_bytes;
        let info = positions.get_position_info_in_root(&market_addr);
        assert!(info.is_some(), "Position for market {} not found", i);
        let (size, is_long) = info.unwrap();
        assert_eq!(size, 100 + i);
        assert_eq!(is_long, i % 2 == 0);
    }
}

#[test]
fn test_tree_stress_200_entries_degree_3() {
    let mut storage: SlotStore<u64, u64> = SlotStore::new();
    let mut map = new_test_map(3);

    for i in 0..200u64 {
        let writes = map.tree_add(i, i, &storage).unwrap();
        storage.apply_writes(writes);
    }

    // Verify all entries exist
    for i in 0..200u64 {
        let val = map.tree_get(&i, &storage).unwrap();
        assert_eq!(val, Some(i), "After insert phase: key {} not found", i);
    }

    // Verify front and back
    assert_eq!(map.tree_borrow_front(&storage).unwrap(), Some((0, 0)));
    assert_eq!(map.tree_borrow_back(&storage).unwrap(), Some((199, 199)));

    // Pop all and verify order
    let mut count = 0u64;
    while !map.tree_is_empty(&storage).unwrap() {
        let (entry, writes) = map.tree_pop_front(&storage).unwrap();
        storage.apply_writes(writes);
        match entry {
            Some((k, v)) => {
                assert_eq!(k, count, "Key mismatch at count {}", count);
                assert_eq!(v, count, "Value mismatch at count {}", count);
                count += 1;
            },
            None => {
                let (is_leaf, ld, id, rc, ns) = map.tree_info();
                let BigOrderedMap::BPlusTreeMap { min_leaf_index, max_leaf_index, .. } = &map;
                panic!("pop_front returned None at count {} but tree_is_empty=false, root: is_leaf={} entries={} min_leaf={} max_leaf={}",
                    count, is_leaf, rc, min_leaf_index, max_leaf_index);
            },
        }
    }
    assert_eq!(count, 200);
}

#[test]
fn test_tree_borrow_front_back_after_mixed_ops() {
    let mut storage: SlotStore<u64, u64> = SlotStore::new();
    let mut map = new_test_map(4);

    for i in 0..20u64 {
        let writes = map.tree_add(i * 10, i, &storage).unwrap();
        storage.apply_writes(writes);
    }
    assert_eq!(map.tree_borrow_front(&storage).unwrap(), Some((0, 0)));
    assert_eq!(map.tree_borrow_back(&storage).unwrap(), Some((190, 19)));

    let (removed, writes) = map.tree_remove(&0, &storage).unwrap();
    storage.apply_writes(writes);
    assert_eq!(removed, Some(0));
    assert_eq!(map.tree_borrow_front(&storage).unwrap(), Some((10, 1)));

    let (removed, writes) = map.tree_remove(&190, &storage).unwrap();
    storage.apply_writes(writes);
    assert_eq!(removed, Some(19));
    assert_eq!(map.tree_borrow_back(&storage).unwrap(), Some((180, 18)));

    let (removed, writes) = map.tree_remove(&100, &storage).unwrap();
    storage.apply_writes(writes);
    assert_eq!(removed, Some(10));
    assert_eq!(map.tree_borrow_front(&storage).unwrap(), Some((10, 1)));
    assert_eq!(map.tree_borrow_back(&storage).unwrap(), Some((180, 18)));

    let writes = map.tree_add(5, 100, &storage).unwrap();
    storage.apply_writes(writes);
    assert_eq!(map.tree_borrow_front(&storage).unwrap(), Some((5, 100)));

    let writes = map.tree_add(200, 200, &storage).unwrap();
    storage.apply_writes(writes);
    assert_eq!(map.tree_borrow_back(&storage).unwrap(), Some((200, 200)));
}
