use atomic_kv::MapError;
use atomic_kv::data_map::DataMap;
use atomic_kv::scope::{
    FinalizeMode, finalize_enter, finalize_exit, scope_enter, scope_exit_err, scope_exit_ok,
};
use atomic_kv::store::Store;

fn open_map_testing(map_id: u16) -> DataMap {
    DataMap::open(0, map_id)
}

#[test]
fn test_contains_key() {
    // Initialize a key.
    let key: u64 = 123456789;

    // Initialize a map.
    let mut store = Store::open();
    let mut map = open_map_testing(0);
    map.insert(&mut store, key, String::new()).expect("Failed to insert into data map");
    assert!(map.contains_key_confirmed(&store, key).unwrap());
}

#[test]
fn test_insert_and_get_speculative() {
    let mut store = Store::open();
    let mut map = open_map_testing(0);

    // Sanity check.
    assert!(map.iter_confirmed(&store).unwrap().is_empty());

    /* test atomic insertions */

    // Start an atomic write batch.
    map.start_atomic(&mut store);

    // Insert an item into the map.
    map.insert(&mut store, 0, "0".to_string()).unwrap();

    // Check that the item is not yet in the map.
    assert!(map.get_confirmed(&store, 0).unwrap().is_none());
    // Check that the item is in the batch.
    assert_eq!(map.get_pending(0), Some(Some("0".to_string())));
    // Check that the item can be speculatively retrieved.
    assert_eq!(map.get_speculative(&store, 0).unwrap(), Some("0".to_string()));

    // Queue (since a batch is in progress) NUM_ITEMS insertions.
    for i in 1..10u64 {
        // Update the item in the map.
        map.insert(&mut store, 0, i.to_string()).unwrap();

        // Check that the item is not yet in the map.
        assert!(map.get_confirmed(&store, 0).unwrap().is_none());
        // Check that the updated item is in the batch.
        assert_eq!(map.get_pending(0), Some(Some(i.to_string())));
        // Check that the updated item can be speculatively retrieved.
        assert_eq!(map.get_speculative(&store, 0).unwrap(), Some(i.to_string()));
    }

    // The map should still contain no items.
    assert!(map.iter_confirmed(&store).unwrap().is_empty());

    // Finish the current atomic write batch.
    map.finish_atomic(&mut store).unwrap();

    // Check that the item is present in the map now.
    assert_eq!(map.get_confirmed(&store, 0).unwrap(), Some("9".to_string()));
    // Check that the item is not in the batch.
    assert_eq!(map.get_pending(0), None);
    // Check that the item can be speculatively retrieved.
    assert_eq!(map.get_speculative(&store, 0).unwrap(), Some("9".to_string()));
}

#[test]
fn test_remove_and_get_speculative() {
    let mut store = Store::open();
    let mut map = open_map_testing(0);

    // Sanity check.
    assert!(map.iter_confirmed(&store).unwrap().is_empty());

    // Insert an item into the map.
    map.insert(&mut store, 0, "0".to_string()).unwrap();

    // Check that the item is present in the map.
    assert_eq!(map.get_confirmed(&store, 0).unwrap(), Some("0".to_string()));
    // Check that the item is not in the batch.
    assert_eq!(map.get_pending(0), None);
    // Check that the item can be speculatively retrieved.
    assert_eq!(map.get_speculative(&store, 0).unwrap(), Some("0".to_string()));

    /* test atomic removals */

    // Start an atomic write batch.
    map.start_atomic(&mut store);

    // Remove the item from the map.
    map.remove(&mut store, 0).unwrap();

    // Check that the item still exists in the map.
    assert_eq!(map.get_confirmed(&store, 0).unwrap(), Some("0".to_string()));
    // Check that the item is removed in the batch.
    assert_eq!(map.get_pending(0), Some(None));
    // Check that the item is removed when speculatively retrieved.
    assert_eq!(map.get_speculative(&store, 0).unwrap(), None);

    // Try removing the item again.
    map.remove(&mut store, 0).unwrap();

    // Check that the item still exists in the map.
    assert_eq!(map.get_confirmed(&store, 0).unwrap(), Some("0".to_string()));
    // Check that the item is removed in the batch.
    assert_eq!(map.get_pending(0), Some(None));
    // Check that the item is removed when speculatively retrieved.
    assert_eq!(map.get_speculative(&store, 0).unwrap(), None);

    // Finish the current atomic write batch.
    map.finish_atomic(&mut store).unwrap();

    // Check that the item is not present in the map now.
    assert!(map.get_confirmed(&store, 0).unwrap().is_none());
    // Check that the item is not in the batch.
    assert_eq!(map.get_pending(0), None);
    // Check that the item is removed when speculatively retrieved.
    assert_eq!(map.get_speculative(&store, 0).unwrap(), None);

    // Check that the map is empty now.
    assert!(map.iter_confirmed(&store).unwrap().is_empty());
}

#[test]
fn test_atomic_writes_are_batched() {
    // The number of items that will be inserted into the map.
    const NUM_ITEMS: u64 = 10;

    let mut store = Store::open();
    let mut map = open_map_testing(0);

    // Sanity check.
    assert!(map.iter_confirmed(&store).unwrap().is_empty());

    /* test atomic insertions */

    // Start an atomic write batch.
    map.start_atomic(&mut store);

    // Queue (since a batch is in progress) NUM_ITEMS insertions.
    for i in 0..NUM_ITEMS {
        map.insert(&mut store, i, i.to_string()).unwrap();
        // Ensure that the item is queued for insertion.
        assert_eq!(map.get_pending(i), Some(Some(i.to_string())));
        // Ensure that the item can be found with a speculative get.
        assert_eq!(map.get_speculative(&store, i).unwrap(), Some(i.to_string()));
    }

    // The map should still contain no items.
    assert!(map.iter_confirmed(&store).unwrap().is_empty());

    // Finish the current atomic write batch.
    map.finish_atomic(&mut store).unwrap();

    // Check that the items are present in the map now.
    for i in 0..NUM_ITEMS {
        assert_eq!(map.get_confirmed(&store, i).unwrap(), Some(i.to_string()));
    }

    /* test atomic removals */

    // Start an atomic write batch.
    map.start_atomic(&mut store);

    // Queue (since a batch is in progress) NUM_ITEMS removals.
    for i in 0..NUM_ITEMS {
        map.remove(&mut store, i).unwrap();
        // Ensure that the item is NOT queued for insertion.
        assert_eq!(map.get_pending(i), Some(None));
    }

    // The map should still contain all the items.
    assert_eq!(map.iter_confirmed(&store).unwrap().len() as u64, NUM_ITEMS);

    // Finish the current atomic write batch.
    map.finish_atomic(&mut store).unwrap();

    // Check that the map is empty now.
    assert!(map.iter_confirmed(&store).unwrap().is_empty());
}

#[test]
fn test_atomic_writes_can_be_aborted() {
    // The number of items that will be queued to be inserted into the map.
    const NUM_ITEMS: u64 = 10;

    let mut store = Store::open();
    let mut map = open_map_testing(0);

    // Sanity check.
    assert!(map.iter_confirmed(&store).unwrap().is_empty());

    // Start an atomic write batch.
    map.start_atomic(&mut store);

    // Queue (since a batch is in progress) NUM_ITEMS insertions.
    for i in 0..NUM_ITEMS {
        map.insert(&mut store, i, i.to_string()).unwrap();
    }

    // The map should still contain no items.
    assert!(map.iter_confirmed(&store).unwrap().is_empty());

    // Abort the current atomic write batch.
    map.abort_atomic(&mut store);

    // The map should still contain no items.
    assert!(map.iter_confirmed(&store).unwrap().is_empty());

    // Start another atomic write batch.
    map.start_atomic(&mut store);

    // Queue (since a batch is in progress) NUM_ITEMS insertions.
    for i in 0..NUM_ITEMS {
        map.insert(&mut store, i, i.to_string()).unwrap();
    }

    // Finish the current atomic write batch.
    map.finish_atomic(&mut store).unwrap();

    // The map should contain NUM_ITEMS items now.
    assert_eq!(map.iter_confirmed(&store).unwrap().len() as u64, NUM_ITEMS);
}

#[test]
fn test_checkpoint_and_rewind() {
    // The number of items that will be queued to be inserted into the map.
    const NUM_ITEMS: u64 = 10;

    let mut store = Store::open();
    let mut map = open_map_testing(0);
    // Sanity check.
    assert!(map.iter_confirmed(&store).unwrap().is_empty());
    // Make sure the checkpoint index is None.
    assert_eq!(map.checkpoints.last(), None);

    // Start an atomic write batch.
    map.start_atomic(&mut store);

    {
        // Queue (since a batch is in progress) NUM_ITEMS / 2 insertions.
        for i in 0..NUM_ITEMS / 2 {
            map.insert(&mut store, i, i.to_string()).unwrap();
        }
        // The map should still contain no items.
        assert!(map.iter_confirmed(&store).unwrap().is_empty());
        // The pending batch should contain NUM_ITEMS / 2 items.
        assert_eq!(map.iter_pending().len() as u64, NUM_ITEMS / 2);
        // Make sure the checkpoint index is None.
        assert_eq!(map.checkpoints.last(), None);
    }

    // Run the same sequence of checks 3 times.
    for _ in 0..3 {
        // Perform a checkpoint.
        map.atomic_checkpoint();
        // Make sure the checkpoint index is NUM_ITEMS / 2.
        assert_eq!(map.checkpoints.last(), Some(&((NUM_ITEMS / 2) as usize)));

        {
            // Queue (since a batch is in progress) another NUM_ITEMS / 2 insertions.
            for i in (NUM_ITEMS / 2)..NUM_ITEMS {
                map.insert(&mut store, i, i.to_string()).unwrap();
            }
            // The map should still contain no items.
            assert!(map.iter_confirmed(&store).unwrap().is_empty());
            // The pending batch should contain NUM_ITEMS items.
            assert_eq!(map.iter_pending().len() as u64, NUM_ITEMS);
            // Make sure the checkpoint index is NUM_ITEMS / 2.
            assert_eq!(map.checkpoints.last(), Some(&((NUM_ITEMS / 2) as usize)));
        }

        // Abort the current atomic write batch.
        map.atomic_rewind();
        // Make sure the checkpoint index is None.
        assert_eq!(map.checkpoints.last(), None);

        {
            // The map should still contain no items.
            assert!(map.iter_confirmed(&store).unwrap().is_empty());
            // The pending batch should contain NUM_ITEMS / 2 items.
            assert_eq!(map.iter_pending().len() as u64, NUM_ITEMS / 2);
            // Make sure the checkpoint index is None.
            assert_eq!(map.checkpoints.last(), None);
        }
    }

    // Finish the atomic batch.
    map.finish_atomic(&mut store).unwrap();
    // The map should contain NUM_ITEMS / 2.
    assert_eq!(map.iter_confirmed(&store).unwrap().len() as u64, NUM_ITEMS / 2);
    // The pending batch should contain no items.
    assert!(map.iter_pending().is_empty());
    // Make sure the checkpoint index is None.
    assert_eq!(map.checkpoints.last(), None);
}

#[test]
fn test_nested_atomic_batch_scope() -> Result<(), String> {
    // The number of items that will be queued to be inserted into the map.
    const NUM_ITEMS: u64 = 10;

    let mut store = Store::open();
    let mut map = open_map_testing(0);
    // Sanity check.
    assert!(map.iter_confirmed(&store).unwrap().is_empty());
    // Make sure the checkpoint index is None.
    assert_eq!(map.checkpoints.last(), None);

    // Start a nested atomic batch scope that completes successfully.
    let was_outer = scope_enter(&mut map, &mut store);
    {
        // Queue (since a batch is in progress) NUM_ITEMS / 2 insertions.
        for i in 0..NUM_ITEMS / 2 {
            map.insert(&mut store, i, i.to_string()).unwrap();
        }
        // The map should still contain no items.
        assert!(map.iter_confirmed(&store).unwrap().is_empty());
        // The pending batch should contain NUM_ITEMS / 2 items.
        assert_eq!(map.iter_pending().len() as u64, NUM_ITEMS / 2);
        // Make sure the checkpoint index is None.
        assert_eq!(map.checkpoints.last(), None);

        // Start a nested atomic batch scope that completes successfully.
        let was_inner = scope_enter(&mut map, &mut store);
        {
            // Queue (since a batch is in progress) another NUM_ITEMS / 2 insertions.
            for i in (NUM_ITEMS / 2)..NUM_ITEMS {
                map.insert(&mut store, i, i.to_string()).unwrap();
            }
            // The map should still contain no items.
            assert!(map.iter_confirmed(&store).unwrap().is_empty());
            // The pending batch should contain NUM_ITEMS items.
            assert_eq!(map.iter_pending().len() as u64, NUM_ITEMS);
            // Make sure the checkpoint index is NUM_ITEMS / 2.
            assert_eq!(map.checkpoints.last(), Some(&((NUM_ITEMS / 2) as usize)));
        }
        scope_exit_ok(&mut map, &mut store, was_inner).map_err(|e| format!("{e:?}"))?;

        // The map should still contain no items.
        assert!(map.iter_confirmed(&store).unwrap().is_empty());
        // The pending batch should contain NUM_ITEMS items.
        assert_eq!(map.iter_pending().len() as u64, NUM_ITEMS);
        // Make sure the checkpoint index is None.
        assert_eq!(map.checkpoints.last(), None);
    }
    scope_exit_ok(&mut map, &mut store, was_outer).map_err(|e| format!("{e:?}"))?;

    // The map should contain NUM_ITEMS.
    assert_eq!(map.iter_confirmed(&store).unwrap().len() as u64, NUM_ITEMS);
    // The pending batch should contain no items.
    assert!(map.iter_pending().is_empty());
    // Make sure the checkpoint index is None.
    assert_eq!(map.checkpoints.last(), None);

    Ok(())
}

#[test]
fn test_failed_nested_atomic_batch_scope() {
    // The number of items that will be queued to be inserted into the map.
    const NUM_ITEMS: u64 = 10;

    let mut store = Store::open();
    let mut map = open_map_testing(0);
    // Sanity check.
    assert!(map.iter_confirmed(&store).unwrap().is_empty());
    // Make sure the checkpoint index is None.
    assert_eq!(map.checkpoints.last(), None);

    // Run the nested scopes, with the inner one failing.
    let outcome: Result<(), String> = {
        // Start an atomic batch scope that fails.
        let was_outer = scope_enter(&mut map, &mut store);

        // Queue (since a batch is in progress) NUM_ITEMS / 2 insertions.
        for i in 0..NUM_ITEMS / 2 {
            map.insert(&mut store, i, i.to_string()).unwrap();
        }
        // The map should still contain no items.
        assert!(map.iter_confirmed(&store).unwrap().is_empty());
        // The pending batch should contain NUM_ITEMS / 2 items.
        assert_eq!(map.iter_pending().len() as u64, NUM_ITEMS / 2);
        // Make sure the checkpoint index is None.
        assert_eq!(map.checkpoints.last(), None);

        // Start a nested atomic write batch that fails.
        let was_inner = scope_enter(&mut map, &mut store);

        // Queue (since a batch is in progress) another NUM_ITEMS / 2 insertions.
        for i in (NUM_ITEMS / 2)..NUM_ITEMS {
            map.insert(&mut store, i, i.to_string()).unwrap();
        }
        // The map should still contain no items.
        assert!(map.iter_confirmed(&store).unwrap().is_empty());
        // The pending batch should contain NUM_ITEMS items.
        assert_eq!(map.iter_pending().len() as u64, NUM_ITEMS);
        // Make sure the checkpoint index is NUM_ITEMS / 2.
        assert_eq!(map.checkpoints.last(), Some(&((NUM_ITEMS / 2) as usize)));

        // The inner batch fails, and the failure propagates to the outer one.
        scope_exit_err(&mut map, &mut store, was_inner);
        scope_exit_err(&mut map, &mut store, was_outer);
        Err("This batch should fail.".to_string())
    };

    // Ensure that the nested atomic write batch fails.
    assert!(outcome.is_err());
}

#[test]
fn test_atomic_finalize() -> Result<(), String> {
    // The number of items that will be queued to be inserted into the map.
    const NUM_ITEMS: u64 = 10;

    let mut store = Store::open();
    let mut map = open_map_testing(0);
    // Sanity check.
    assert!(map.iter_confirmed(&store).unwrap().is_empty());
    // Make sure the checkpoint index is None.
    assert_eq!(map.checkpoints.last(), None);

    // Start an atomic finalize.
    finalize_enter(&mut map, &mut store).map_err(|e| format!("{e:?}"))?;
    let body: Result<(), String> = {
        // Start a nested atomic batch scope that completes successfully.
        let was = scope_enter(&mut map, &mut store);
        {
            // Queue (since a batch is in progress) NUM_ITEMS / 2 insertions.
            for i in 0..NUM_ITEMS / 2 {
                map.insert(&mut store, i, i.to_string()).unwrap();
            }
            // The map should still contain no items.
            assert!(map.iter_confirmed(&store).unwrap().is_empty());
            // The pending batch should contain NUM_ITEMS / 2 items.
            assert_eq!(map.iter_pending().len() as u64, NUM_ITEMS / 2);
            // Make sure the checkpoint index is 0.
            assert_eq!(map.checkpoints.last(), Some(&0));
        }
        scope_exit_ok(&mut map, &mut store, was).unwrap();

        // The map should still contain no items.
        assert!(map.iter_confirmed(&store).unwrap().is_empty());
        // The pending batch should contain NUM_ITEMS / 2 items.
        assert_eq!(map.iter_pending().len() as u64, NUM_ITEMS / 2);
        // Make sure the checkpoint index is None.
        assert_eq!(map.checkpoints.last(), None);

        // Start a nested atomic write batch that completes correctly.
        let was = scope_enter(&mut map, &mut store);
        {
            // Queue (since a batch is in progress) another NUM_ITEMS / 2 insertions.
            for i in (NUM_ITEMS / 2)..NUM_ITEMS {
                map.insert(&mut store, i, i.to_string()).unwrap();
            }
            // The map should still contain no items.
            assert!(map.iter_confirmed(&store).unwrap().is_empty());
            // The pending batch should contain NUM_ITEMS items.
            assert_eq!(map.iter_pending().len() as u64, NUM_ITEMS);
            // Make sure the checkpoint index is NUM_ITEMS / 2.
            assert_eq!(map.checkpoints.last(), Some(&((NUM_ITEMS / 2) as usize)));
        }
        scope_exit_ok(&mut map, &mut store, was).unwrap();

        // The map should still contain no items.
        assert!(map.iter_confirmed(&store).unwrap().is_empty());
        // The pending batch should contain NUM_ITEMS items.
        assert_eq!(map.iter_pending().len() as u64, NUM_ITEMS);
        // Make sure the checkpoint index is None.
        assert_eq!(map.checkpoints.last(), None);

        Ok(())
    };
    let outcome = match body {
        Ok(()) => finalize_exit(&mut map, &mut store, FinalizeMode::RealRun, true)
            .map_err(|e| format!("{e:?}")),
        Err(e) => {
            let _ = finalize_exit(&mut map, &mut store, FinalizeMode::RealRun, false);
            Err(e)
        },
    };

    // The atomic finalize should have succeeded.
    assert!(outcome.is_ok());

    // The map should contain NUM_ITEMS.
    assert_eq!(map.iter_confirmed(&store).unwrap().len() as u64, NUM_ITEMS);
    // The pending batch should contain no items.
    assert!(map.iter_pending().is_empty());
    // Make sure the checkpoint index is None.
    assert_eq!(map.checkpoints.last(), None);

    Ok(())
}

#[test]
fn test_atomic_finalize_failing_internal_scope() -> Result<(), String> {
    // The number of items that will be queued to be inserted into the map.
    const NUM_ITEMS: u64 = 10;

    let mut store = Store::open();
    let mut map = open_map_testing(0);
    // Sanity check.
    assert!(map.iter_confirmed(&store).unwrap().is_empty());
    // Make sure the checkpoint index is None.
    assert_eq!(map.checkpoints.last(), None);

    // Start an atomic finalize.
    finalize_enter(&mut map, &mut store).map_err(|e| format!("{e:?}"))?;
    let body: Result<(), String> = {
        // Start a nested atomic batch scope that completes successfully.
        let was = scope_enter(&mut map, &mut store);
        {
            // Queue (since a batch is in progress) NUM_ITEMS / 2 insertions.
            for i in 0..NUM_ITEMS / 2 {
                map.insert(&mut store, i, i.to_string()).unwrap();
            }
            // The map should still contain no items.
            assert!(map.iter_confirmed(&store).unwrap().is_empty());
            // The pending batch should contain NUM_ITEMS / 2 items.
            assert_eq!(map.iter_pending().len() as u64, NUM_ITEMS / 2);
            // Make sure the checkpoint index is 0.
            assert_eq!(map.checkpoints.last(), Some(&0));
        }
        scope_exit_ok(&mut map, &mut store, was).unwrap();

        // The map should still contain no items.
        assert!(map.iter_confirmed(&store).unwrap().is_empty());
        // The pending batch should contain NUM_ITEMS / 2 items.
        assert_eq!(map.iter_pending().len() as u64, NUM_ITEMS / 2);
        // Make sure the checkpoint index is None.
        assert_eq!(map.checkpoints.last(), None);

        // Start a nested atomic write batch that fails.
        let result: Result<(), String> = {
            let was = scope_enter(&mut map, &mut store);

            // Queue (since a batch is in progress) another NUM_ITEMS / 2 insertions.
            for i in (NUM_ITEMS / 2)..NUM_ITEMS {
                map.insert(&mut store, i, i.to_string()).unwrap();
            }
            // The map should still contain no items.
            assert!(map.iter_confirmed(&store).unwrap().is_empty());
            // The pending batch should contain NUM_ITEMS items.
            assert_eq!(map.iter_pending().len() as u64, NUM_ITEMS);
            // Make sure the checkpoint index is NUM_ITEMS / 2.
            assert_eq!(map.checkpoints.last(), Some(&((NUM_ITEMS / 2) as usize)));

            scope_exit_err(&mut map, &mut store, was);
            Err("This batch scope should fail.".to_string())
        };

        // Ensure that the batch scope failed.
        assert!(result.is_err());

        // The map should still contain no items.
        assert!(map.iter_confirmed(&store).unwrap().is_empty());
        // The pending batch should contain NUM_ITEMS / 2 items.
        assert_eq!(map.iter_pending().len() as u64, NUM_ITEMS / 2);
        // Make sure the checkpoint index is None.
        assert_eq!(map.checkpoints.last(), None);

        Ok(())
    };
    let outcome = match body {
        Ok(()) => finalize_exit(&mut map, &mut store, FinalizeMode::RealRun, true)
            .map_err(|e| format!("{e:?}")),
        Err(e) => {
            let _ = finalize_exit(&mut map, &mut store, FinalizeMode::RealRun, false);
            Err(e)
        },
    };

    // The atomic finalize should have succeeded.
    assert!(outcome.is_ok());

    // The map should contain NUM_ITEMS / 2.
    assert_eq!(map.iter_confirmed(&store).unwrap().len() as u64, NUM_ITEMS / 2);
    // The pending batch should contain no items.
    assert!(map.iter_pending().is_empty());
    // Make sure the checkpoint index is None.
    assert_eq!(map.checkpoints.last(), None);

    Ok(())
}

#[test]
fn test_atomic_finalize_fails_to_start() {
    let mut store = Store::open();
    let mut map = open_map_testing(0);
    // Sanity check.
    assert!(map.iter_confirmed(&store).unwrap().is_empty());
    // Make sure the checkpoint index is None.
    assert_eq!(map.checkpoints.last(), None);

    // Construct an atomic batch scope, and attempt an atomic finalize inside
    // it: the finalize is refused and its error propagates out of the scope
    // body before anything else runs.
    let outcome: Result<(), String> = {
        let was = scope_enter(&mut map, &mut store);
        let finalize_outcome = finalize_enter(&mut map, &mut store);
        // Ensure that the atomic finalize fails.
        assert!(finalize_outcome.is_err());
        assert_eq!(finalize_outcome, Err(MapError::ScopeMisuse));
        // The failure aborts the batch scope.
        scope_exit_err(&mut map, &mut store, was);
        Err("The batch scope should fail before we reach this point.".to_string())
    };

    // Ensure that the atomic batch scope fails.
    assert!(outcome.is_err());

    // Start an atomic operation.
    map.start_atomic(&mut store);

    // Ensure that the atomic finalize fails if an atomic batch is in progress.
    let outcome = finalize_enter(&mut map, &mut store);
    assert!(outcome.is_err());
}

#[test]
fn test_atomic_checkpoint_truncation() {
    let mut store = Store::open();
    let mut map = open_map_testing(0);
    // Sanity check.
    assert!(map.iter_confirmed(&store).unwrap().is_empty());
    // Make sure the checkpoint index is None.
    assert_eq!(map.checkpoints.last(), None);

    // Insert the key.
    map.insert(&mut store, 0, "0".to_string()).unwrap();

    // Start an atomic batch scope.
    let outcome: Result<(), String> = {
        let was_outer = scope_enter(&mut map, &mut store);

        // Insert the key.
        map.insert(&mut store, 0, "1".to_string()).unwrap();

        assert_eq!(map.checkpoints.last(), None);

        // Create a failing atomic batch scope that will reset the checkpoint.
        let result: Result<(), String> = {
            let was_inner = scope_enter(&mut map, &mut store);

            // Make sure the checkpoint index is 1.
            assert_eq!(map.checkpoints.last(), Some(&1));

            // Update the key.
            map.insert(&mut store, 0, "2".to_string()).unwrap();

            scope_exit_err(&mut map, &mut store, was_inner);
            Err("This batch scope should fail.".to_string())
        };

        // Ensure that the batch scope failed.
        assert!(result.is_err());
        // The map should contain 1 item.
        assert_eq!(map.iter_confirmed(&store).unwrap().len(), 1);
        // The pending batch should contain 1 item.
        assert_eq!(map.iter_pending().len(), 1);
        // Ensure the pending operations still has the initial insertion.
        assert_eq!(map.get_pending(0), Some(Some("1".to_string())));
        // Ensure the confirmed value has not changed.
        assert_eq!(map.iter_confirmed(&store).unwrap()[0].1, "0");
        assert_eq!(map.checkpoints.last(), None);

        match scope_exit_ok(&mut map, &mut store, was_outer) {
            Ok(()) => Ok(()),
            Err(e) => Err(format!("{e:?}")),
        }
    };

    assert!(outcome.is_ok());
    // The map should contain 1 item.
    assert_eq!(map.iter_confirmed(&store).unwrap().len(), 1);
    // The pending batch should contain no items.
    assert!(map.iter_pending().is_empty());
    // Make sure the checkpoint index is None.
    assert_eq!(map.checkpoints.last(), None);

    // Ensure that the map value is correct.
    assert_eq!(map.iter_confirmed(&store).unwrap()[0].1, "1");
}

#[test]
fn test_atomic_finalize_with_nested_batch_scope() -> Result<(), String> {
    let mut store = Store::open();
    let mut map = open_map_testing(0);
    // Sanity check.
    assert!(map.iter_confirmed(&store).unwrap().is_empty());
    // Make sure the checkpoint index is None.
    assert_eq!(map.checkpoints.last(), None);

    // Insert the key.
    map.insert(&mut store, 0, "0".to_string()).unwrap();

    // Start an atomic finalize.
    finalize_enter(&mut map, &mut store).map_err(|e| format!("{e:?}"))?;
    let body: Result<(), String> = {
        // Create an atomic batch scope that will complete correctly.
        // Simulates an accepted transaction.
        let result: Result<(), String> = {
            let was = scope_enter(&mut map, &mut store);

            // Make sure the checkpoint index is 0.
            assert_eq!(map.checkpoints.last(), Some(&0));

            // Insert the key.
            map.insert(&mut store, 0, "1".to_string()).unwrap();

            match scope_exit_ok(&mut map, &mut store, was) {
                Ok(()) => Ok(()),
                Err(e) => Err(format!("{e:?}")),
            }
        };

        // Make sure the checkpoint index is None.
        assert_eq!(map.checkpoints.last(), None);

        // The batch scope should have succeeded.
        assert!(result.is_ok());
        // The map should contain 1 item.
        assert_eq!(map.iter_confirmed(&store).unwrap().len(), 1);
        // The pending batch should contain 1 item.
        assert_eq!(map.iter_pending().len(), 1);
        // Make sure the pending operations is correct.
        assert_eq!(map.get_pending(0), Some(Some("1".to_string())));

        // Create a failing atomic batch scope that will reset the checkpoint.
        // Simulates a rejected transaction.
        let result: Result<(), String> = {
            let was_mid = scope_enter(&mut map, &mut store);

            // Make sure the checkpoint index is 1.
            assert_eq!(map.checkpoints.last(), Some(&1));

            // Simulate an instruction.
            let result: Result<(), String> = {
                let was = scope_enter(&mut map, &mut store);

                // Make sure the checkpoint index is 1.
                assert_eq!(map.checkpoints.last(), Some(&1));

                // Update the key.
                map.insert(&mut store, 0, "2".to_string()).unwrap();

                match scope_exit_ok(&mut map, &mut store, was) {
                    Ok(()) => Ok(()),
                    Err(e) => Err(format!("{e:?}")),
                }
            };
            assert!(result.is_ok());

            // Make sure the checkpoint index is 1.
            assert_eq!(map.checkpoints.last(), Some(&1));
            // Ensure that the atomic batch length is 2.
            assert_eq!(map.pending.len(), 2);
            // Ensure that the shared physical batch is empty.
            assert!(store.batch.is_empty());
            // Ensure that the shared atomic depth is 1.
            assert_eq!(store.depth, 1);

            // Simulates an instruction that fails.
            let result: Result<(), String> = {
                let was = scope_enter(&mut map, &mut store);

                // Make sure the checkpoint index is 2.
                assert_eq!(map.checkpoints.last(), Some(&2));

                // Update the key.
                map.insert(&mut store, 0, "3".to_string()).unwrap();

                match scope_exit_ok(&mut map, &mut store, was) {
                    Ok(()) => Ok(()),
                    Err(e) => Err(format!("{e:?}")),
                }
            };
            assert!(result.is_ok());

            scope_exit_err(&mut map, &mut store, was_mid);
            Err("This batch scope should fail.".to_string())
        };

        // Ensure that the batch scope failed.
        assert!(result.is_err());
        // The map should contain 1 item.
        assert_eq!(map.iter_confirmed(&store).unwrap().len(), 1);
        // The pending batch should contain 1 item.
        assert_eq!(map.iter_pending().len(), 1);
        // Make sure the pending operations still has the initial insertion.
        assert_eq!(map.get_pending(0), Some(Some("1".to_string())));
        // Make sure the checkpoint index is None.
        assert_eq!(map.checkpoints.last(), None);
        // Ensure that the atomic batch length is 1.
        assert_eq!(map.pending.len(), 1);
        // Ensure that the shared physical batch is empty.
        assert!(store.batch.is_empty());
        // Ensure that the shared atomic depth is 1.
        assert_eq!(store.depth, 1);

        Ok(())
    };
    let outcome = match body {
        Ok(()) => finalize_exit(&mut map, &mut store, FinalizeMode::RealRun, true)
            .map_err(|e| format!("{e:?}")),
        Err(e) => {
            let _ = finalize_exit(&mut map, &mut store, FinalizeMode::RealRun, false);
            Err(e)
        },
    };

    assert!(outcome.is_ok());
    // The map should contain 1 item.
    assert_eq!(map.iter_confirmed(&store).unwrap().len(), 1);
    // The pending batch should contain no items.
    assert!(map.iter_pending().is_empty());
    // Make sure the checkpoint index is None.
    assert_eq!(map.checkpoints.last(), None);
    // Ensure that the atomic batch is empty.
    assert!(map.pending.is_empty());
    // Ensure that the shared physical batch is empty.
    assert!(store.batch.is_empty());
    // Ensure that the shared atomic depth is 0.
    assert_eq!(store.depth, 0);

    // Ensure that the map value is correct.
    assert_eq!(map.iter_confirmed(&store).unwrap()[0].1, "1");

    Ok(())
}
