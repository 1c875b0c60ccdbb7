use rw_core::shared_buffer::{next_sync_step, BatchesToUpload, SyncStep};

#[test]
fn sync_selected_tables_in_given_order() {
    let mut b: BatchesToUpload<&str> = BatchesToUpload::new();
    b.add_batch(1, 10, "a");
    b.add_batch(1, 20, "b");
    b.add_batch(1, 10, "c");
    b.add_batch(1, 30, "d");
    b.add_batch(2, 10, "e");
    assert_eq!(b.take_for_sync(1, Some(vec![20, 10, 99, 20])), Some(vec!["b", "a", "c"]));
    // Table 30 still waits at epoch 1.
    assert_eq!(b.epochs(), vec![1, 2]);
    assert_eq!(b.take_for_sync(1, Some(vec![30])), Some(vec!["d"]));
    assert_eq!(b.epochs(), vec![2]);
}

#[test]
fn sync_all_tables_by_ascending_id() {
    let mut b: BatchesToUpload<u64> = BatchesToUpload::new();
    b.add_batch(5, 3, 30);
    b.add_batch(5, 1, 10);
    b.add_batch(5, 2, 20);
    b.add_batch(5, 1, 11);
    assert_eq!(b.take_for_sync(5, None), Some(vec![10, 11, 20, 30]));
    assert_eq!(b.epochs(), Vec::<u64>::new());
    assert_eq!(b.take_for_sync(5, None), None);
}

#[test]
fn sync_of_absent_epoch_is_none() {
    let mut b: BatchesToUpload<u64> = BatchesToUpload::new();
    b.add_batch(1, 1, 1);
    assert_eq!(b.take_for_sync(2, Some(vec![1])), None);
    assert_eq!(b.take_for_sync(1, Some(vec![7])), Some(vec![]));
    assert_eq!(b.epochs(), vec![1]);
}

#[test]
fn add_then_sync_table_returns_written_batches() {
    let mut b: BatchesToUpload<u64> = BatchesToUpload::new();
    b.add_batch(4, 8, 100);
    b.add_batch(4, 8, 101);
    assert_eq!(b.take_for_sync(4, Some(vec![8])), Some(vec![100, 101]));
}

#[test]
fn reset_drops_one_epoch() {
    let mut b: BatchesToUpload<u64> = BatchesToUpload::new();
    b.add_batch(3, 1, 1);
    b.add_batch(1, 1, 2);
    b.add_batch(2, 1, 3);
    b.reset(2);
    assert_eq!(b.epochs(), vec![1, 3]);
    b.reset(9);
    assert_eq!(b.epochs(), vec![1, 3]);
    assert_eq!(b.take_for_sync(3, None), Some(vec![1]));
}

#[test]
fn sync_targets_one_or_all_epochs() {
    let mut b: BatchesToUpload<u64> = BatchesToUpload::new();
    assert_eq!(b.sync_targets(None), Vec::<u64>::new());
    b.add_batch(9, 1, 1);
    b.add_batch(4, 1, 1);
    assert_eq!(b.sync_targets(None), vec![4, 9]);
    assert_eq!(b.sync_targets(Some(7)), vec![7]);
}

#[test]
fn sync_steps_stop_at_first_failure() {
    let targets = vec![3u64, 5, 8];
    assert_eq!(next_sync_step(&targets, 0, false), SyncStep::Upload(3));
    assert_eq!(next_sync_step(&targets, 1, false), SyncStep::Upload(5));
    assert_eq!(next_sync_step(&targets, 2, true), SyncStep::Finish);
    assert_eq!(next_sync_step(&targets, 3, false), SyncStep::Finish);
    assert_eq!(next_sync_step(&Vec::new(), 0, false), SyncStep::Finish);
}

#[test]
fn tables_without_batches_lists_absent_and_repeated() {
    let mut b: BatchesToUpload<&str> = BatchesToUpload::new();
    b.add_batch(1, 10, "a");
    b.add_batch(1, 20, "b");
    assert_eq!(b.tables_without_batches(1, &vec![20, 99, 10, 20]), vec![99, 20]);
    assert_eq!(b.tables_without_batches(1, &vec![10, 20]), Vec::<u32>::new());
    // No batch of epoch 2 waits: the sync ends before looking at any table.
    assert_eq!(b.tables_without_batches(2, &vec![10]), Vec::<u32>::new());
    // The same tables are what the sync finds nothing for.
    assert_eq!(b.take_for_sync(1, Some(vec![20, 99, 10, 20])), Some(vec!["b", "a"]));
}
