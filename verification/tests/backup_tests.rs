use queues_demo::backup::{task_key_for, GenericTaskQueueWithBackup};

#[test]
fn push_returns_bincode_key() {
    let mut q = GenericTaskQueueWithBackup::new(30_000, Vec::new());
    let key = q.push(String::from("task1"));
    // the key is the payload's bincode serialization under the standard
    // configuration: varint length, then the bytes
    let expected =
        bincode::serde::encode_to_vec(&String::from("task1"), bincode::config::standard()).unwrap();
    assert_eq!(key, expected);
    assert_eq!(q.len_pending(), 1);
}

#[test]
fn task_key_for_matches_push_key() {
    // a caller that writes the store before the push computes the same
    // key ahead of time
    let ahead = task_key_for(&String::from("task1"));
    let mut q = GenericTaskQueueWithBackup::new(30_000, Vec::new());
    let key = q.push(String::from("task1"));
    assert_eq!(ahead, key);
}

#[test]
fn completion_returns_the_recorded_key() {
    let mut q = GenericTaskQueueWithBackup::new(30_000, Vec::new());
    let pushed_key = q.push(String::from("t"));
    let (_, id) = q.try_claim(0).unwrap();
    let (item, removed_key) = q.submit_completed(&id).expect("claimed task completes");
    assert_eq!(item, "t");
    assert_eq!(removed_key, pushed_key);
}

#[test]
fn recovery_replays_stored_keys_into_pending() {
    // a first life of the queue: two pushes, one completion
    let mut q = GenericTaskQueueWithBackup::new(30_000, Vec::new());
    let key_a = q.push(String::from("a"));
    let key_b = q.push(String::from("b"));
    let (item, id) = q.try_claim(0).unwrap();
    assert_eq!(item, "a");
    let (done, removed) = q.submit_completed(&id).unwrap();
    assert_eq!(done, "a");
    assert_eq!(removed, key_a);
    // the caller would now remove key_a from the store; "b" was never
    // completed, so after a crash its key is still stored
    let stored = vec![key_b];
    let mut revived = GenericTaskQueueWithBackup::new(30_000, stored);
    assert_eq!(revived.len_pending(), 1);
    assert_eq!(revived.len_processing(), 0);
    let (back, _) = revived.try_claim(0).unwrap();
    assert_eq!(back, "b");
}

#[test]
fn recovery_skips_undecodable_keys() {
    let good = bincode::serde::encode_to_vec(&String::from("ok"), bincode::config::standard())
        .unwrap();
    // a length prefix far past the end of the slice cannot decode
    let bad = vec![0xffu8, 0x01];
    let mut q = GenericTaskQueueWithBackup::new(30_000, vec![bad, good]);
    assert_eq!(q.len_pending(), 1);
    let (item, _) = q.try_claim(0).unwrap();
    assert_eq!(item, "ok");
}

#[test]
fn timeout_sweep_keeps_durable_record() {
    let mut q = GenericTaskQueueWithBackup::new(1_000, Vec::new());
    let key = q.push(String::from("slow"));
    let (_, old_id) = q.try_claim(0).unwrap();
    let swept = q.process_timeouts_with_inspect(2_000);
    assert_eq!(swept.len(), 1);
    assert_eq!(swept[0].0, old_id);
    assert_eq!(swept[0].1, "slow");
    // the sweep asks for no store change: replaying the same key after a
    // crash still recovers the task
    let mut revived = GenericTaskQueueWithBackup::new(1_000, vec![key]);
    let (item, _) = revived.try_claim(0).unwrap();
    assert_eq!(item, "slow");
}

#[test]
fn completed_task_reports_not_found_after_requeue() {
    let mut q = GenericTaskQueueWithBackup::new(1_000, Vec::new());
    q.push(String::from("t"));
    let (_, old_id) = q.try_claim(0).unwrap();
    q.process_timeouts(2_000);
    assert!(q.submit_completed(&old_id).is_none());
    let (_, new_id) = q.try_claim(2_100).unwrap();
    let (item, _) = q.submit_completed(&new_id).unwrap();
    assert_eq!(item, "t");
}
