use queues_demo::queue::{GenericTaskQueue, TaskId};
use queues_demo::utils::Timed;

#[test]
fn timed_new_records_value_and_timestamp() {
    let t = Timed::new(String::from("x"), 42);
    assert_eq!(t.value, "x");
    assert_eq!(t.timestamp_ms, 42);
}

#[test]
fn fifo_claims_in_push_order() {
    let mut q = GenericTaskQueue::new(30_000);
    q.push(String::from("A"));
    q.push(String::from("B"));
    let (a, _ida) = q.try_claim(1_000).expect("A should be claimable");
    let (b, _idb) = q.try_claim(1_001).expect("B should be claimable");
    assert_eq!(a, "A");
    assert_eq!(b, "B");
    assert!(q.try_claim(1_002).is_none());
}

#[test]
fn claim_ids_are_unique_until_requeue() {
    let mut q = GenericTaskQueue::new(30_000);
    q.push(String::from("A"));
    q.push(String::from("B"));
    let (_, ida) = q.try_claim(10).unwrap();
    let (_, idb) = q.try_claim(11).unwrap();
    assert_ne!(ida, idb);
}

#[test]
fn complete_returns_item_exactly_once() {
    let mut q = GenericTaskQueue::new(30_000);
    q.push(String::from("job"));
    let (_, id) = q.try_claim(5).unwrap();
    assert_eq!(q.submit_completed(&id), Some(String::from("job")));
    assert_eq!(q.submit_completed(&id), None);
}

#[test]
fn timeout_sweep_requeues_expired_claim() {
    let mut q = GenericTaskQueue::new(1_000);
    q.push(String::from("slow"));
    let (_, old_id) = q.try_claim(0).unwrap();
    assert_eq!(q.len_pending(), 0);
    assert_eq!(q.len_processing(), 1);
    // held past the execution timeout: one sweep moves it back to pending
    let swept = q.process_timeouts_with_inspect(2_000);
    assert_eq!(swept.len(), 1);
    assert_eq!(swept[0].0, old_id);
    assert_eq!(swept[0].1, "slow");
    assert_eq!(q.len_pending(), 1);
    assert_eq!(q.len_processing(), 0);
    // the old id is stale now
    assert_eq!(q.submit_completed(&old_id), None);
    // the requeued task is claimable under a fresh id
    let (item, new_id) = q.try_claim(2_500).unwrap();
    assert_eq!(item, "slow");
    assert_ne!(new_id, old_id);
}

#[test]
fn timeout_sweep_stops_at_first_young_claim() {
    let mut q = GenericTaskQueue::new(1_000);
    q.push(String::from("old"));
    q.push(String::from("young"));
    q.try_claim(0).unwrap();
    q.try_claim(1_900).unwrap();
    let swept = q.process_timeouts_with_inspect(2_000);
    assert_eq!(swept.len(), 1);
    assert_eq!(swept[0].1, "old");
    assert_eq!(q.len_processing(), 1);
    assert_eq!(q.len_pending(), 1);
}

#[test]
fn sweep_on_exact_boundary_keeps_claim() {
    // elapsed must strictly exceed the timeout
    let mut q = GenericTaskQueue::new(1_000);
    q.push(String::from("t"));
    q.try_claim(0).unwrap();
    let swept = q.process_timeouts_with_inspect(1_000);
    assert_eq!(swept.len(), 0);
    assert_eq!(q.len_processing(), 1);
}

#[test]
fn end_to_end_scenario() {
    let mut q = GenericTaskQueue::new(30_000);
    q.push(String::from("task1"));
    let (item, id0) = q.try_claim(0).expect("claim should succeed immediately");
    assert_eq!(item, "task1");
    assert_eq!(q.len_pending(), 0);
    assert_eq!(q.len_processing(), 1);
    // a claim on an empty queue yields nothing (the caller's timeout
    // would then elapse)
    assert!(q.try_claim(100).is_none());
    assert_eq!(q.submit_completed(&id0), Some(String::from("task1")));
    assert_eq!(q.submit_completed(&id0), None);
}

#[test]
fn task_id_bytes_roundtrip() {
    let mut q = GenericTaskQueue::new(30_000);
    q.push(String::from("x"));
    let (_, id) = q.try_claim(0).unwrap();
    let bytes = id.to_bytes();
    assert_eq!(bytes.len(), 16);
    let back = TaskId::from_bytes(&bytes).expect("16 bytes must parse");
    assert_eq!(back, id);
    let short = vec![0u8; 15];
    assert!(TaskId::from_bytes(&short).is_none());
}
