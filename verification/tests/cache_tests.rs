use std::cell::Cell;
use std::rc::Rc;

use queues_demo::cache::{Cache, CacheError, DataGetter, MapWithExpires};

fn s(x: &str) -> String {
    String::from(x)
}

#[test]
fn insert_then_insert_fails_and_keeps_first_value() {
    let mut m = MapWithExpires::new(30_000, 600_000);
    assert_eq!(m.set(s("k"), s("v"), 0), Ok(()));
    assert_eq!(m.set(s("k"), s("v2"), 1), Err(CacheError::KeyExists));
    assert_eq!(m.get(&s("k"), 2), Some(s("v")));
}

#[test]
fn get_on_absent_key_is_none() {
    let mut m = MapWithExpires::new(30_000, 600_000);
    assert_eq!(m.get(&s("nope"), 0), None);
}

#[test]
fn add_usage_moves_to_used_tier_and_sweep_reports_it() {
    let mut m = MapWithExpires::new(30_000, 600_000);
    m.set(s("k"), s("v"), 0).unwrap();
    assert_eq!(m.add_usage(&s("k"), 1), Ok(()));
    // past the used-tier threshold the sweep reports the key with its
    // usage count, and the key is a fresh miss afterwards
    let expired = m.evict_expired(600_002);
    assert_eq!(expired.len(), 1);
    assert_eq!(expired[0].key, "k");
    assert_eq!(expired[0].usages, 1);
    assert_eq!(m.get(&s("k"), 600_003), None);
}

#[test]
fn used_entry_survives_idle_threshold() {
    let mut m = MapWithExpires::new(30_000, 600_000);
    m.set(s("k"), s("v"), 0).unwrap();
    m.add_usage(&s("k"), 1).unwrap();
    // far past the idle threshold but within the used threshold
    let expired = m.evict_expired(500_000);
    assert_eq!(expired.len(), 0);
    assert_eq!(m.get(&s("k"), 500_001), Some(s("v")));
}

#[test]
fn decrement_on_zero_usage_fails_with_underflow() {
    let mut m = MapWithExpires::new(30_000, 600_000);
    m.set(s("k"), s("v"), 0).unwrap();
    assert_eq!(m.remove_usage(&s("k"), 1), Err(CacheError::UsageUnderflow));
}

#[test]
fn usage_bracket_returns_entry_to_idle_tier() {
    let mut m = MapWithExpires::new(30_000, 600_000);
    m.set(s("k"), s("v"), 0).unwrap();
    m.add_usage(&s("k"), 1).unwrap();
    m.add_usage(&s("k"), 2).unwrap();
    assert_eq!(m.remove_usage(&s("k"), 3), Ok(()));
    assert_eq!(m.remove_usage(&s("k"), 4), Ok(()));
    // back in the idle tier with usage zero: a third decrement underflows
    assert_eq!(m.remove_usage(&s("k"), 5), Err(CacheError::UsageUnderflow));
    // its idle clock restarted at release time 4, so it survives a sweep
    // measured from there
    let expired = m.evict_expired(30_003);
    assert_eq!(expired.len(), 0);
    assert_eq!(m.get(&s("k"), 30_004), Some(s("v")));
}

#[test]
fn usage_ops_on_absent_key_fail_with_not_found() {
    let mut m = MapWithExpires::new(30_000, 600_000);
    assert_eq!(m.add_usage(&s("k"), 0), Err(CacheError::KeyNotFound));
    assert_eq!(m.remove_usage(&s("k"), 0), Err(CacheError::KeyNotFound));
}

#[test]
fn idle_entry_expires_after_idle_threshold() {
    let mut m = MapWithExpires::new(30_000, 600_000);
    m.set(s("k"), s("v"), 0).unwrap();
    // idle eviction is silent: nothing reported, entry gone
    let expired = m.evict_expired(30_001);
    assert_eq!(expired.len(), 0);
    assert_eq!(m.get(&s("k"), 30_002), None);
}

#[test]
fn lookup_renews_idle_entry() {
    let mut m = MapWithExpires::new(30_000, 600_000);
    m.set(s("k"), s("v"), 0).unwrap();
    // a lookup at 20_000 renews the idle clock...
    assert_eq!(m.get(&s("k"), 20_000), Some(s("v")));
    // ...so at 40_000 (20_000 ms later) the entry is still young
    let expired = m.evict_expired(40_000);
    assert_eq!(expired.len(), 0);
    assert_eq!(m.get(&s("k"), 40_001), Some(s("v")));
}

#[test]
fn sweep_on_exact_idle_boundary_keeps_entry() {
    // age must strictly exceed the threshold
    let mut m = MapWithExpires::new(30_000, 600_000);
    m.set(s("k"), s("v"), 0).unwrap();
    let expired = m.evict_expired(30_000);
    assert_eq!(expired.len(), 0);
    assert_eq!(m.get(&s("k"), 30_000), Some(s("v")));
}

#[test]
fn used_sweep_reports_entries_in_transition_order() {
    let mut m = MapWithExpires::new(30_000, 600_000);
    m.set(s("a"), s("1"), 0).unwrap();
    m.set(s("b"), s("2"), 1).unwrap();
    m.add_usage(&s("a"), 2).unwrap();
    m.add_usage(&s("b"), 3).unwrap();
    m.add_usage(&s("b"), 4).unwrap();
    let expired = m.evict_expired(600_005);
    assert_eq!(expired.len(), 2);
    assert_eq!(expired[0].key, "a");
    assert_eq!(expired[0].usages, 1);
    assert_eq!(expired[1].key, "b");
    assert_eq!(expired[1].usages, 2);
}

#[test]
fn idle_sweep_stops_at_first_young_entry() {
    let mut m = MapWithExpires::new(30_000, 600_000);
    m.set(s("old"), s("1"), 0).unwrap();
    m.set(s("young"), s("2"), 25_000).unwrap();
    let expired = m.evict_expired(31_000);
    assert_eq!(expired.len(), 0);
    assert_eq!(m.get(&s("old"), 31_001), None);
    assert_eq!(m.get(&s("young"), 31_002), Some(s("2")));
}

struct CountingGetter {
    calls: Rc<Cell<u64>>,
}

impl DataGetter for CountingGetter {
    fn get(&self, key: &String) -> String {
        self.calls.set(self.calls.get() + 1);
        let mut v = String::from("fetched-");
        v.push_str(key);
        v
    }
}

#[test]
fn facade_fetches_once_and_then_serves_from_store() {
    let calls = Rc::new(Cell::new(0));
    let getter = CountingGetter { calls: Rc::clone(&calls) };
    let mut c = Cache::new(getter, 30_000, 600_000);
    assert_eq!(c.get(&s("k"), 0), s("fetched-k"));
    assert_eq!(c.get(&s("k"), 1), s("fetched-k"));
    // the second call was a hit: the getter ran only once
    assert_eq!(calls.get(), 1);
}

#[test]
fn facade_set_and_get_follow_the_store() {
    let calls = Rc::new(Cell::new(0));
    let getter = CountingGetter { calls: Rc::clone(&calls) };
    let mut c = Cache::new(getter, 30_000, 600_000);
    assert_eq!(c.set(s("k"), s("v"), 0), Ok(()));
    assert_eq!(c.set(s("k"), s("v2"), 1), Err(CacheError::KeyExists));
    assert_eq!(c.get(&s("k"), 2), s("v"));
    assert_eq!(c.add_usage(&s("k"), 3), Ok(()));
    let expired = c.evict_expired(600_004);
    assert_eq!(expired.len(), 1);
    assert_eq!(expired[0].key, "k");
    assert_eq!(expired[0].usages, 1);
    // a fresh miss afterwards: the getter runs again
    assert_eq!(c.get(&s("k"), 600_005), s("fetched-k"));
}

#[test]
fn facade_getter_runs_only_on_miss() {
    let calls = Rc::new(Cell::new(0));
    let getter = CountingGetter { calls: Rc::clone(&calls) };
    let mut c = Cache::new(getter, 30_000, 600_000);
    let _ = c.get(&s("a"), 0);
    let _ = c.get(&s("a"), 1);
    let _ = c.get(&s("b"), 2);
    // two distinct keys, three calls: exactly two fetches
    assert_eq!(calls.get(), 2);
    assert_eq!(c.get(&s("a"), 3), s("fetched-a"));
    assert_eq!(c.get(&s("b"), 4), s("fetched-b"));
}
