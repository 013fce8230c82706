use queues_demo::arena::StableArena;

#[test]
fn insert_remove_and_front_follow_insertion_order() {
    let mut a: StableArena<u32> = StableArena::new();
    let i1 = a.insert(10);
    let i2 = a.insert(20);
    let i3 = a.insert(30);
    assert_eq!(a.len(), 3);
    assert_eq!(a.front(), Some(&10));
    assert_eq!(a.front_id(), Some(i1));
    // removing the middle record leaves the others addressable in order
    assert_eq!(a.remove(i2), Some(20));
    assert_eq!(a.len(), 2);
    assert_eq!(a.front(), Some(&10));
    assert_eq!(a.remove(i1), Some(10));
    assert_eq!(a.front(), Some(&30));
    assert_eq!(a.remove(i3), Some(30));
    assert_eq!(a.len(), 0);
    assert_eq!(a.front(), None);
}

#[test]
fn removed_id_is_stale() {
    let mut a: StableArena<&str> = StableArena::new();
    let id = a.insert("x");
    assert_eq!(a.remove(id), Some("x"));
    assert_eq!(a.remove(id), None);
}

#[test]
fn reused_slot_does_not_alias_old_id() {
    let mut a: StableArena<u32> = StableArena::new();
    let old_id = a.insert(1);
    a.remove(old_id);
    // the freed slot is reused with a bumped generation
    let new_id = a.insert(2);
    assert_ne!(old_id, new_id);
    assert_eq!(a.remove(old_id), None);
    assert_eq!(a.remove(new_id), Some(2));
}

#[test]
fn pop_front_yields_oldest_record() {
    let mut a: StableArena<u32> = StableArena::new();
    let i1 = a.insert(1);
    let _i2 = a.insert(2);
    let popped = a.pop_front().unwrap();
    assert_eq!(popped, (i1, 1));
    let popped2 = a.pop_front().unwrap();
    assert_eq!(popped2.1, 2);
    assert!(a.pop_front().is_none());
}
