use dogmos::handles::{MixtureHandle, TurfHandle};
use dogmos::slot_index::{SlotIndex, SlotSet};

#[test]
fn reuse_rejects_old_generations_and_clears_only_live_entries() {
    let mut index = SlotIndex::new();
    let old = MixtureHandle {
        slot: 100,
        generation: 1,
    };
    let new = MixtureHandle {
        generation: 2,
        ..old
    };
    index.insert(old, 4);
    index.insert(new, 7);
    assert_eq!(index.get(&old), None);
    assert_eq!(index.get(&new), Some(&7));
    let capacity = index.capacity_bytes();
    index.clear();
    assert_eq!(index.get(&new), None);
    index.insert(old, 9);
    assert_eq!(index.capacity_bytes(), capacity);
    assert_eq!(index.get(&old), Some(&9));
}

#[test]
fn insert_returns_the_replaced_value_only_for_the_same_key() {
    let mut index = SlotIndex::new();
    let first = TurfHandle { slot: 3, generation: 1 };
    let second = TurfHandle { slot: 3, generation: 2 };
    assert_eq!(index.insert(first, 10u32), None);
    assert_eq!(index.insert(first, 11), Some(10));
    assert_eq!(index.insert(second, 12), None);
    assert!(!index.contains_key(&first));
    assert!(index.contains_key(&second));
}

#[test]
fn slot_set_reports_fresh_membership_and_clears() {
    let mut set = SlotSet::new();
    assert!(set.insert(5u32));
    assert!(!set.insert(5u32));
    assert!(set.contains(&5));
    assert!(!set.contains(&6));
    set.clear();
    assert!(!set.contains(&5));
    assert!(set.insert(5u32));
}
