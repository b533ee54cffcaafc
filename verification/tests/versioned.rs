use dogmos::versioned::{Publication, PublicationLog, Versioned};

#[test]
fn publication_is_atomic_and_conflicts_do_not_hide_new_writes() {
    let mut log = PublicationLog::new();
    let mut left = Versioned::new(Some(1));
    let mut right = Versioned::new(Some(2));
    let batch = Publication::new(&mut log);
    left.stage(3, &batch, &mut log);
    right.stage(4, &batch, &mut log);
    assert_eq!(left.as_ref(&log), Some(&1));
    assert_eq!(right.as_ref(&log), Some(&2));
    assert!(batch.publish(&mut log));
    assert_eq!(left.as_ref(&log), Some(&3));
    assert_eq!(right.as_ref(&log), Some(&4));
    let conflict = Publication::new(&mut log);
    left.stage(5, &conflict, &mut log);
    right.stage(6, &conflict, &mut log);
    *right.as_mut(&mut log).unwrap() = 7;
    assert!(!conflict.publish(&mut log));
    assert_eq!(left.as_ref(&log), Some(&3));
    assert_eq!(right.as_ref(&log), Some(&7));
}

#[test]
fn restaging_for_the_same_publication_replaces_the_candidate() {
    let mut log = PublicationLog::new();
    let mut record = Versioned::new(Some(10));
    let batch = Publication::new(&mut log);
    record.stage(11, &batch, &mut log);
    record.stage(12, &batch, &mut log);
    assert!(batch.publish(&mut log));
    assert_eq!(record.as_ref(&log), Some(&12));
    assert!(!batch.publish(&mut log));
}

#[test]
fn prepared_records_start_from_the_visible_value() {
    let mut log = PublicationLog::new();
    let mut record = Versioned::new(Some(5));
    let batch = Publication::new(&mut log);
    *record.prepared_mut(&batch, &mut log) += 1;
    *record.prepared_mut(&batch, &mut log) += 1;
    assert_eq!(record.as_ref(&log), Some(&5));
    assert!(batch.publish(&mut log));
    assert_eq!(record.as_ref(&log), Some(&7));

    let mut empty: Versioned<u32> = Versioned::new(None);
    let other = Publication::new(&mut log);
    empty.prepare(&other, &mut log);
    assert!(empty.is_none(&log));
    assert!(!record.is_none(&log));
    assert!(record.is_some(&log));
}

#[test]
fn staging_over_another_batch_conflicts_it() {
    let mut log = PublicationLog::new();
    let mut record = Versioned::new(Some(1));
    let first = Publication::new(&mut log);
    let second = Publication::new(&mut log);
    record.stage(2, &first, &mut log);
    record.stage(3, &second, &mut log);
    assert!(!first.publish(&mut log));
    assert!(!first.visible(&log));
    assert!(second.publish(&mut log));
    assert!(second.visible(&log));
    assert_eq!(record.as_ref(&log), Some(&3));
}
