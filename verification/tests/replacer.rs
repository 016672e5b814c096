use bpm::errors::PoolError;
use bpm::replacer::AccessType;
use bpm::replacer::MySQLReplacer;

#[test]
fn a_new_frame_enters_the_old_list() {
    let mut r = MySQLReplacer::new(4);
    r.record(0, AccessType::Lookup).unwrap();
    assert!(r.contains_old(0));
    assert!(!r.contains_young(0));
    assert_eq!(r.available(), 1);
}

#[test]
fn a_repeated_lookup_promotes_into_the_young_list() {
    let mut r = MySQLReplacer::new(4);
    r.record(0, AccessType::Lookup).unwrap();
    r.record(0, AccessType::Lookup).unwrap();
    assert!(r.contains_young(0));
    assert!(!r.contains_old(0));
}

#[test]
fn a_repeated_scan_stays_in_the_old_list() {
    let mut r = MySQLReplacer::new(4);
    r.record(0, AccessType::Scan).unwrap();
    r.record(0, AccessType::Scan).unwrap();
    assert!(r.contains_old(0));
    assert!(!r.contains_young(0));
    r.record(0, AccessType::Index).unwrap();
    assert!(r.contains_old(0));
    r.record(0, AccessType::Unknown).unwrap();
    assert!(r.contains_old(0));
}

#[test]
fn a_full_old_list_promotes_its_head() {
    // capacity 4: the young list holds 2, the old list 2
    let mut r = MySQLReplacer::new(4);
    r.record(0, AccessType::Lookup).unwrap();
    r.record(1, AccessType::Lookup).unwrap();
    assert!(r.contains_old(0) && r.contains_old(1));
    // a third new frame finds the old list full: its head (frame 1, the
    // most recent) moves to the young list
    r.record(2, AccessType::Lookup).unwrap();
    assert!(r.contains_young(1));
    assert!(r.contains_old(2) && r.contains_old(0));
}

#[test]
fn eviction_takes_the_old_tail_first_then_the_young_tail() {
    let mut r = MySQLReplacer::new(4);
    r.record(0, AccessType::Lookup).unwrap();
    r.record(1, AccessType::Lookup).unwrap();
    r.record(0, AccessType::Lookup).unwrap(); // 0 moves to young
    // old = [1], young = [0]
    assert_eq!(r.replace(), Some(1), "the oldest unpinned old entry leaves first");
    assert_eq!(r.replace(), Some(0), "then the young list is scanned");
    assert_eq!(r.replace(), None);
}

#[test]
fn eviction_skips_pinned_frames() {
    let mut r = MySQLReplacer::new(4);
    r.record(0, AccessType::Lookup).unwrap();
    r.record(1, AccessType::Lookup).unwrap();
    // old = [1, 0]; pin the tail
    r.set_replaceable(0, false).unwrap();
    assert_eq!(r.is_replaceable(0).unwrap(), false);
    assert_eq!(r.is_replaceable(1).unwrap(), true);
    assert_eq!(r.available(), 1);
    assert_eq!(r.replace(), Some(1), "the pinned tail is skipped");
    assert_eq!(r.replace(), None, "everything left is pinned");
    r.set_replaceable(0, true).unwrap();
    assert_eq!(r.replace(), Some(0));
}

#[test]
fn the_partition_respects_its_capacities() {
    // capacity 5: the young list holds 2, the old list 3
    let mut r = MySQLReplacer::new(5);
    for fid in 0..5usize {
        r.record(fid, AccessType::Lookup).unwrap();
    }
    for fid in 0..5usize {
        r.record(fid, AccessType::Lookup).unwrap();
    }
    let young: Vec<usize> = (0..5usize).filter(|f| r.contains_young(*f)).collect();
    let old: Vec<usize> = (0..5usize).filter(|f| r.contains_old(*f)).collect();
    assert!(young.len() <= 2);
    assert!(old.len() <= 3);
    for f in &young {
        assert!(!old.contains(f), "no frame sits in both lists");
    }
    assert_eq!(young.len() + old.len(), 5);
    assert_eq!(r.available(), 5);
}

#[test]
fn unknown_frames_are_refused() {
    let mut r = MySQLReplacer::new(2);
    assert!(matches!(r.is_replaceable(0), Err(PoolError::InvariantViolation)));
    assert!(matches!(r.set_replaceable(0, true), Err(PoolError::InvariantViolation)));
    assert!(matches!(r.remove(0), Err(PoolError::InvariantViolation)));
    assert!(matches!(r.record(2, AccessType::Lookup), Err(PoolError::InvariantViolation)));
    assert!(matches!(r.record(9, AccessType::Scan), Err(PoolError::InvariantViolation)));
}

#[test]
fn removal_forgets_a_frame() {
    let mut r = MySQLReplacer::new(3);
    r.record(0, AccessType::Lookup).unwrap();
    r.record(1, AccessType::Lookup).unwrap();
    r.remove(0).unwrap();
    assert!(!r.contains_old(0) && !r.contains_young(0));
    assert_eq!(r.available(), 1);
    assert_eq!(r.replace(), Some(1));
    assert_eq!(r.replace(), None);
}
