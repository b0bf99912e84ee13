use holdable::registry::OwnershipRegistry;

#[test]
fn acquire_records_edge_both_ways() {
    let mut r = OwnershipRegistry::new();
    assert!(r.try_acquire(10, 1));
    assert_eq!(r.holder_of(10), Some(1));
    assert_eq!(r.held_by(1), Some(10));
    assert_eq!(r.holder_of(11), None);
    assert_eq!(r.held_by(2), None);
}

#[test]
fn second_holder_is_refused() {
    let mut r = OwnershipRegistry::new();
    assert!(r.try_acquire(10, 1));
    assert!(!r.try_acquire(10, 2));
    assert_eq!(r.holder_of(10), Some(1));
    assert_eq!(r.held_by(2), None);
}

#[test]
fn player_cannot_hold_two_objects() {
    let mut r = OwnershipRegistry::new();
    assert!(r.try_acquire(10, 1));
    assert!(!r.try_acquire(11, 1));
    assert_eq!(r.held_by(1), Some(10));
    assert_eq!(r.holder_of(11), None);
}

#[test]
fn release_twice_changes_state_once() {
    let mut r = OwnershipRegistry::new();
    assert!(r.try_acquire(10, 1));
    assert!(r.try_acquire(20, 2));
    assert_eq!(r.release(1), Some(10));
    assert_eq!(r.holder_of(10), None);
    assert_eq!(r.release(1), None);
    assert_eq!(r.holder_of(10), None);
    assert_eq!(r.holder_of(20), Some(2));
    assert_eq!(r.held_by(2), Some(20));
}

#[test]
fn release_object_drops_edge_whoever_holds() {
    let mut r = OwnershipRegistry::new();
    assert!(r.try_acquire(10, 1));
    assert_eq!(r.release_object(10), Some(1));
    assert_eq!(r.held_by(1), None);
    assert_eq!(r.release_object(10), None);
    assert!(r.try_acquire(11, 1));
}
