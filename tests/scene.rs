use holdable::hold::Vec3;
use holdable::scene::{DespawnPolicy, InteractOutcome, InteractState, Scene};

fn v(x: i64, y: i64, z: i64) -> Vec3 {
    Vec3 { x, y, z }
}

fn highlighted(s: &Scene, id: u64) -> bool {
    s.objects_snapshot().iter().find(|o| o.id == id).unwrap().highlighted
}

fn present(s: &Scene, id: u64) -> bool {
    s.objects_snapshot().iter().any(|o| o.id == id)
}

#[test]
fn pickup_contest_release_and_pickup_again() {
    let mut s = Scene::new();
    let a = s.join_player();
    let b = s.join_player();
    let o = s.spawn_object(v(0, 0, 0), true, DespawnPolicy::Never);

    assert_eq!(s.handle_interact(Some(a), InteractState::Pickup, Some(o)), InteractOutcome::PickedUp(o));
    assert_eq!(s.holder_of(o), Some(a));
    assert!(highlighted(&s, o));

    assert_eq!(s.handle_interact(Some(b), InteractState::Pickup, Some(o)), InteractOutcome::Ignored);
    assert_eq!(s.holder_of(o), Some(a));

    assert_eq!(s.handle_interact(Some(a), InteractState::LetGo, None), InteractOutcome::Released(o));
    assert_eq!(s.holder_of(o), None);
    assert!(!highlighted(&s, o));

    assert_eq!(s.handle_interact(Some(b), InteractState::Pickup, Some(o)), InteractOutcome::PickedUp(o));
    assert_eq!(s.holder_of(o), Some(b));
}

#[test]
fn unauthenticated_or_unknown_sender_is_ignored() {
    let mut s = Scene::new();
    let o = s.spawn_object(v(0, 0, 0), true, DespawnPolicy::Never);
    assert_eq!(s.handle_interact(None, InteractState::Pickup, Some(o)), InteractOutcome::Ignored);
    assert_eq!(s.handle_interact(Some(999), InteractState::Pickup, Some(o)), InteractOutcome::Ignored);
    assert_eq!(s.holder_of(o), None);
}

#[test]
fn no_hit_or_non_interactable_hit_is_ignored() {
    let mut s = Scene::new();
    let a = s.join_player();
    let wall = s.spawn_object(v(0, 0, 0), false, DespawnPolicy::Never);
    assert_eq!(s.handle_interact(Some(a), InteractState::Pickup, None), InteractOutcome::Ignored);
    assert_eq!(s.handle_interact(Some(a), InteractState::Pickup, Some(wall)), InteractOutcome::Ignored);
    assert_eq!(s.handle_interact(Some(a), InteractState::Pickup, Some(a)), InteractOutcome::Ignored);
    assert_eq!(s.holder_of(wall), None);
}

#[test]
fn let_go_without_held_object_is_ignored() {
    let mut s = Scene::new();
    let a = s.join_player();
    let o = s.spawn_object(v(0, 0, 0), true, DespawnPolicy::Never);
    assert_eq!(s.handle_interact(Some(a), InteractState::LetGo, Some(o)), InteractOutcome::Ignored);
    assert_eq!(s.handle_interact(Some(a), InteractState::Pickup, Some(o)), InteractOutcome::PickedUp(o));
    assert_eq!(s.handle_interact(Some(a), InteractState::LetGo, None), InteractOutcome::Released(o));
    assert_eq!(s.handle_interact(Some(a), InteractState::LetGo, None), InteractOutcome::Ignored);
    assert_eq!(s.holder_of(o), None);
}

#[test]
fn one_held_object_per_player() {
    let mut s = Scene::new();
    let a = s.join_player();
    let o1 = s.spawn_object(v(0, 0, 0), true, DespawnPolicy::Never);
    let o2 = s.spawn_object(v(0, 0, 0), true, DespawnPolicy::Never);
    assert_eq!(s.handle_interact(Some(a), InteractState::Pickup, Some(o1)), InteractOutcome::PickedUp(o1));
    assert_eq!(s.handle_interact(Some(a), InteractState::Pickup, Some(o2)), InteractOutcome::Ignored);
    assert_eq!(s.held_by(a), Some(o1));
    assert_eq!(s.holder_of(o2), None);
    assert!(!highlighted(&s, o2));
}

#[test]
fn despawn_of_held_object_drops_its_edge() {
    let mut s = Scene::new();
    let a = s.join_player();
    let o = s.spawn_object(v(0, 0, 0), true, DespawnPolicy::Never);
    s.handle_interact(Some(a), InteractState::Pickup, Some(o));
    assert!(s.despawn(o));
    assert!(!present(&s, o));
    assert_eq!(s.holder_of(o), None);
    assert_eq!(s.held_by(a), None);
    assert!(!s.despawn(o));
}

#[test]
fn disconnect_while_holding_drops_edge_and_marker() {
    let mut s = Scene::new();
    let a = s.join_player();
    let b = s.join_player();
    let o = s.spawn_object(v(0, 0, 0), true, DespawnPolicy::Never);
    s.handle_interact(Some(a), InteractState::Pickup, Some(o));
    assert!(s.disconnect_player(a));
    assert!(!s.is_player(a));
    assert_eq!(s.holder_of(o), None);
    assert!(!highlighted(&s, o));
    assert!(!s.disconnect_player(a));
    assert_eq!(s.handle_interact(Some(a), InteractState::Pickup, Some(o)), InteractOutcome::Ignored);
    assert_eq!(s.handle_interact(Some(b), InteractState::Pickup, Some(o)), InteractOutcome::PickedUp(o));
}

#[test]
fn timed_object_goes_after_its_lifetime() {
    let mut s = Scene::new();
    let o = s.spawn_object(v(0, 0, 0), true, DespawnPolicy::Timeout { spawned_at: 1000, lifetime: 5000 });
    let keep = s.spawn_object(v(0, 0, 0), true, DespawnPolicy::Never);
    let r = s.sweep(3000);
    assert!(r.despawned.is_empty());
    let r = s.sweep(6000);
    assert!(r.despawned.is_empty());
    assert!(present(&s, o));
    let r = s.sweep(6001);
    assert_eq!(r.despawned, vec![o]);
    assert_eq!(r.scored, 0);
    assert!(!present(&s, o));
    assert!(present(&s, keep));
    assert_eq!(s.score_value(), 0);
}

#[test]
fn timed_out_held_object_releases_its_holder() {
    let mut s = Scene::new();
    let a = s.join_player();
    let o = s.spawn_object(v(0, 0, 0), true, DespawnPolicy::Timeout { spawned_at: 0, lifetime: 5000 });
    s.handle_interact(Some(a), InteractState::Pickup, Some(o));
    s.sweep(5001);
    assert_eq!(s.held_by(a), None);
    assert_eq!(s.holder_of(o), None);
}

#[test]
fn fallen_box_is_despawned_and_scores_one() {
    let mut s = Scene::new();
    let bx = s.rain_box(v(0, 10000, 10000), 5000, 0, 4999, -4000);
    let other = s.rain_box(v(0, 10000, 10000), 5000, 1, 1, -4000);
    let r = s.sweep(0);
    assert!(r.despawned.is_empty());
    assert_eq!(s.score_value(), 0);
    assert!(s.set_position(bx, v(0, 0, -4001)));
    let r = s.sweep(0);
    assert_eq!(r.despawned, vec![bx]);
    assert_eq!(r.scored, 1);
    assert_eq!(s.score_value(), 1);
    assert!(!present(&s, bx));
    assert!(present(&s, other));
    assert_eq!(s.interactable_count(), 1);
}

#[test]
fn box_at_boundary_stays() {
    let mut s = Scene::new();
    let bx = s.rain_box(v(0, 0, 0), 5000, 7, 7, -4000);
    s.set_position(bx, v(0, 0, -4000));
    let r = s.sweep(0);
    assert!(r.despawned.is_empty());
    assert_eq!(s.score_value(), 0);
}

#[test]
fn rain_box_position_within_spread() {
    let mut s = Scene::new();
    let bx = s.rain_box(v(0, 10000, 10000), 5000, 0, 4999, -4000);
    let o = s.objects_snapshot().into_iter().find(|o| o.id == bx).unwrap();
    assert_eq!(o.position, v(-2500, 12499, 11000));
    assert!(o.interactable);
    assert!(!o.highlighted);
    assert_eq!(o.policy, DespawnPolicy::Below { threshold: -4000 });
    let b2 = s.rain_box(v(0, 0, 0), 5000, 12345, 7, -4000);
    let o2 = s.objects_snapshot().into_iter().find(|o| o.id == b2).unwrap();
    assert_eq!(o2.position, v(2345 - 2500, 7 - 2500, 1000));
}

#[test]
fn hold_pairs_lists_every_edge() {
    let mut s = Scene::new();
    let a = s.join_player();
    let b = s.join_player();
    let o1 = s.spawn_object(v(0, 0, 0), true, DespawnPolicy::Never);
    let _o2 = s.spawn_object(v(0, 0, 0), true, DespawnPolicy::Never);
    let o3 = s.spawn_object(v(0, 0, 0), true, DespawnPolicy::Never);
    s.handle_interact(Some(b), InteractState::Pickup, Some(o3));
    s.handle_interact(Some(a), InteractState::Pickup, Some(o1));
    assert_eq!(s.hold_pairs(), vec![(o1, a), (o3, b)]);
}

#[test]
fn identities_are_fresh() {
    let mut s = Scene::new();
    let a = s.join_player();
    let o = s.spawn_object(v(0, 0, 0), true, DespawnPolicy::Never);
    let b = s.join_player();
    assert!(a != o && o != b && a != b);
}

#[test]
fn paint_mark_cannot_be_picked_up() {
    let mut s = Scene::new();
    let a = s.join_player();
    let m = s.paint(v(1, 2, 3));
    let o = s.objects_snapshot().into_iter().find(|o| o.id == m).unwrap();
    assert_eq!(o.position, v(1, 2, 3));
    assert!(!o.interactable);
    assert_eq!(s.handle_interact(Some(a), InteractState::Pickup, Some(m)), InteractOutcome::Ignored);
    assert_eq!(s.sweep(1_000_000).despawned.len(), 0);
}
