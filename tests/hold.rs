use holdable::client::intents_for_frame;
use holdable::hold::{
    apply_hold_forces, bounded_force, ceil_sqrt_exec, compute_anchor, hold_force, mul_quat,
    rotate_vec, HoldConfig, HoldSample, Quat, Vec3,
};
use holdable::scene::InteractState;

const ID: Quat = Quat { w: 10000, x: 0, y: 0, z: 0 };

fn v(x: i64, y: i64, z: i64) -> Vec3 {
    Vec3 { x, y, z }
}

fn cfg() -> HoldConfig {
    HoldConfig {
        forward: v(0, 0, 4000),
        head_permille: 650,
        max_force: 300000,
        saturation_distance: 4000,
        lift: 9820,
    }
}

fn norm_sq(f: Vec3) -> i128 {
    (f.x as i128).pow(2) + (f.y as i128).pow(2) + (f.z as i128).pow(2)
}

#[test]
fn ceil_sqrt_values() {
    assert_eq!(ceil_sqrt_exec(0), 0);
    assert_eq!(ceil_sqrt_exec(1), 1);
    assert_eq!(ceil_sqrt_exec(2), 2);
    assert_eq!(ceil_sqrt_exec(16), 4);
    assert_eq!(ceil_sqrt_exec(17), 5);
    assert_eq!(ceil_sqrt_exec(25_000_000), 5000);
}

#[test]
fn quaternion_product_and_rotation() {
    assert_eq!(mul_quat(ID, ID), ID);
    let quarter = Quat { w: 7071, x: 0, y: 0, z: 7071 };
    assert_eq!(mul_quat(ID, quarter), quarter);
    assert_eq!(rotate_vec(ID, v(1000, -2000, 3000)), v(1000, -2000, 3000));
    assert_eq!(rotate_vec(quarter, v(1000, 0, 0)), v(0, 999, 0));
    let half = mul_quat(quarter, quarter);
    assert_eq!(half, Quat { w: 0, x: 0, y: 0, z: 9999 });
}

#[test]
fn anchor_in_front_of_head() {
    let a = compute_anchor(v(1000, 2000, 0), ID, v(0, 0, 1000), ID, &cfg());
    assert_eq!(a, v(1000, 2000, 650 + 4000));
}

#[test]
fn force_saturates_at_max() {
    assert_eq!(bounded_force(v(0, 0, 4000), v(0, 0, 0), &cfg()), v(0, 0, 300000));
    assert_eq!(bounded_force(v(0, 0, 40000), v(0, 0, 0), &cfg()), v(0, 0, 300000));
    assert_eq!(bounded_force(v(0, 0, 4000), v(-3000, 0, 0), &cfg()), v(180000, 0, 240000));
}

#[test]
fn force_proportional_below_saturation() {
    assert_eq!(bounded_force(v(0, 0, 4000), v(0, 0, 2000), &cfg()), v(0, 0, 150000));
    assert_eq!(bounded_force(v(5, 5, 5), v(5, 5, 5), &cfg()), v(0, 0, 0));
}

#[test]
fn force_never_exceeds_max() {
    let c = cfg();
    let targets = [v(1, 2, 3), v(-900_000, 77, 123_456), v(999_999_999, -999_999_999, 5), v(3, 4, 0)];
    for t in targets {
        let f = bounded_force(t, v(0, 0, 0), &c);
        assert!(norm_sq(f) <= (c.max_force as i128).pow(2));
    }
}

#[test]
fn skipped_pair_when_transform_missing() {
    let full = HoldSample {
        object: 7,
        object_pos: Some(v(0, 0, 0)),
        player_pos: Some(v(0, 0, 0)),
        player_rot: Some(ID),
        head_pos: Some(v(0, 0, 0)),
        head_rot: Some(ID),
    };
    let missing = HoldSample { head_rot: None, ..full };
    let c = hold_force(&full, &cfg()).unwrap();
    assert_eq!(c.object, 7);
    assert_eq!(c.corrective, v(0, 0, 300000));
    assert_eq!(c.lift, v(0, 0, 9820));
    assert_eq!(hold_force(&missing, &cfg()), None);
    let out = apply_hold_forces(&vec![missing, full], &cfg());
    assert_eq!(out, vec![None, Some(c)]);
}

#[test]
fn client_intents_follow_button_edges() {
    assert_eq!(intents_for_frame(true, true, false), vec![InteractState::Pickup]);
    assert_eq!(intents_for_frame(true, false, true), vec![InteractState::LetGo]);
    assert_eq!(intents_for_frame(true, true, true), vec![InteractState::Pickup, InteractState::LetGo]);
    assert_eq!(intents_for_frame(true, false, false), Vec::<InteractState>::new());
    assert_eq!(intents_for_frame(false, true, true), Vec::<InteractState>::new());
}
