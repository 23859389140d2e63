use fish_school::camera::{camera_center_of_mass_track_system, CameraConfig,
    TrackingCenterOfMassCamera};
use fish_school::fishes::{animation_speed_milli, fish_track_system, Fish, SimConfig,
    PLAYER_GROUP_ID};
use fish_school::forces::{alignment_force_system, apply_forces_system, cohesion_force_system,
    friction_force_system, move_system, separation_force_system, wander_force_system};
use fish_school::groups::{group_by_proximity_system, merge_groups_system, merge_lookup,
    resolve_contacts, collect_proximity_pairs};
use fish_school::input::{click_to_move_system, try_get_cursor_position_on_z_plane};
use fish_school::random::{random_direction, random_spawn_offset, random_unit_milli};
use fish_school::simulation_tick;
use fish_school::vec3::{clamp_length_max, dist2, div_trunc, isqrt_u128, Vec3};

fn v(x: i64, y: i64, z: i64) -> Vec3 {
    Vec3 { x, y, z }
}

fn npc_at(x: i64, y: i64, z: i64) -> Fish {
    Fish::new_npc(v(x, y, z), v(0, 1000, 0))
}

fn len2(w: Vec3) -> i128 {
    w.x as i128 * w.x as i128 + w.y as i128 * w.y as i128 + w.z as i128 * w.z as i128
}

#[test]
fn isqrt_exact_values() {
    assert_eq!(isqrt_u128(0), 0);
    assert_eq!(isqrt_u128(1), 1);
    assert_eq!(isqrt_u128(3), 1);
    assert_eq!(isqrt_u128(4), 2);
    assert_eq!(isqrt_u128(10), 3);
    assert_eq!(isqrt_u128(999_999), 999);
    assert_eq!(isqrt_u128(1_000_000), 1000);
}

#[test]
fn div_trunc_rounds_toward_zero() {
    assert_eq!(div_trunc(7, 2), 3);
    assert_eq!(div_trunc(-7, 2), -3);
    assert_eq!(div_trunc(0, 5), 0);
    assert_eq!(div_trunc(-1, 5), 0);
}

#[test]
fn dist2_is_squared_distance() {
    assert_eq!(dist2(v(3, 4, 0), v(0, 0, 0)), 25);
    assert_eq!(dist2(v(-1, -1, -1), v(1, 1, 1)), 12);
}

#[test]
fn clamp_keeps_short_vectors() {
    let w = clamp_length_max(v(5, 5, 5), 20_000);
    assert_eq!((w.x, w.y, w.z), (5, 5, 5));
}

#[test]
fn clamp_caps_long_vectors() {
    // |v| = 30000 > 20000: scaled by 20000 / 30001
    let w = clamp_length_max(v(30_000, 0, 0), 20_000);
    assert_eq!((w.x, w.y, w.z), (19_999, 0, 0));
    assert!(len2(w) <= 20_000 * 20_000);
    let u = clamp_length_max(v(-30_000, 40_000, 0), 20_000);
    assert!(len2(u) <= 20_000 * 20_000);
    assert!(u.x < 0 && u.y > 0);
}

#[test]
fn two_ungrouped_agents_in_range_get_fresh_shared_id() {
    // two ungrouped agents within GROUP_DISTANCE (10 units = 10_000 milli)
    let cfg = SimConfig::default();
    let mut fishes = vec![npc_at(0, 0, 0), npc_at(5_000, 0, 0)];
    let mut next: u64 = 1;
    let ev = group_by_proximity_system(&mut fishes, &mut next, &cfg);
    assert_eq!(fishes[0].group_id, Some(1));
    assert_eq!(fishes[1].group_id, Some(1));
    assert_ne!(fishes[0].group_id, Some(0));
    assert_eq!(next, 2);
    assert_eq!(ev.merges.len(), 0);
    assert_eq!(ev.joined_player, 0);
}

#[test]
fn out_of_range_agents_stay_ungrouped() {
    let cfg = SimConfig::default();
    let mut fishes = vec![npc_at(0, 0, 0), npc_at(50_000, 0, 0)];
    let mut next: u64 = 1;
    let pairs = collect_proximity_pairs(&fishes, cfg.group_distance);
    assert!(pairs.is_empty());
    group_by_proximity_system(&mut fishes, &mut next, &cfg);
    assert_eq!(fishes[0].group_id, None);
    assert_eq!(fishes[1].group_id, None);
    assert_eq!(next, 1);
}

#[test]
fn joining_the_player_group_fires_one_event() {
    // player's group propagates and exactly one join event fires
    let cfg = SimConfig::default();
    let player = Fish::new_player(v(0, 0, 0), v(0, 1000, 0));
    let b = npc_at(4_000, 0, 0);
    let mut fishes = vec![player, b];
    let mut next: u64 = 1;
    let ev = group_by_proximity_system(&mut fishes, &mut next, &cfg);
    assert_eq!(fishes[0].group_id, Some(PLAYER_GROUP_ID));
    assert_eq!(fishes[1].group_id, Some(PLAYER_GROUP_ID));
    assert_eq!(ev.joined_player, 1);
    assert_eq!(ev.merges.len(), 0);
}

#[test]
fn merge_resolution_unifies_to_the_minimum_id() {
    // A holds 5, B holds 7, C is unassigned; contacts (A, C) and (B, C)
    // in one tick: after merge resolution all three hold min(5, 7) = 5
    let mut a = npc_at(0, 0, 0);
    a.group_id = Some(5);
    let mut b = npc_at(20_000, 0, 0);
    b.group_id = Some(7);
    let c = npc_at(10_000, 0, 0);
    let mut fishes = vec![a, b, c];
    let mut next: u64 = 8;
    let contacts = vec![(0usize, 2usize), (1usize, 2usize)];
    let ev = resolve_contacts(&mut fishes, &mut next, &contacts);
    assert_eq!(fishes[2].group_id, Some(5));
    assert_eq!(ev.merges, vec![(7, 5)]);
    merge_groups_system(&mut fishes, &ev.merges);
    assert_eq!(fishes[0].group_id, Some(5));
    assert_eq!(fishes[1].group_id, Some(5));
    assert_eq!(fishes[2].group_id, Some(5));
}

#[test]
fn merging_with_the_player_group_keeps_id_zero() {
    let mut a = npc_at(0, 0, 0);
    a.group_id = Some(PLAYER_GROUP_ID);
    let mut b = npc_at(1_000, 0, 0);
    b.group_id = Some(5);
    let mut fishes = vec![a, b];
    let mut next: u64 = 6;
    let contacts = vec![(0usize, 1usize)];
    let ev = resolve_contacts(&mut fishes, &mut next, &contacts);
    assert_eq!(ev.merges, vec![(0, 5)]);
    assert_eq!(ev.joined_player, 1);
    merge_groups_system(&mut fishes, &ev.merges);
    assert_eq!(fishes[0].group_id, Some(PLAYER_GROUP_ID));
    assert_eq!(fishes[1].group_id, Some(PLAYER_GROUP_ID));
}

#[test]
fn merge_chain_converges_over_ticks() {
    // groups 5 and 3 merge one tick, the survivor meets 1 the next tick
    let mut a = npc_at(0, 0, 0);
    a.group_id = Some(5);
    let mut b = npc_at(1_000, 0, 0);
    b.group_id = Some(3);
    let mut c = npc_at(2_000, 0, 0);
    c.group_id = Some(1);
    let mut fishes = vec![a, b, c];
    merge_groups_system(&mut fishes, &vec![(5, 3)]);
    assert_eq!(fishes[0].group_id, Some(3));
    assert_eq!(fishes[1].group_id, Some(3));
    merge_groups_system(&mut fishes, &vec![(3, 1)]);
    assert_eq!(fishes[0].group_id, Some(1));
    assert_eq!(fishes[1].group_id, Some(1));
    assert_eq!(fishes[2].group_id, Some(1));
}

#[test]
fn merge_lookup_last_writer_wins() {
    let merges = vec![(7u64, 5u64), (7u64, 3u64)];
    assert_eq!(merge_lookup(&merges, 7), Some(3));
    assert_eq!(merge_lookup(&merges, 5), None);
    assert_eq!(merge_lookup(&merges, 0), None);
}

#[test]
fn contacts_naming_unknown_agents_are_ignored() {
    let mut fishes = vec![npc_at(0, 0, 0)];
    let mut next: u64 = 1;
    let contacts = vec![(0usize, 9usize), (3usize, 3usize)];
    let ev = resolve_contacts(&mut fishes, &mut next, &contacts);
    assert_eq!(fishes[0].group_id, None);
    assert_eq!(next, 1);
    assert_eq!(ev.joined_player, 0);
    assert!(ev.merges.is_empty());
}

#[test]
fn separation_impulses_are_equal_and_opposite() {
    let cfg = SimConfig::default();
    let mut a = npc_at(0, 0, 0);
    a.group_id = Some(1);
    let mut b = npc_at(1_000, 500, -200);
    b.group_id = Some(1);
    let mut fishes = vec![a, b];
    separation_force_system(&mut fishes, &cfg);
    let fa = fishes[0].separation_force;
    let fb = fishes[1].separation_force;
    assert!(fa.x != 0 || fa.y != 0 || fa.z != 0);
    assert_eq!((fa.x, fa.y, fa.z), (-fb.x, -fb.y, -fb.z));
    // the impulse pushes a away from b
    assert!(fa.x < 0 && fa.y < 0 && fa.z > 0);
}

#[test]
fn separation_force_is_reset_each_tick() {
    let cfg = SimConfig::default();
    let mut a = npc_at(0, 0, 0);
    a.group_id = Some(1);
    a.separation_force = v(123, 456, 789);
    let mut fishes = vec![a];
    separation_force_system(&mut fishes, &cfg);
    assert_eq!((fishes[0].separation_force.x, fishes[0].separation_force.y), (0, 0));
    assert_eq!(fishes[0].separation_force.z, 0);
}

#[test]
fn ungrouped_agents_feel_no_separation() {
    let cfg = SimConfig::default();
    let a = npc_at(0, 0, 0);
    let mut b = npc_at(1_000, 0, 0);
    b.group_id = Some(1);
    let mut fishes = vec![a, b];
    separation_force_system(&mut fishes, &cfg);
    assert_eq!(fishes[0].separation_force, v(0, 0, 0));
    assert_eq!(fishes[1].separation_force, v(0, 0, 0));
}

#[test]
fn separation_exact_inverse_cube_value() {
    // distance 1000 milli (1 unit), radius 2 units, strength 50:
    // impulse = 50 * 2000^3 / 1000^3 * delta = 400 * delta
    let cfg = SimConfig::default();
    let mut a = npc_at(1_000, 0, 0);
    a.group_id = Some(1);
    let mut b = npc_at(0, 0, 0);
    b.group_id = Some(1);
    let mut fishes = vec![a, b];
    separation_force_system(&mut fishes, &cfg);
    assert_eq!(fishes[0].separation_force.x, 400_000);
    assert_eq!(fishes[1].separation_force.x, -400_000);
}

#[test]
fn cohesion_pulls_toward_group_centroid() {
    // two agents of one group at x = 0 and x = 10000: centroid x = 5000;
    // force on the first = 2.0 * (5000 - 0) = 10000 milli
    let cfg = SimConfig::default();
    let mut a = npc_at(0, 0, 0);
    a.group_id = Some(1);
    let mut b = npc_at(10_000, 0, 0);
    b.group_id = Some(1);
    let mut fishes = vec![a, b];
    cohesion_force_system(&mut fishes, &cfg);
    assert_eq!(fishes[0].cohesion_force.x, 10_000);
    assert_eq!(fishes[1].cohesion_force.x, -10_000);
    assert_eq!(fishes[0].cohesion_force.y, 0);
}

#[test]
fn ungrouped_agents_get_no_cohesion() {
    let cfg = SimConfig::default();
    let mut a = npc_at(0, 0, 0);
    a.cohesion_force = v(7, 7, 7);
    let mut fishes = vec![a, npc_at(10_000, 0, 0)];
    cohesion_force_system(&mut fishes, &cfg);
    assert_eq!(fishes[0].cohesion_force, v(7, 7, 7));
}

#[test]
fn alignment_steers_along_group_mean_velocity() {
    // mean velocity (1000, 0, 0), strength 0.01: force = 10
    let cfg = SimConfig::default();
    let mut a = npc_at(0, 0, 0);
    a.group_id = Some(1);
    a.velocity = v(2_000, 0, 0);
    let mut b = npc_at(5_000, 0, 0);
    b.group_id = Some(1);
    b.velocity = v(0, 0, 0);
    let mut fishes = vec![a, b];
    alignment_force_system(&mut fishes, &cfg);
    assert_eq!(fishes[0].alignment_force.x, 10);
    assert_eq!(fishes[1].alignment_force.x, 10);
}

#[test]
fn friction_opposes_velocity() {
    let cfg = SimConfig::default();
    let mut a = npc_at(0, 0, 0);
    a.velocity = v(10_000, -4_000, 0);
    let mut fishes = vec![a];
    friction_force_system(&mut fishes, &cfg);
    assert_eq!(fishes[0].friction_force.x, -100);
    assert_eq!(fishes[0].friction_force.y, 40);
    assert_eq!(fishes[0].friction_force.z, 0);
}

#[test]
fn friction_decay_never_reverses_and_strictly_shrinks() {
    // a single agent under pure drag: speed falls every tick and the
    // direction of motion never flips
    let cfg = SimConfig::default();
    let mut a = npc_at(0, 0, 0);
    a.wander = false;
    a.velocity = v(15_000, 0, 0);
    let mut fishes = vec![a];
    let mut last = 15_000i64;
    for _ in 0..50 {
        friction_force_system(&mut fishes, &cfg);
        apply_forces_system(&mut fishes, 100, &cfg);
        let vx = fishes[0].velocity.x;
        assert!(vx > 0, "drag must never reverse the direction");
        assert!(vx < last, "speed must strictly decrease");
        assert_eq!(fishes[0].velocity.y, 0);
        last = vx;
    }
}

#[test]
fn integration_caps_speed_under_any_forces() {
    let cfg = SimConfig::default();
    let mut a = npc_at(0, 0, 0);
    a.velocity = v(19_000, 0, 0);
    a.cohesion_force = v(900_000, 800_000, 0);
    a.separation_force = v(0, 700_000, 100_000);
    a.alignment_force = v(650_000, 0, 0);
    a.wander_force = v(1_000, 1_000, 0);
    let mut fishes = vec![a];
    apply_forces_system(&mut fishes, 2_000, &cfg);
    let w = fishes[0].velocity;
    assert!(len2(w) <= 20_000i128 * 20_000i128);
    assert!(w.x > 0 && w.y > 0);
}

#[test]
fn player_velocity_is_not_integrated() {
    let cfg = SimConfig::default();
    let mut p = Fish::new_player(v(0, 0, 0), v(0, 1000, 0));
    p.velocity = v(4_000, 0, 0);
    p.cohesion_force = v(900_000, 0, 0);
    let mut fishes = vec![p];
    apply_forces_system(&mut fishes, 1_000, &cfg);
    assert_eq!(fishes[0].velocity, v(4_000, 0, 0));
}

#[test]
fn movement_advances_and_orients() {
    let mut a = npc_at(1_000, 2_000, 3_000);
    a.velocity = v(2_000, -1_000, 0);
    let mut fishes = vec![a];
    move_system(&mut fishes, 500);
    assert_eq!(fishes[0].position, v(2_000, 1_500, 3_000));
    assert_eq!(fishes[0].facing, v(1_000, -500, 0));
}

#[test]
fn zero_step_keeps_orientation() {
    let mut a = npc_at(0, 0, 0);
    a.velocity = v(1, 0, 0);
    let mut fishes = vec![a];
    // 1 milli/s over 500 ms truncates to a zero step
    move_system(&mut fishes, 500);
    assert_eq!(fishes[0].position, v(0, 0, 0));
    assert_eq!(fishes[0].facing, v(0, 1000, 0));
}

#[test]
fn wander_applies_only_to_ungrouped_agents() {
    let cfg = SimConfig::default();
    let lone = npc_at(0, 0, 0);
    let mut grouped = npc_at(30_000, 0, 0);
    grouped.group_id = Some(4);
    grouped.wander_force = v(11, 22, 33);
    let mut fishes = vec![lone, grouped];
    wander_force_system(&mut fishes, &cfg);
    let wf = fishes[0].wander_force;
    assert_eq!(wf.z, 0);
    assert!(wf.x.abs() <= cfg.wander && wf.y.abs() <= cfg.wander);
    assert_eq!(fishes[1].wander_force, v(11, 22, 33));
}

#[test]
fn random_direction_stays_near_unit_length() {
    for _ in 0..200 {
        let d = random_direction();
        assert_eq!(d.z, 0);
        let l2 = len2(d);
        assert!((120_000..=1_000_000).contains(&l2), "length out of range: {}", l2);
    }
}

#[test]
fn random_spawn_offset_stays_in_radius() {
    for _ in 0..200 {
        let o = random_spawn_offset(50_000);
        assert_eq!(o.z, 0);
        assert!(o.x.abs() <= 50_000 && o.y.abs() <= 50_000);
    }
}

#[test]
fn random_unit_milli_in_range() {
    for _ in 0..200 {
        assert!(random_unit_milli() <= 1000);
    }
}

#[test]
fn camera_eases_toward_the_framing_target() {
    // two followed agents at x = -10000 and 10000: centroid (0, 0, 0),
    // furthest distance 10000; depth = 1.0 * 2.449 * 10000 = 24490,
    // below the 50000 minimum, so the target is (0, 0, 50000);
    // a 0.5 blend from (0, 0, 100000) lands at (0, 0, 75000)
    let ccfg = CameraConfig::default();
    let mut a = npc_at(-10_000, 0, 0);
    a.followed = true;
    let mut b = npc_at(10_000, 0, 0);
    b.followed = true;
    let fishes = vec![a, b];
    let mut cam = TrackingCenterOfMassCamera { position: v(0, 0, 100_000) };
    camera_center_of_mass_track_system(&mut cam, &fishes, &ccfg);
    assert_eq!(cam.position, v(0, 0, 75_000));
}

#[test]
fn camera_pulls_back_for_a_spread_flock() {
    // spread 100 units: depth = 2.449 * 100_000 = 244_900 over the minimum
    let ccfg = CameraConfig::default();
    let mut a = npc_at(-100_000, 0, 0);
    a.followed = true;
    let mut b = npc_at(100_000, 0, 0);
    b.followed = true;
    let fishes = vec![a, b];
    let mut cam = TrackingCenterOfMassCamera { position: v(0, 0, 244_900) };
    camera_center_of_mass_track_system(&mut cam, &fishes, &ccfg);
    assert_eq!(cam.position, v(0, 0, 244_900));
}

#[test]
fn camera_holds_position_with_nothing_followed() {
    let ccfg = CameraConfig::default();
    let fishes = vec![npc_at(5_000, 5_000, 0)];
    let mut cam = TrackingCenterOfMassCamera { position: v(1, 2, 3) };
    camera_center_of_mass_track_system(&mut cam, &fishes, &ccfg);
    assert_eq!(cam.position, v(1, 2, 3));
}

#[test]
fn steering_heads_for_the_target_in_plane() {
    let cfg = SimConfig::default();
    let mut fishes = vec![Fish::new_player(v(0, 0, 0), v(0, 1000, 0))];
    click_to_move_system(&mut fishes, Some(v(1_000, 2_000, 777)), &cfg);
    assert_eq!(fishes[0].velocity, v(1_000, 2_000, 0));
}

#[test]
fn steering_caps_the_speed() {
    let cfg = SimConfig::default();
    let mut fishes = vec![Fish::new_player(v(0, 0, 0), v(0, 1000, 0))];
    click_to_move_system(&mut fishes, Some(v(1_000_000, 0, 0)), &cfg);
    assert!(len2(fishes[0].velocity) <= 30_000i128 * 30_000i128);
    assert!(fishes[0].velocity.x > 29_000);
}

#[test]
fn steering_stops_without_a_target() {
    let cfg = SimConfig::default();
    let mut p = Fish::new_player(v(0, 0, 0), v(0, 1000, 0));
    p.velocity = v(9_000, 0, 0);
    let mut fishes = vec![p];
    click_to_move_system(&mut fishes, None, &cfg);
    assert_eq!(fishes[0].velocity, v(0, 0, 0));
}

#[test]
fn npcs_are_not_steered() {
    let cfg = SimConfig::default();
    let mut a = npc_at(0, 0, 0);
    a.velocity = v(5_000, 0, 0);
    let mut fishes = vec![a];
    click_to_move_system(&mut fishes, None, &cfg);
    assert_eq!(fishes[0].velocity, v(5_000, 0, 0));
}

#[test]
fn is_grouped_with_player_checks_the_sentinel() {
    let p = Fish::new_player(v(0, 0, 0), v(0, 1000, 0));
    assert!(p.is_grouped_with_player());
    let mut a = npc_at(0, 0, 0);
    assert!(!a.is_grouped_with_player());
    a.group_id = Some(3);
    assert!(!a.is_grouped_with_player());
    a.group_id = Some(PLAYER_GROUP_ID);
    assert!(a.is_grouped_with_player());
}

#[test]
fn fish_track_system_follows_player_group_members() {
    let mut a = npc_at(0, 0, 0);
    a.group_id = Some(PLAYER_GROUP_ID);
    let b = npc_at(1_000, 0, 0);
    let mut fishes = vec![a, b];
    fish_track_system(&mut fishes);
    assert!(fishes[0].followed);
    assert!(!fishes[1].followed);
}

#[test]
fn animation_speed_follows_velocity_magnitude() {
    let mut a = npc_at(0, 0, 0);
    a.velocity = v(3_000, 4_000, 0);
    assert_eq!(animation_speed_milli(&a), 6_000);
    a.velocity = v(0, 0, 0);
    assert_eq!(animation_speed_milli(&a), 1_000);
}

#[test]
fn full_tick_groups_nearby_agents() {
    let cfg = SimConfig::default();
    let ccfg = CameraConfig::default();
    let mut fishes = vec![npc_at(0, 0, 0), npc_at(5_000, 0, 0)];
    let mut next: u64 = 1;
    let mut cam = TrackingCenterOfMassCamera { position: v(0, 0, 100_000) };
    let ev = simulation_tick(&mut fishes, &mut next, &mut cam, &cfg, &ccfg, 16);
    assert_eq!(fishes[0].group_id, Some(1));
    assert_eq!(fishes[1].group_id, Some(1));
    assert_eq!(ev.joined_player, 0);
    for f in &fishes {
        assert!(len2(f.velocity) <= 20_000i128 * 20_000i128);
    }
}

#[test]
fn join_events_do_not_carry_over_to_the_next_tick() {
    let cfg = SimConfig::default();
    let ccfg = CameraConfig::default();
    let player = Fish::new_player(v(0, 0, 0), v(0, 1000, 0));
    let b = npc_at(4_000, 0, 0);
    let mut fishes = vec![player, b];
    let mut next: u64 = 1;
    let mut cam = TrackingCenterOfMassCamera { position: v(0, 0, 100_000) };
    let ev1 = simulation_tick(&mut fishes, &mut next, &mut cam, &cfg, &ccfg, 16);
    assert_eq!(ev1.joined_player, 1);
    assert_eq!(fishes[1].group_id, Some(PLAYER_GROUP_ID));
    let ev2 = simulation_tick(&mut fishes, &mut next, &mut cam, &cfg, &ccfg, 16);
    assert_eq!(ev2.joined_player, 0);
    assert_eq!(fishes[1].group_id, Some(PLAYER_GROUP_ID));
}

#[test]
fn player_group_survives_many_ticks() {
    let cfg = SimConfig::default();
    let ccfg = CameraConfig::default();
    let mut fishes = vec![
        Fish::new_player(v(0, 0, 0), v(0, 1000, 0)),
        npc_at(4_000, 0, 0),
        npc_at(8_000, 0, 0),
        npc_at(40_000, 0, 0),
    ];
    let mut next: u64 = 1;
    let mut cam = TrackingCenterOfMassCamera { position: v(0, 0, 100_000) };
    for _ in 0..20 {
        simulation_tick(&mut fishes, &mut next, &mut cam, &cfg, &ccfg, 16);
        assert_eq!(fishes[0].group_id, Some(PLAYER_GROUP_ID));
    }
    assert_eq!(fishes[1].group_id, Some(PLAYER_GROUP_ID));
    assert_eq!(fishes[2].group_id, Some(PLAYER_GROUP_ID));
}

#[test]
fn cursor_ray_hits_the_swim_plane() {
    // straight down from z = 100 units: hits the origin
    let p = try_get_cursor_position_on_z_plane(v(0, 0, 100_000), v(0, 0, -1_000));
    assert_eq!(p, Some(v(0, 0, 0)));
    // slanted ray: t = 100, so x = 100 * 500 = 50_000
    let q = try_get_cursor_position_on_z_plane(v(0, 0, 100_000), v(500, -200, -1_000));
    assert_eq!(q, Some(v(50_000, -20_000, 0)));
}

#[test]
fn cursor_ray_parallel_to_the_plane_misses() {
    let p = try_get_cursor_position_on_z_plane(v(0, 0, 100_000), v(1_000, 0, 0));
    assert_eq!(p, None);
}

#[test]
fn cursor_ray_feeds_steering() {
    let cfg = SimConfig::default();
    let target = try_get_cursor_position_on_z_plane(v(1_000, 2_000, 50_000), v(0, 0, -1_000));
    let mut fishes = vec![Fish::new_player(v(0, 0, 0), v(0, 1000, 0))];
    click_to_move_system(&mut fishes, target, &cfg);
    assert_eq!(fishes[0].velocity, v(1_000, 2_000, 0));
}
