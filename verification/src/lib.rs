//! Flocking simulation: boids-style forces, proximity-driven grouping
//! with batched merge resolution, camera framing, and manual steering,
//! all over fixed-point (milli-unit) integer vectors.

pub mod vec3;
pub mod fishes;
pub mod groups;
pub mod forces;
pub mod random;
pub mod camera;
pub mod input;

use vstd::prelude::*;
use crate::fishes::{Fish, SimConfig, PLAYER_GROUP_ID};
use crate::groups::{GroupEvents, pass_result, proximity_pairs_spec, initial_pass_state,
    ids_of, lemma_pass_invariants, lemma_proximity_pairs_len, distinct_pairs,
    lemma_merge_monotone, merge_map_spec, apply_merge_spec};
use crate::forces::{forces_bounded, AGENT_LIMIT, DT_LIMIT, POS_LIMIT, move_spec};
use crate::camera::{TrackingCenterOfMassCamera, CameraConfig, CAM_LIMIT};
use crate::vec3::{lemma_sdiv_in_range, lemma_mul_bound, lemma_len2_bounded, MILLI};

verus! {

/// Positions a tick accepts: far enough under the force systems' limit
/// that one movement step cannot leave it.
pub const TICK_POS_LIMIT: i64 = 900_000_000_000;

/// Velocities a tick accepts on entry.
pub const TICK_VEL_LIMIT: i64 = 1_000_000_000;

/// One movement step from an in-range state stays in range.
proof fn lemma_move_keeps_bounds(f: Fish, dt: int)
    requires
        0 <= dt <= DT_LIMIT as int,
        f.velocity.bounded(TICK_VEL_LIMIT as int),
        f.position.bounded(TICK_POS_LIMIT as int),
    ensures
        move_spec(f, dt).position.bounded(POS_LIMIT as int),
        move_spec(f, dt).velocity == f.velocity,
        move_spec(f, dt).group_id == f.group_id,
{
    lemma_mul_bound(dt, f.velocity.x as int, DT_LIMIT as int, TICK_VEL_LIMIT as int);
    lemma_mul_bound(dt, f.velocity.y as int, DT_LIMIT as int, TICK_VEL_LIMIT as int);
    lemma_mul_bound(dt, f.velocity.z as int, DT_LIMIT as int, TICK_VEL_LIMIT as int);
    lemma_sdiv_in_range(dt * f.velocity.x, MILLI as int, 2_000_000_000);
    lemma_sdiv_in_range(dt * f.velocity.y, MILLI as int, 2_000_000_000);
    lemma_sdiv_in_range(dt * f.velocity.z, MILLI as int, 2_000_000_000);
}

/// One full simulation tick, in the fixed pipeline order: grouping from
/// direct proximity, merge resolution, camera-follow marking, per-group
/// force aggregation, force integration under the speed cap, position
/// integration, and camera re-targeting. Returns the tick's group
/// events; their join count and merge list belong to this tick alone.
///
/// Whatever forces act, every forceable agent ends the tick with
/// `|velocity|^2 <= max_speed^2`; an agent in the player's group stays
/// in it, and no grouped agent ever becomes ungrouped.
#[verifier::rlimit(100)]
pub fn simulation_tick(
    fishes: &mut Vec<Fish>,
    next_group_id: &mut u64,
    camera: &mut TrackingCenterOfMassCamera,
    cfg: &SimConfig,
    ccfg: &CameraConfig,
    dt_ms: u32,
) -> (ev: GroupEvents)
    requires
        cfg.wf(),
        ccfg.wf(),
        dt_ms <= DT_LIMIT,
        old(fishes)@.len() <= AGENT_LIMIT,
        *old(next_group_id) >= 1,
        *old(next_group_id) + old(fishes)@.len() * old(fishes)@.len() <= u64::MAX,
        old(camera).position.bounded(CAM_LIMIT as int),
        forall|k: int|
            0 <= k < old(fishes)@.len() ==> (#[trigger] old(fishes)@[k]).position.bounded(
                TICK_POS_LIMIT as int,
            ),
        forall|k: int|
            0 <= k < old(fishes)@.len() ==> (#[trigger] old(fishes)@[k]).velocity.bounded(
                TICK_VEL_LIMIT as int,
            ),
        forall|k: int| 0 <= k < old(fishes)@.len() ==> forces_bounded(#[trigger] old(fishes)@[k]),
    ensures
        final(fishes)@.len() == old(fishes)@.len(),
        *final(next_group_id) >= *old(next_group_id),
        forall|k: int|
            0 <= k < final(fishes)@.len() && (#[trigger] final(fishes)@[k]).forceable
                ==> final(fishes)@[k].velocity.len2() <= cfg.max_speed * cfg.max_speed,
        forall|k: int|
            0 <= k < old(fishes)@.len() && (#[trigger] old(fishes)@[k]).group_id == Some(
                PLAYER_GROUP_ID,
            ) ==> final(fishes)@[k].group_id == Some(PLAYER_GROUP_ID),
        forall|k: int|
            0 <= k < old(fishes)@.len() && (#[trigger] old(fishes)@[k]).group_id is Some
                ==> final(fishes)@[k].group_id is Some,
        forall|k: int|
            0 <= k < final(fishes)@.len() ==> (#[trigger] final(fishes)@[k]).position.bounded(
                POS_LIMIT as int,
            ),
        final(camera).position.bounded(CAM_LIMIT as int),
        ev.merges@ == pass_result(
            old(fishes)@,
            *old(next_group_id),
            proximity_pairs_spec(old(fishes)@, cfg.group_distance as int, 0),
        ).merges,
        ev.joined_player == pass_result(
            old(fishes)@,
            *old(next_group_id),
            proximity_pairs_spec(old(fishes)@, cfg.group_distance as int, 0),
        ).joined,
{
    let ghost s0 = fishes@;
    let ghost n0 = *next_group_id;
    let ghost pairs = proximity_pairs_spec(s0, cfg.group_distance as int, 0);
    proof {
        lemma_proximity_pairs_len(s0, cfg.group_distance as int, 0);
        assert(s0.len() * s0.len() >= 0) by (nonlinear_arith);
    }
    let ev = crate::groups::group_by_proximity_system(fishes, next_group_id, cfg);
    let ghost s1 = fishes@;
    proof {
        lemma_pass_invariants(initial_pass_state(s0, n0), pairs);
        assert(forall|k: int|
            0 <= k < s0.len() ==> ids_of(s0)[k] == (#[trigger] s0[k]).group_id);
        assert(forall|k: int|
            0 <= k < s0.len() && (#[trigger] s0[k]).group_id is Some ==> s1[k].group_id
                == s0[k].group_id);
        assert(distinct_pairs(ev.merges@)) by {
            assert(forall|p: int|
                0 <= p < ev.merges@.len() ==> (#[trigger] ev.merges@[p]).0 != ev.merges@[p].1);
        }
    }
    crate::groups::merge_groups_system(fishes, &ev.merges);
    let ghost s2 = fishes@;
    proof {
        lemma_merge_monotone(ev.merges@, Some(PLAYER_GROUP_ID));
        assert forall|g: Option<u64>| g is Some implies (#[trigger] apply_merge_spec(
            merge_map_spec(ev.merges@),
            g,
        )) is Some by {
            lemma_merge_monotone(ev.merges@, g);
        }
    }
    crate::fishes::fish_track_system(fishes);
    let ghost s3 = fishes@;
    crate::forces::cohesion_force_system(fishes, cfg);
    let ghost s4 = fishes@;
    crate::forces::separation_force_system(fishes, cfg);
    let ghost s5 = fishes@;
    crate::forces::alignment_force_system(fishes, cfg);
    let ghost s6 = fishes@;
    crate::forces::friction_force_system(fishes, cfg);
    let ghost s7 = fishes@;
    crate::forces::wander_force_system(fishes, cfg);
    let ghost s8 = fishes@;
    proof {
        assert(forall|k: int|
            0 <= k < s8.len() ==> forces_bounded(#[trigger] s8[k]) && s8[k].position.bounded(
                TICK_POS_LIMIT as int,
            ) && s8[k].velocity == s0[k].velocity && s8[k].group_id == s2[k].group_id
                && s8[k].forceable == s0[k].forceable);
    }
    crate::forces::apply_forces_system(fishes, dt_ms, cfg);
    let ghost s9 = fishes@;
    proof {
        assert forall|k: int| 0 <= k < s9.len() implies (#[trigger] s9[k]).velocity.bounded(
            TICK_VEL_LIMIT as int,
        ) && s9[k].position.bounded(TICK_POS_LIMIT as int) by {
            if s9[k].forceable {
                crate::vec3::lemma_sq_bound(cfg.max_speed as int, 1_000_000);
                lemma_len2_bounded(s9[k].velocity, cfg.max_speed as int);
            } else {
                assert(s9[k].velocity == s8[k].velocity);
            }
        }
    }
    crate::forces::move_system(fishes, dt_ms);
    let ghost s10 = fishes@;
    proof {
        assert forall|k: int| 0 <= k < s10.len() implies (#[trigger] s10[k]).position.bounded(
            POS_LIMIT as int,
        ) && s10[k].velocity == s9[k].velocity && s10[k].group_id == s9[k].group_id by {
            lemma_move_keeps_bounds(s9[k], dt_ms as int);
        }
    }
    crate::camera::camera_center_of_mass_track_system(camera, fishes, ccfg);
    ev
}

} // verus!
