//! The movement and force model: per-tick force accumulators, velocity
//! integration under a speed cap, and position integration with
//! re-orientation along the direction of travel.

use vstd::prelude::*;
use crate::fishes::{Fish, SimConfig};
use crate::vec3::{Vec3, clamp_spec, clamp_length_max, iabs, sdiv, scale_div, lemma_sdiv_abs,
    lemma_sdiv_abs_lower, lemma_sdiv_in_range, MILLI};

verus! {

/// Positions and velocities the force systems accept, in milli units.
pub const POS_LIMIT: i64 = 1_000_000_000_000;

/// Largest force coordinate any system stores.
pub const FORCE_LIMIT: i64 = 0x80_0000_0000_0000;

/// Largest velocity coordinate the integration accepts.
pub const VEL_LIMIT: i64 = 0x200_0000_0000_0000;

/// Most agents a separation scan accepts.
pub const AGENT_LIMIT: usize = 1024;

/// Longest tick the integrators accept, in milliseconds.
pub const DT_LIMIT: u32 = 2000;

/// The velocity change one enabled force contributes over `dt`
/// milliseconds, per coordinate.
pub open spec fn force_term(enabled: bool, force: Vec3, dt: int) -> (int, int, int) {
    if enabled {
        (
            sdiv(dt * force.x, MILLI as int),
            sdiv(dt * force.y, MILLI as int),
            sdiv(dt * force.z, MILLI as int),
        )
    } else {
        (0, 0, 0)
    }
}

/// The velocity of an agent after its enabled forces are integrated,
/// before the speed cap.
pub open spec fn integrated_velocity(f: Fish, dt: int) -> Vec3 {
    let c = force_term(f.cohesive, f.cohesion_force, dt);
    let s = force_term(f.separation, f.separation_force, dt);
    let a = force_term(f.alignment, f.alignment_force, dt);
    let fr = force_term(f.friction, f.friction_force, dt);
    let w = force_term(f.wander, f.wander_force, dt);
    Vec3 {
        x: (f.velocity.x + c.0 + s.0 + a.0 + fr.0 + w.0) as i64,
        y: (f.velocity.y + c.1 + s.1 + a.1 + fr.1 + w.1) as i64,
        z: (f.velocity.z + c.2 + s.2 + a.2 + fr.2 + w.2) as i64,
    }
}

/// What force integration does to one agent: a forceable agent has its
/// enabled forces integrated and its velocity clamped to the speed cap;
/// any other agent is untouched.
pub open spec fn apply_forces_spec(f: Fish, dt: int, cfg: SimConfig) -> Fish {
    if f.forceable {
        Fish { velocity: clamp_spec(integrated_velocity(f, dt), cfg.max_speed as int), ..f }
    } else {
        f
    }
}

/// The stored state a tick's integration accepts.
pub open spec fn forces_bounded(f: Fish) -> bool {
    &&& f.velocity.bounded(VEL_LIMIT as int)
    &&& f.cohesion_force.bounded(FORCE_LIMIT as int)
    &&& f.separation_force.bounded(FORCE_LIMIT as int)
    &&& f.alignment_force.bounded(FORCE_LIMIT as int)
    &&& f.friction_force.bounded(FORCE_LIMIT as int)
    &&& f.wander_force.bounded(FORCE_LIMIT as int)
}

fn force_term_exec(enabled: bool, force: Vec3, dt_ms: u32) -> (r: Vec3)
    requires
        dt_ms <= DT_LIMIT,
        force.bounded(FORCE_LIMIT as int),
    ensures
        r.x == force_term(enabled, force, dt_ms as int).0,
        r.y == force_term(enabled, force, dt_ms as int).1,
        r.z == force_term(enabled, force, dt_ms as int).2,
        r.bounded(0x100_0000_0000_0000),
{
    if enabled {
        proof {
            crate::vec3::lemma_mul_bound(dt_ms as int, force.x as int, DT_LIMIT as int, FORCE_LIMIT as int);
            crate::vec3::lemma_mul_bound(dt_ms as int, force.y as int, DT_LIMIT as int, FORCE_LIMIT as int);
            crate::vec3::lemma_mul_bound(dt_ms as int, force.z as int, DT_LIMIT as int, FORCE_LIMIT as int);
            lemma_sdiv_in_range(dt_ms as int * force.x as int, MILLI as int, 0x100_0000_0000_0000);
            lemma_sdiv_in_range(dt_ms as int * force.y as int, MILLI as int, 0x100_0000_0000_0000);
            lemma_sdiv_in_range(dt_ms as int * force.z as int, MILLI as int, 0x100_0000_0000_0000);
        }
        scale_div(force, dt_ms as i64, MILLI)
    } else {
        Vec3 { x: 0, y: 0, z: 0 }
    }
}

/// Integrate each forceable agent's enabled forces into its velocity over
/// `dt_ms` milliseconds, then clamp the velocity to the configured cap.
/// After the call every forceable agent's velocity satisfies
/// `|velocity|^2 <= max_speed^2`, whatever forces were stored.
#[verifier::rlimit(60)]
pub fn apply_forces_system(fishes: &mut Vec<Fish>, dt_ms: u32, cfg: &SimConfig)
    requires
        cfg.wf(),
        dt_ms <= DT_LIMIT,
        forall|k: int| 0 <= k < old(fishes)@.len() ==> forces_bounded(#[trigger] old(fishes)@[k]),
    ensures
        final(fishes)@.len() == old(fishes)@.len(),
        forall|k: int|
            0 <= k < old(fishes)@.len() ==> #[trigger] final(fishes)@[k] == apply_forces_spec(
                old(fishes)@[k],
                dt_ms as int,
                *cfg,
            ),
        forall|k: int|
            0 <= k < final(fishes)@.len() && (#[trigger] final(fishes)@[k]).forceable
                ==> final(fishes)@[k].velocity.len2() <= cfg.max_speed * cfg.max_speed,
{
    let ghost s0 = fishes@;
    let mut k: usize = 0;
    while k < fishes.len()
        invariant
            k <= s0.len(),
            fishes@.len() == s0.len(),
            cfg.wf(),
            dt_ms <= DT_LIMIT,
            forall|p: int| 0 <= p < s0.len() ==> forces_bounded(#[trigger] s0[p]),
            forall|p: int|
                0 <= p < k ==> #[trigger] fishes@[p] == apply_forces_spec(
                    s0[p],
                    dt_ms as int,
                    *cfg,
                ),
            forall|p: int|
                0 <= p < k && (#[trigger] fishes@[p]).forceable ==> fishes@[p].velocity.len2()
                    <= cfg.max_speed * cfg.max_speed,
            forall|p: int| k <= p < s0.len() ==> #[trigger] fishes@[p] == s0[p],
        decreases s0.len() - k,
    {
        let f = fishes[k];
        if f.forceable {
            let c = force_term_exec(f.cohesive, f.cohesion_force, dt_ms);
            let s = force_term_exec(f.separation, f.separation_force, dt_ms);
            let a = force_term_exec(f.alignment, f.alignment_force, dt_ms);
            let fr = force_term_exec(f.friction, f.friction_force, dt_ms);
            let w = force_term_exec(f.wander, f.wander_force, dt_ms);
            let vx: i64 = f.velocity.x + c.x + s.x + a.x + fr.x + w.x;
            let vy: i64 = f.velocity.y + c.y + s.y + a.y + fr.y + w.y;
            let vz: i64 = f.velocity.z + c.z + s.z + a.z + fr.z + w.z;
            let pre = Vec3 { x: vx, y: vy, z: vz };
            assert(pre == integrated_velocity(f, dt_ms as int));
            let capped = clamp_length_max(pre, cfg.max_speed);
            let mut nf = f;
            nf.velocity = capped;
            fishes[k] = nf;
            assert(fishes@[k as int] == apply_forces_spec(s0[k as int], dt_ms as int, *cfg));
        }
        k = k + 1;
    }
}

/// What one tick of movement does to one agent: the position advances by
/// `velocity * dt`, and when that step is not the zero vector the agent
/// re-orients to face it; a zero step leaves the facing unchanged, so
/// noise-level motion causes no orientation jitter.
pub open spec fn move_spec(f: Fish, dt: int) -> Fish {
    let dx = sdiv(dt * f.velocity.x, MILLI as int);
    let dy = sdiv(dt * f.velocity.y, MILLI as int);
    let dz = sdiv(dt * f.velocity.z, MILLI as int);
    let stepped = !(dx == 0 && dy == 0 && dz == 0);
    Fish {
        position: Vec3 {
            x: (f.position.x + dx) as i64,
            y: (f.position.y + dy) as i64,
            z: (f.position.z + dz) as i64,
        },
        facing: if stepped {
            Vec3 { x: dx as i64, y: dy as i64, z: dz as i64 }
        } else {
            f.facing
        },
        ..f
    }
}

/// Advance every agent's position by its velocity over `dt_ms`
/// milliseconds, re-orienting moving agents along their step.
pub fn move_system(fishes: &mut Vec<Fish>, dt_ms: u32)
    requires
        dt_ms <= DT_LIMIT,
        forall|k: int|
            0 <= k < old(fishes)@.len() ==> (#[trigger] old(fishes)@[k]).velocity.bounded(
                VEL_LIMIT as int,
            ),
        forall|k: int|
            0 <= k < old(fishes)@.len() ==> (#[trigger] old(fishes)@[k]).position.bounded(
                0x4000_0000_0000_0000,
            ),
    ensures
        final(fishes)@.len() == old(fishes)@.len(),
        forall|k: int|
            0 <= k < old(fishes)@.len() ==> #[trigger] final(fishes)@[k] == move_spec(
                old(fishes)@[k],
                dt_ms as int,
            ),
{
    let ghost s0 = fishes@;
    let mut k: usize = 0;
    while k < fishes.len()
        invariant
            k <= s0.len(),
            fishes@.len() == s0.len(),
            dt_ms <= DT_LIMIT,
            forall|p: int|
                0 <= p < s0.len() ==> (#[trigger] s0[p]).velocity.bounded(VEL_LIMIT as int),
            forall|p: int|
                0 <= p < s0.len() ==> (#[trigger] s0[p]).position.bounded(0x4000_0000_0000_0000),
            forall|p: int| 0 <= p < k ==> #[trigger] fishes@[p] == move_spec(s0[p], dt_ms as int),
            forall|p: int| k <= p < s0.len() ==> #[trigger] fishes@[p] == s0[p],
        decreases s0.len() - k,
    {
        let f = fishes[k];
        proof {
            crate::vec3::lemma_mul_bound(dt_ms as int, f.velocity.x as int, DT_LIMIT as int, VEL_LIMIT as int);
            crate::vec3::lemma_mul_bound(dt_ms as int, f.velocity.y as int, DT_LIMIT as int, VEL_LIMIT as int);
            crate::vec3::lemma_mul_bound(dt_ms as int, f.velocity.z as int, DT_LIMIT as int, VEL_LIMIT as int);
            lemma_sdiv_in_range(dt_ms as int * f.velocity.x as int, MILLI as int, 0x400_0000_0000_0000);
            lemma_sdiv_in_range(dt_ms as int * f.velocity.y as int, MILLI as int, 0x400_0000_0000_0000);
            lemma_sdiv_in_range(dt_ms as int * f.velocity.z as int, MILLI as int, 0x400_0000_0000_0000);
        }
        let delta = scale_div(f.velocity, dt_ms as i64, MILLI);
        let mut nf = f;
        nf.position = Vec3 {
            x: f.position.x + delta.x,
            y: f.position.y + delta.y,
            z: f.position.z + delta.z,
        };
        if !(delta.x == 0 && delta.y == 0 && delta.z == 0) {
            nf.facing = delta;
        }
        fishes[k] = nf;
        k = k + 1;
    }
}

/// What the friction system stores for one agent: a drag force opposing
/// the current velocity, `-friction * velocity` in milli fixed-point.
pub open spec fn friction_force_spec(f: Fish, cfg: SimConfig) -> Fish {
    if f.friction {
        Fish {
            friction_force: Vec3 {
                x: sdiv(-(cfg.friction * f.velocity.x), MILLI as int) as i64,
                y: sdiv(-(cfg.friction * f.velocity.y), MILLI as int) as i64,
                z: sdiv(-(cfg.friction * f.velocity.z), MILLI as int) as i64,
            },
            ..f
        }
    } else {
        f
    }
}

/// Store the linear drag force on every agent subject to friction.
pub fn friction_force_system(fishes: &mut Vec<Fish>, cfg: &SimConfig)
    requires
        cfg.wf(),
        forall|k: int|
            0 <= k < old(fishes)@.len() ==> (#[trigger] old(fishes)@[k]).velocity.bounded(
                POS_LIMIT as int,
            ),
    ensures
        final(fishes)@.len() == old(fishes)@.len(),
        forall|k: int|
            0 <= k < old(fishes)@.len() ==> #[trigger] final(fishes)@[k] == friction_force_spec(
                old(fishes)@[k],
                *cfg,
            ),
        forall|k: int|
            0 <= k < final(fishes)@.len() ==> (#[trigger] final(fishes)@[k]).friction_force
                == old(fishes)@[k].friction_force || final(fishes)@[k].friction_force.bounded(
                FORCE_LIMIT as int,
            ),
{
    let ghost s0 = fishes@;
    let mut k: usize = 0;
    while k < fishes.len()
        invariant
            k <= s0.len(),
            fishes@.len() == s0.len(),
            cfg.wf(),
            forall|p: int|
                0 <= p < s0.len() ==> (#[trigger] s0[p]).velocity.bounded(POS_LIMIT as int),
            forall|p: int|
                0 <= p < k ==> #[trigger] fishes@[p] == friction_force_spec(s0[p], *cfg),
            forall|p: int|
                0 <= p < k ==> (#[trigger] fishes@[p]).friction_force == s0[p].friction_force || fishes@[p].friction_force.bounded(FORCE_LIMIT as int),
            forall|p: int| k <= p < s0.len() ==> #[trigger] fishes@[p] == s0[p],
        decreases s0.len() - k,
    {
        let f = fishes[k];
        if f.friction {
            proof {
                crate::vec3::lemma_mul_bound(-(cfg.friction as int), f.velocity.x as int, 1_000_000, POS_LIMIT as int);
                crate::vec3::lemma_mul_bound(-(cfg.friction as int), f.velocity.y as int, 1_000_000, POS_LIMIT as int);
                crate::vec3::lemma_mul_bound(-(cfg.friction as int), f.velocity.z as int, 1_000_000, POS_LIMIT as int);
                lemma_sdiv_in_range(-(cfg.friction as int) * f.velocity.x as int, MILLI as int, FORCE_LIMIT as int);
                lemma_sdiv_in_range(-(cfg.friction as int) * f.velocity.y as int, MILLI as int, FORCE_LIMIT as int);
                lemma_sdiv_in_range(-(cfg.friction as int) * f.velocity.z as int, MILLI as int, FORCE_LIMIT as int);
            }
            let force = scale_div(f.velocity, -cfg.friction, MILLI);
            let mut nf = f;
            nf.friction_force = force;
            fishes[k] = nf;
            assert(-(cfg.friction as int) * f.velocity.x as int == -(cfg.friction * f.velocity.x))
                by (nonlinear_arith);
            assert(-(cfg.friction as int) * f.velocity.y as int == -(cfg.friction * f.velocity.y))
                by (nonlinear_arith);
            assert(-(cfg.friction as int) * f.velocity.z as int == -(cfg.friction * f.velocity.z))
                by (nonlinear_arith);
        }
        k = k + 1;
    }
}

/// One friction-only integration step of a velocity coordinate.
pub open spec fn friction_step(v: int, k: int, dt: int) -> int {
    v + sdiv(dt * sdiv(-(k * v), MILLI as int), MILLI as int)
}

/// Pure drag decay: under friction alone a velocity coordinate never
/// grows and never flips sign, and it strictly shrinks while the drag
/// force stays above the fixed-point resolution. The magnitude therefore
/// approaches zero without ever reversing the direction of motion.
pub proof fn lemma_friction_decay(v: int, k: int, dt: int)
    requires
        0 <= k,
        0 <= dt,
        k * dt < 1_000_000,
    ensures
        iabs(friction_step(v, k, dt)) <= iabs(v),
        v * friction_step(v, k, dt) >= 0,
        k * iabs(v) >= 1000 && dt * (k * iabs(v) - 999) >= 2_000_000 ==> iabs(
            friction_step(v, k, dt),
        ) < iabs(v),
{
    let fr = sdiv(-(k * v), MILLI as int);
    let t = sdiv(dt * fr, MILLI as int);
    lemma_sdiv_abs(-(k * v), MILLI as int);
    lemma_sdiv_abs(dt * fr, MILLI as int);
    assert(iabs(-(k * v)) == k * iabs(v)) by (nonlinear_arith)
        requires
            k >= 0,
            iabs(v) == if v >= 0 { v } else { -v },
            iabs(-(k * v)) == if -(k * v) >= 0 { -(k * v) } else { k * v },
    ;
    assert(iabs(dt * fr) == dt * iabs(fr)) by (nonlinear_arith)
        requires
            dt >= 0,
            iabs(fr) == if fr >= 0 { fr } else { -fr },
            iabs(dt * fr) == if dt * fr >= 0 { dt * fr } else { -(dt * fr) },
    ;
    // magnitude of the step is below the coordinate's own magnitude
    assert(iabs(t) * 1_000_000 <= dt * k * iabs(v)) by (nonlinear_arith)
        requires
            iabs(t) * 1000 <= dt * iabs(fr),
            iabs(fr) * 1000 <= k * iabs(v),
            dt >= 0,
    ;
    if v != 0 {
        assert(iabs(t) < iabs(v)) by (nonlinear_arith)
            requires
                iabs(t) * 1_000_000 <= dt * k * iabs(v),
                k * dt < 1_000_000,
                iabs(v) >= 1,
                iabs(t) >= 0,
        ;
    } else {
        assert(k * v == 0) by (nonlinear_arith)
            requires
                v == 0,
        ;
        assert(fr == 0) by {
            vstd::arithmetic::div_mod::lemma_div_of0(MILLI as int);
        }
        assert(dt * fr == 0) by (nonlinear_arith)
            requires
                fr == 0,
        ;
        assert(t == 0) by {
            vstd::arithmetic::div_mod::lemma_div_of0(MILLI as int);
        }
    }
    // the step opposes the coordinate
    if v > 0 {
        assert(-(k * v) <= 0) by (nonlinear_arith)
            requires
                k >= 0,
                v >= 0,
        ;
        assert(fr <= 0);
        assert(dt * fr <= 0) by (nonlinear_arith)
            requires
                dt >= 0,
                fr <= 0,
        ;
        assert(t <= 0);
        assert(v * friction_step(v, k, dt) >= 0) by (nonlinear_arith)
            requires
                v > 0,
                t <= 0,
                iabs(t) < iabs(v),
                iabs(t) == -t,
                iabs(v) == v,
                friction_step(v, k, dt) == v + t,
        ;
    } else if v < 0 {
        assert(-(k * v) >= 0) by (nonlinear_arith)
            requires
                k >= 0,
                v <= 0,
        ;
        assert(fr >= 0);
        assert(dt * fr >= 0) by (nonlinear_arith)
            requires
                dt >= 0,
                fr >= 0,
        ;
        assert(t >= 0);
        assert(v * friction_step(v, k, dt) >= 0) by (nonlinear_arith)
            requires
                v < 0,
                t >= 0,
                iabs(t) < iabs(v),
                iabs(t) == t,
                iabs(v) == -v,
                friction_step(v, k, dt) == v + t,
        ;
    }
    // strict decay while the drag force is above the resolution
    if k * iabs(v) >= 1000 && dt * (k * iabs(v) - 999) >= 2_000_000 {
        lemma_sdiv_abs_lower(-(k * v), MILLI as int);
        lemma_sdiv_abs_lower(dt * fr, MILLI as int);
        assert(iabs(fr) * 1000 >= k * iabs(v) - 999);
        assert(dt * iabs(fr) >= 2000) by (nonlinear_arith)
            requires
                dt >= 0,
                iabs(fr) * 1000 >= k * iabs(v) - 999,
                dt * (k * iabs(v) - 999) >= 2_000_000,
        ;
        assert(iabs(t) * 1000 >= dt * iabs(fr) - 999);
        assert(iabs(t) >= 1);
        assert(iabs(friction_step(v, k, dt)) < iabs(v)) by (nonlinear_arith)
            requires
                v != 0,
                iabs(t) >= 1,
                iabs(t) < iabs(v),
                v > 0 ==> t <= 0 && friction_step(v, k, dt) == v + t,
                v < 0 ==> t >= 0 && friction_step(v, k, dt) == v + t,
                iabs(v) == if v >= 0 { v } else { -v },
                iabs(t) == if t >= 0 { t } else { -t },
                iabs(friction_step(v, k, dt)) == if friction_step(v, k, dt) >= 0 {
                    friction_step(v, k, dt)
                } else {
                    -friction_step(v, k, dt)
                },
        ;
    }
}


/// Membership in a group's cohesion aggregate: a cohesive agent holding
/// that group id.
pub open spec fn cohesion_member(f: Fish, id: u64) -> bool {
    f.cohesive && f.group_id == Some(id)
}

/// Sum of the positions of a group's cohesion members, per coordinate.
pub open spec fn group_pos_sum(s: Seq<Fish>, id: u64) -> (int, int, int)
    decreases s.len(),
{
    if s.len() == 0 {
        (0, 0, 0)
    } else {
        let rest = group_pos_sum(s.drop_last(), id);
        if cohesion_member(s.last(), id) {
            (
                rest.0 + s.last().position.x,
                rest.1 + s.last().position.y,
                rest.2 + s.last().position.z,
            )
        } else {
            rest
        }
    }
}

/// How many cohesion members a group has.
pub open spec fn group_size(s: Seq<Fish>, id: u64) -> int
    decreases s.len(),
{
    if s.len() == 0 {
        0
    } else {
        group_size(s.drop_last(), id) + if cohesion_member(s.last(), id) {
            1int
        } else {
            0int
        }
    }
}

/// What the cohesion system stores for one agent: a pull toward the
/// centroid of its group, `cohesion * (centroid - position)` in milli
/// fixed-point; an ungrouped or non-cohesive agent keeps its stored
/// force.
pub open spec fn cohesion_force_spec(s: Seq<Fish>, f: Fish, cfg: SimConfig) -> Fish {
    match f.group_id {
        Some(id) => if f.cohesive {
            let sum = group_pos_sum(s, id);
            let n = group_size(s, id);
            Fish {
                cohesion_force: Vec3 {
                    x: sdiv(cfg.cohesion * (sdiv(sum.0, n) - f.position.x), MILLI as int) as i64,
                    y: sdiv(cfg.cohesion * (sdiv(sum.1, n) - f.position.y), MILLI as int) as i64,
                    z: sdiv(cfg.cohesion * (sdiv(sum.2, n) - f.position.z), MILLI as int) as i64,
                },
                ..f
            }
        } else {
            f
        },
        None => f,
    }
}

/// A group with a member at index `k` has at least one member.
proof fn lemma_group_member_size(s: Seq<Fish>, id: u64, k: int)
    requires
        0 <= k < s.len(),
        cohesion_member(s[k], id),
    ensures
        group_size(s, id) >= 1,
    decreases s.len(),
{
    lemma_group_size_nonneg(s.drop_last(), id);
    if k == s.len() - 1 {
        assert(s.last() == s[k]);
    } else {
        assert(s.drop_last()[k] == s[k]);
        lemma_group_member_size(s.drop_last(), id, k);
    }
}

proof fn lemma_group_size_nonneg(s: Seq<Fish>, id: u64)
    ensures
        group_size(s, id) >= 0,
    decreases s.len(),
{
    if s.len() > 0 {
        lemma_group_size_nonneg(s.drop_last(), id);
    }
}

/// Compute one grouped, cohesive agent's pull toward its group centroid.
fn cohesion_force_of(fishes: &Vec<Fish>, k: usize, id: u64, cfg: &SimConfig) -> (r: Vec3)
    requires
        cfg.wf(),
        k < fishes@.len(),
        cohesion_member(fishes@[k as int], id),
        forall|p: int|
            0 <= p < fishes@.len() ==> (#[trigger] fishes@[p]).position.bounded(POS_LIMIT as int),
    ensures
        r == cohesion_force_spec(fishes@, fishes@[k as int], *cfg).cohesion_force,
        r.bounded(FORCE_LIMIT as int),
{
    let ghost s0 = fishes@;
    let f = fishes[k];
    let mut sx: i128 = 0;
    let mut sy: i128 = 0;
    let mut sz: i128 = 0;
    let mut n: u64 = 0;
    let mut j: usize = 0;
    while j < fishes.len()
        invariant
            j <= s0.len(),
            fishes@ == s0,
            forall|p: int|
                0 <= p < s0.len() ==> (#[trigger] s0[p]).position.bounded(POS_LIMIT as int),
            sx == group_pos_sum(s0.take(j as int), id).0,
            sy == group_pos_sum(s0.take(j as int), id).1,
            sz == group_pos_sum(s0.take(j as int), id).2,
            n == group_size(s0.take(j as int), id),
            0 <= n <= j,
            iabs(sx as int) <= n * (POS_LIMIT as int),
            iabs(sy as int) <= n * (POS_LIMIT as int),
            iabs(sz as int) <= n * (POS_LIMIT as int),
        decreases s0.len() - j,
    {
        let g = fishes[j];
        proof {
            assert(s0.take(j as int + 1).drop_last() =~= s0.take(j as int));
            assert(s0.take(j as int + 1).last() == s0[j as int]);
            assert((n + 1) * (POS_LIMIT as int) == n * (POS_LIMIT as int) + POS_LIMIT as int)
                by (nonlinear_arith);
        }
        let member = match g.group_id {
            Some(gid) => g.cohesive && gid == id,
            None => false,
        };
        if member {
            sx = sx + g.position.x as i128;
            sy = sy + g.position.y as i128;
            sz = sz + g.position.z as i128;
            n = n + 1;
        }
        j = j + 1;
    }
    proof {
        assert(s0.take(s0.len() as int) =~= s0);
        lemma_group_member_size(s0, id, k as int);
        lemma_sdiv_in_range(sx as int, n as int, POS_LIMIT as int);
        lemma_sdiv_in_range(sy as int, n as int, POS_LIMIT as int);
        lemma_sdiv_in_range(sz as int, n as int, POS_LIMIT as int);
    }
    let cx = crate::vec3::div_trunc_i128(sx, n as i128);
    let cy = crate::vec3::div_trunc_i128(sy, n as i128);
    let cz = crate::vec3::div_trunc_i128(sz, n as i128);
    let dx: i128 = cx - f.position.x as i128;
    let dy: i128 = cy - f.position.y as i128;
    let dz: i128 = cz - f.position.z as i128;
    proof {
        crate::vec3::lemma_mul_bound(cfg.cohesion as int, dx as int, 1_000_000, 2 * POS_LIMIT as int);
        crate::vec3::lemma_mul_bound(cfg.cohesion as int, dy as int, 1_000_000, 2 * POS_LIMIT as int);
        crate::vec3::lemma_mul_bound(cfg.cohesion as int, dz as int, 1_000_000, 2 * POS_LIMIT as int);
        lemma_sdiv_in_range(cfg.cohesion as int * dx as int, MILLI as int, FORCE_LIMIT as int);
        lemma_sdiv_in_range(cfg.cohesion as int * dy as int, MILLI as int, FORCE_LIMIT as int);
        lemma_sdiv_in_range(cfg.cohesion as int * dz as int, MILLI as int, FORCE_LIMIT as int);
    }
    let fx = crate::vec3::div_trunc_i128((cfg.cohesion as i128) * dx, 1000);
    let fy = crate::vec3::div_trunc_i128((cfg.cohesion as i128) * dy, 1000);
    let fz = crate::vec3::div_trunc_i128((cfg.cohesion as i128) * dz, 1000);
    Vec3 { x: fx as i64, y: fy as i64, z: fz as i64 }
}

/// Store the pull toward each group's position centroid on every
/// grouped, cohesive agent; ungrouped agents receive no cohesion from
/// this pass.
pub fn cohesion_force_system(fishes: &mut Vec<Fish>, cfg: &SimConfig)
    requires
        cfg.wf(),
        forall|k: int|
            0 <= k < old(fishes)@.len() ==> (#[trigger] old(fishes)@[k]).position.bounded(
                POS_LIMIT as int,
            ),
    ensures
        final(fishes)@.len() == old(fishes)@.len(),
        forall|k: int|
            0 <= k < old(fishes)@.len() ==> #[trigger] final(fishes)@[k] == cohesion_force_spec(
                old(fishes)@,
                old(fishes)@[k],
                *cfg,
            ),
        forall|k: int|
            0 <= k < final(fishes)@.len() ==> (#[trigger] final(fishes)@[k]).cohesion_force
                == old(fishes)@[k].cohesion_force || final(fishes)@[k].cohesion_force.bounded(
                FORCE_LIMIT as int,
            ),
{
    let ghost s0 = fishes@;
    let mut forces: Vec<Vec3> = Vec::new();
    let mut k: usize = 0;
    while k < fishes.len()
        invariant
            k <= s0.len(),
            fishes@ == s0,
            cfg.wf(),
            forall|p: int|
                0 <= p < s0.len() ==> (#[trigger] s0[p]).position.bounded(POS_LIMIT as int),
            forces@.len() == k,
            forall|p: int|
                0 <= p < k ==> #[trigger] forces@[p] == cohesion_force_spec(
                    s0,
                    s0[p],
                    *cfg,
                ).cohesion_force,
            forall|p: int|
                0 <= p < k ==> #[trigger] forces@[p] == s0[p].cohesion_force || forces@[p].bounded(
                    FORCE_LIMIT as int,
                ),
        decreases s0.len() - k,
    {
        let f = fishes[k];
        let applicable = match f.group_id {
            Some(_) => f.cohesive,
            None => false,
        };
        if applicable {
            let id = match f.group_id {
                Some(id) => id,
                None => 0,
            };
            let val = cohesion_force_of(fishes, k, id, cfg);
            forces.push(val);
        } else {
            forces.push(f.cohesion_force);
        }
        k = k + 1;
    }
    k = 0;
    while k < fishes.len()
        invariant
            k <= s0.len(),
            fishes@.len() == s0.len(),
            forces@.len() == s0.len(),
            forall|p: int|
                0 <= p < s0.len() ==> #[trigger] forces@[p] == cohesion_force_spec(
                    s0,
                    s0[p],
                    *cfg,
                ).cohesion_force,
            forall|p: int|
                0 <= p < s0.len() ==> #[trigger] forces@[p] == s0[p].cohesion_force
                    || forces@[p].bounded(FORCE_LIMIT as int),
            forall|p: int|
                0 <= p < k ==> #[trigger] fishes@[p] == cohesion_force_spec(s0, s0[p], *cfg),
            forall|p: int|
                0 <= p < k ==> (#[trigger] fishes@[p]).cohesion_force == s0[p].cohesion_force
                    || fishes@[p].cohesion_force.bounded(FORCE_LIMIT as int),
            forall|p: int| k <= p < s0.len() ==> #[trigger] fishes@[p] == s0[p],
        decreases s0.len() - k,
    {
        let mut f = fishes[k];
        f.cohesion_force = forces[k];
        fishes[k] = f;
        k = k + 1;
    }
}


/// Membership in a group's alignment aggregate: an aligning agent
/// holding that group id.
pub open spec fn alignment_member(f: Fish, id: u64) -> bool {
    f.alignment && f.group_id == Some(id)
}

/// Sum of the velocities of a group's alignment members, per coordinate.
pub open spec fn group_vel_sum(s: Seq<Fish>, id: u64) -> (int, int, int)
    decreases s.len(),
{
    if s.len() == 0 {
        (0, 0, 0)
    } else {
        let rest = group_vel_sum(s.drop_last(), id);
        if alignment_member(s.last(), id) {
            (
                rest.0 + s.last().velocity.x,
                rest.1 + s.last().velocity.y,
                rest.2 + s.last().velocity.z,
            )
        } else {
            rest
        }
    }
}

/// How many alignment members a group has.
pub open spec fn align_size(s: Seq<Fish>, id: u64) -> int
    decreases s.len(),
{
    if s.len() == 0 {
        0
    } else {
        align_size(s.drop_last(), id) + if alignment_member(s.last(), id) {
            1int
        } else {
            0int
        }
    }
}

/// What the alignment system stores for one agent: a steer along the
/// group's mean velocity, `alignment * mean_velocity` in milli
/// fixed-point; an ungrouped or non-aligning agent keeps its stored
/// force.
pub open spec fn alignment_force_spec(s: Seq<Fish>, f: Fish, cfg: SimConfig) -> Fish {
    match f.group_id {
        Some(id) => if f.alignment {
            let sum = group_vel_sum(s, id);
            let n = align_size(s, id);
            Fish {
                alignment_force: Vec3 {
                    x: sdiv(cfg.alignment * sdiv(sum.0, n), MILLI as int) as i64,
                    y: sdiv(cfg.alignment * sdiv(sum.1, n), MILLI as int) as i64,
                    z: sdiv(cfg.alignment * sdiv(sum.2, n), MILLI as int) as i64,
                },
                ..f
            }
        } else {
            f
        },
        None => f,
    }
}

proof fn lemma_align_member_size(s: Seq<Fish>, id: u64, k: int)
    requires
        0 <= k < s.len(),
        alignment_member(s[k], id),
    ensures
        align_size(s, id) >= 1,
    decreases s.len(),
{
    lemma_align_size_nonneg(s.drop_last(), id);
    if k == s.len() - 1 {
        assert(s.last() == s[k]);
    } else {
        assert(s.drop_last()[k] == s[k]);
        lemma_align_member_size(s.drop_last(), id, k);
    }
}

proof fn lemma_align_size_nonneg(s: Seq<Fish>, id: u64)
    ensures
        align_size(s, id) >= 0,
    decreases s.len(),
{
    if s.len() > 0 {
        lemma_align_size_nonneg(s.drop_last(), id);
    }
}

/// Compute one grouped, aligning agent's steer along its group's mean
/// velocity.
fn alignment_force_of(fishes: &Vec<Fish>, k: usize, id: u64, cfg: &SimConfig) -> (r: Vec3)
    requires
        cfg.wf(),
        k < fishes@.len(),
        alignment_member(fishes@[k as int], id),
        forall|p: int|
            0 <= p < fishes@.len() ==> (#[trigger] fishes@[p]).velocity.bounded(POS_LIMIT as int),
    ensures
        r == alignment_force_spec(fishes@, fishes@[k as int], *cfg).alignment_force,
        r.bounded(FORCE_LIMIT as int),
{
    let ghost s0 = fishes@;
    let mut sx: i128 = 0;
    let mut sy: i128 = 0;
    let mut sz: i128 = 0;
    let mut n: u64 = 0;
    let mut j: usize = 0;
    while j < fishes.len()
        invariant
            j <= s0.len(),
            fishes@ == s0,
            forall|p: int|
                0 <= p < s0.len() ==> (#[trigger] s0[p]).velocity.bounded(POS_LIMIT as int),
            sx == group_vel_sum(s0.take(j as int), id).0,
            sy == group_vel_sum(s0.take(j as int), id).1,
            sz == group_vel_sum(s0.take(j as int), id).2,
            n == align_size(s0.take(j as int), id),
            0 <= n <= j,
            iabs(sx as int) <= n * (POS_LIMIT as int),
            iabs(sy as int) <= n * (POS_LIMIT as int),
            iabs(sz as int) <= n * (POS_LIMIT as int),
        decreases s0.len() - j,
    {
        let g = fishes[j];
        proof {
            assert(s0.take(j as int + 1).drop_last() =~= s0.take(j as int));
            assert(s0.take(j as int + 1).last() == s0[j as int]);
            assert((n + 1) * (POS_LIMIT as int) == n * (POS_LIMIT as int) + POS_LIMIT as int)
                by (nonlinear_arith);
        }
        let member = match g.group_id {
            Some(gid) => g.alignment && gid == id,
            None => false,
        };
        if member {
            sx = sx + g.velocity.x as i128;
            sy = sy + g.velocity.y as i128;
            sz = sz + g.velocity.z as i128;
            n = n + 1;
        }
        j = j + 1;
    }
    proof {
        assert(s0.take(s0.len() as int) =~= s0);
        lemma_align_member_size(s0, id, k as int);
        lemma_sdiv_in_range(sx as int, n as int, POS_LIMIT as int);
        lemma_sdiv_in_range(sy as int, n as int, POS_LIMIT as int);
        lemma_sdiv_in_range(sz as int, n as int, POS_LIMIT as int);
    }
    let cx = crate::vec3::div_trunc_i128(sx, n as i128);
    let cy = crate::vec3::div_trunc_i128(sy, n as i128);
    let cz = crate::vec3::div_trunc_i128(sz, n as i128);
    proof {
        crate::vec3::lemma_mul_bound(cfg.alignment as int, cx as int, 1_000_000, POS_LIMIT as int);
        crate::vec3::lemma_mul_bound(cfg.alignment as int, cy as int, 1_000_000, POS_LIMIT as int);
        crate::vec3::lemma_mul_bound(cfg.alignment as int, cz as int, 1_000_000, POS_LIMIT as int);
        lemma_sdiv_in_range(cfg.alignment as int * cx as int, MILLI as int, FORCE_LIMIT as int);
        lemma_sdiv_in_range(cfg.alignment as int * cy as int, MILLI as int, FORCE_LIMIT as int);
        lemma_sdiv_in_range(cfg.alignment as int * cz as int, MILLI as int, FORCE_LIMIT as int);
    }
    let fx = crate::vec3::div_trunc_i128((cfg.alignment as i128) * cx, 1000);
    let fy = crate::vec3::div_trunc_i128((cfg.alignment as i128) * cy, 1000);
    let fz = crate::vec3::div_trunc_i128((cfg.alignment as i128) * cz, 1000);
    Vec3 { x: fx as i64, y: fy as i64, z: fz as i64 }
}

/// Store the steer toward each group's mean velocity on every grouped,
/// aligning agent.
pub fn alignment_force_system(fishes: &mut Vec<Fish>, cfg: &SimConfig)
    requires
        cfg.wf(),
        forall|k: int|
            0 <= k < old(fishes)@.len() ==> (#[trigger] old(fishes)@[k]).velocity.bounded(
                POS_LIMIT as int,
            ),
    ensures
        final(fishes)@.len() == old(fishes)@.len(),
        forall|k: int|
            0 <= k < old(fishes)@.len() ==> #[trigger] final(fishes)@[k] == alignment_force_spec(
                old(fishes)@,
                old(fishes)@[k],
                *cfg,
            ),
        forall|k: int|
            0 <= k < final(fishes)@.len() ==> (#[trigger] final(fishes)@[k]).alignment_force
                == old(fishes)@[k].alignment_force || final(fishes)@[k].alignment_force.bounded(
                FORCE_LIMIT as int,
            ),
{
    let ghost s0 = fishes@;
    let mut forces: Vec<Vec3> = Vec::new();
    let mut k: usize = 0;
    while k < fishes.len()
        invariant
            k <= s0.len(),
            fishes@ == s0,
            cfg.wf(),
            forall|p: int|
                0 <= p < s0.len() ==> (#[trigger] s0[p]).velocity.bounded(POS_LIMIT as int),
            forces@.len() == k,
            forall|p: int|
                0 <= p < k ==> #[trigger] forces@[p] == alignment_force_spec(
                    s0,
                    s0[p],
                    *cfg,
                ).alignment_force,
            forall|p: int|
                0 <= p < k ==> #[trigger] forces@[p] == s0[p].alignment_force || forces@[p].bounded(
                    FORCE_LIMIT as int,
                ),
        decreases s0.len() - k,
    {
        let f = fishes[k];
        let applicable = match f.group_id {
            Some(_) => f.alignment,
            None => false,
        };
        if applicable {
            let id = match f.group_id {
                Some(id) => id,
                None => 0,
            };
            let val = alignment_force_of(fishes, k, id, cfg);
            forces.push(val);
        } else {
            forces.push(f.alignment_force);
        }
        k = k + 1;
    }
    k = 0;
    while k < fishes.len()
        invariant
            k <= s0.len(),
            fishes@.len() == s0.len(),
            forces@.len() == s0.len(),
            forall|p: int|
                0 <= p < s0.len() ==> #[trigger] forces@[p] == alignment_force_spec(
                    s0,
                    s0[p],
                    *cfg,
                ).alignment_force,
            forall|p: int|
                0 <= p < s0.len() ==> #[trigger] forces@[p] == s0[p].alignment_force
                    || forces@[p].bounded(FORCE_LIMIT as int),
            forall|p: int|
                0 <= p < k ==> #[trigger] fishes@[p] == alignment_force_spec(s0, s0[p], *cfg),
            forall|p: int|
                0 <= p < k ==> (#[trigger] fishes@[p]).alignment_force == s0[p].alignment_force
                    || fishes@[p].alignment_force.bounded(FORCE_LIMIT as int),
            forall|p: int| k <= p < s0.len() ==> #[trigger] fishes@[p] == s0[p],
        decreases s0.len() - k,
    {
        let mut f = fishes[k];
        f.alignment_force = forces[k];
        fishes[k] = f;
        k = k + 1;
    }
}


/// Largest coordinate one separation impulse can reach under the
/// configuration limits.
pub const SEP_IMPULSE_LIMIT: i64 = 32_000_000_000_000;

/// An agent takes part in separation when it is grouped and carries the
/// separation capability.
pub open spec fn sep_member(f: Fish) -> bool {
    f.separation && f.group_id is Some
}

/// The separation impulse agent `b` exerts on agent `a`: an inverse-cube
/// repulsion along `a - b`, `separation * radius^3 / distance^3` scaled
/// by the offset, zero for coinciding positions and for pairs outside
/// the separation pass.
pub open spec fn sep_impulse(a: Fish, b: Fish, cfg: SimConfig) -> (int, int, int) {
    let dx = a.position.x - b.position.x;
    let dy = a.position.y - b.position.y;
    let dz = a.position.z - b.position.z;
    let d2 = crate::vec3::norm2(dx, dy, dz);
    if sep_member(a) && sep_member(b) && d2 > 0 {
        let d = crate::vec3::sqrt_floor(d2);
        let num = cfg.separation * cfg.separation_radius * cfg.separation_radius
            * cfg.separation_radius;
        let den = 1000 * (d * (d * d));
        (sdiv(num * dx, den), sdiv(num * dy, den), sdiv(num * dz, den))
    } else {
        (0, 0, 0)
    }
}

/// Newton's third law, exactly: the separation impulse one agent exerts
/// on another is the exact negation of the reverse impulse.
pub proof fn lemma_separation_antisymmetric(a: Fish, b: Fish, cfg: SimConfig)
    ensures
        sep_impulse(a, b, cfg).0 == -sep_impulse(b, a, cfg).0,
        sep_impulse(a, b, cfg).1 == -sep_impulse(b, a, cfg).1,
        sep_impulse(a, b, cfg).2 == -sep_impulse(b, a, cfg).2,
{
    let dx = a.position.x - b.position.x;
    let dy = a.position.y - b.position.y;
    let dz = a.position.z - b.position.z;
    assert(crate::vec3::norm2(-dx, -dy, -dz) == crate::vec3::norm2(dx, dy, dz))
        by (nonlinear_arith);
    let num = cfg.separation * cfg.separation_radius * cfg.separation_radius
        * cfg.separation_radius;
    assert(num * -dx == -(num * dx) && num * -dy == -(num * dy) && num * -dz == -(num * dz))
        by (nonlinear_arith);
    let d2 = crate::vec3::norm2(dx, dy, dz);
    if sep_member(a) && sep_member(b) && d2 > 0 {
        let d = crate::vec3::sqrt_floor(d2);
        let den = 1000 * (d * (d * d));
        crate::vec3::lemma_sqrt_floor(d2);
        assert(den >= 1) by (nonlinear_arith)
            requires
                d >= 0,
                d2 >= 1,
                d2 < (d + 1) * (d + 1),
                den == 1000 * (d * (d * d)),
        ;
        lemma_sdiv_neg(num * dx, den);
        lemma_sdiv_neg(num * dy, den);
        lemma_sdiv_neg(num * dz, den);
    }
}

proof fn lemma_sdiv_neg(a: int, b: int)
    requires
        b >= 1,
    ensures
        sdiv(-a, b) == -sdiv(a, b),
{
    if a == 0 {
        vstd::arithmetic::div_mod::lemma_div_of0(b);
    }
}

/// Compute one agent's separation force: the sum of the impulses every
/// other agent exerts on it, taken over the agents before index `j`.
pub open spec fn sep_sum_upto(s: Seq<Fish>, cfg: SimConfig, k: int, j: int) -> (int, int, int)
    decreases j,
{
    if j <= 0 {
        (0, 0, 0)
    } else {
        let rest = sep_sum_upto(s, cfg, k, j - 1);
        if j - 1 != k {
            let im = sep_impulse(s[k], s[j - 1], cfg);
            (rest.0 + im.0, rest.1 + im.1, rest.2 + im.2)
        } else {
            rest
        }
    }
}

/// What the separation pass stores for one agent: its force is reset and
/// re-accumulated from scratch each tick, so an agent with no in-range
/// partners (or no group) ends the pass with the zero force.
pub open spec fn separation_force_spec(s: Seq<Fish>, k: int, cfg: SimConfig) -> Fish {
    if s[k].separation {
        let sum = sep_sum_upto(s, cfg, k, s.len() as int);
        Fish {
            separation_force: Vec3 { x: sum.0 as i64, y: sum.1 as i64, z: sum.2 as i64 },
            ..s[k]
        }
    } else {
        s[k]
    }
}

/// One separation impulse stays under `SEP_IMPULSE_LIMIT` per
/// coordinate.
proof fn lemma_sep_impulse_bound(a: Fish, b: Fish, cfg: SimConfig)
    requires
        cfg.wf(),
    ensures
        iabs(sep_impulse(a, b, cfg).0) <= SEP_IMPULSE_LIMIT as int,
        iabs(sep_impulse(a, b, cfg).1) <= SEP_IMPULSE_LIMIT as int,
        iabs(sep_impulse(a, b, cfg).2) <= SEP_IMPULSE_LIMIT as int,
{
    let dx = a.position.x - b.position.x;
    let dy = a.position.y - b.position.y;
    let dz = a.position.z - b.position.z;
    let d2 = crate::vec3::norm2(dx, dy, dz);
    if sep_member(a) && sep_member(b) && d2 > 0 {
        let d = crate::vec3::sqrt_floor(d2);
        let num = cfg.separation * cfg.separation_radius * cfg.separation_radius
            * cfg.separation_radius;
        let den = 1000 * (d * (d * d));
        crate::vec3::lemma_sqrt_floor(d2);
        assert(d >= 1) by (nonlinear_arith)
            requires
                d >= 0,
                d2 >= 1,
                d2 < (d + 1) * (d + 1),
        ;
        assert(num >= 0) by (nonlinear_arith)
            requires
                cfg.separation >= 0,
                cfg.separation_radius >= 1,
                num == cfg.separation * cfg.separation_radius * cfg.separation_radius
                    * cfg.separation_radius,
        ;
        assert(dx * dx >= 0 && dy * dy >= 0 && dz * dz >= 0) by (nonlinear_arith);
        lemma_sep_coord_bound(dx, d, d2, num);
        lemma_sep_coord_bound(dy, d, d2, num);
        lemma_sep_coord_bound(dz, d, d2, num);
    }
}

/// For `|c| <= d` the quotient `num * c / (1000 d^3)` is at most
/// `num / 1000`.
proof fn lemma_sep_coord_bound(c: int, d: int, d2: int, num: int)
    requires
        d >= 1,
        0 <= num <= 32_000_000_000_000_000,
        c * c <= d2,
        d2 < (d + 1) * (d + 1),
    ensures
        iabs(sdiv(num * c, 1000 * (d * (d * d)))) <= 32_000_000_000_000,
{
    let den = 1000 * (d * (d * d));
    assert(iabs(c) <= d) by (nonlinear_arith)
        requires
            d >= 1,
            c * c <= d2,
            d2 < (d + 1) * (d + 1),
            iabs(c) == if c >= 0 { c } else { -c },
    ;
    assert(iabs(num * c) == num * iabs(c)) by (nonlinear_arith)
        requires
            num >= 0,
            iabs(c) == if c >= 0 { c } else { -c },
            iabs(num * c) == if num * c >= 0 { num * c } else { -(num * c) },
    ;
    assert(den >= 1 && iabs(num * c) <= den * 32_000_000_000_000) by (nonlinear_arith)
        requires
            d >= 1,
            0 <= num <= 32_000_000_000_000_000,
            iabs(c) <= d,
            den == 1000 * (d * (d * d)),
            iabs(num * c) == num * iabs(c),
    ;
    lemma_sdiv_in_range(num * c, den, 32_000_000_000_000);
}


/// Compute the separation impulse of one ordered pair of agents.
fn sep_impulse_exec(a: &Fish, b: &Fish, cfg: &SimConfig) -> (r: Vec3)
    requires
        cfg.wf(),
        a.position.bounded(POS_LIMIT as int),
        b.position.bounded(POS_LIMIT as int),
    ensures
        r.x == sep_impulse(*a, *b, *cfg).0,
        r.y == sep_impulse(*a, *b, *cfg).1,
        r.z == sep_impulse(*a, *b, *cfg).2,
        r.bounded(SEP_IMPULSE_LIMIT as int),
{
    let a_member = a.separation && a.group_id.is_some();
    let b_member = b.separation && b.group_id.is_some();
    if !(a_member && b_member) {
        return Vec3 { x: 0, y: 0, z: 0 };
    }
    let dx: i128 = (a.position.x as i128) - (b.position.x as i128);
    let dy: i128 = (a.position.y as i128) - (b.position.y as i128);
    let dz: i128 = (a.position.z as i128) - (b.position.z as i128);
    proof {
        crate::vec3::lemma_sq_bound(dx as int, 2 * POS_LIMIT as int);
        crate::vec3::lemma_sq_bound(dy as int, 2 * POS_LIMIT as int);
        crate::vec3::lemma_sq_bound(dz as int, 2 * POS_LIMIT as int);
    }
    let d2: i128 = dx * dx + dy * dy + dz * dz;
    if d2 == 0 {
        return Vec3 { x: 0, y: 0, z: 0 };
    }
    let s = crate::vec3::isqrt_u128(d2 as u128);
    assert(s < 0x1_0000_0000_0000) by (nonlinear_arith)
        requires
            s * s <= d2 as u128,
            (d2 as u128) <= 12_000_000_000_000_000_000_000_000,
    ;
    let d: i128 = s as i128;
    proof {
        assert(d >= 1) by (nonlinear_arith)
            requires
                d >= 0,
                (d2 as int) >= 1,
                (d2 as int) < (d + 1) * (d + 1),
        ;
    }
    proof {
        crate::vec3::lemma_mul_bound(cfg.separation as int, cfg.separation_radius as int, 1_000_000, 1_000_000);
        crate::vec3::lemma_mul_bound(cfg.separation as int * cfg.separation_radius as int, cfg.separation_radius as int, 1_000_000_000_000, 1_000_000);
        crate::vec3::lemma_mul_bound(cfg.separation as int * cfg.separation_radius as int * cfg.separation_radius as int, cfg.separation_radius as int, 1_000_000_000_000_000_000, 1_000_000);
    }
    let num: i128 = ((cfg.separation as i128) * (cfg.separation_radius as i128)
        * (cfg.separation_radius as i128)) * (cfg.separation_radius as i128);
    assert(num == cfg.separation * cfg.separation_radius * cfg.separation_radius
        * cfg.separation_radius);
    assert(0 <= num <= 32_000_000_000_000_000) by (nonlinear_arith)
        requires
            cfg.separation >= 0,
            cfg.separation_radius >= 1,
            cfg.separation * cfg.separation_radius * cfg.separation_radius
                * cfg.separation_radius <= 32_000_000_000_000_000,
            num == cfg.separation * cfg.separation_radius * cfg.separation_radius
                * cfg.separation_radius,
    ;
    proof {
        assert(d * d <= 12_000_000_000_000_000_000_000_000) by (nonlinear_arith)
            requires
                1 <= d,
                d < 0x1_0000_0000_0000,
                d * d <= d2 as int,
                (d2 as int) <= 12_000_000_000_000_000_000_000_000,
        ;
    }
    let t: i128 = 1000 * (d * d);
    if t > num {
        proof {
            lemma_sep_far_zero(dx as int, d as int, d2 as int, num as int);
            lemma_sep_far_zero(dy as int, d as int, d2 as int, num as int);
            lemma_sep_far_zero(dz as int, d as int, d2 as int, num as int);
        }
        return Vec3 { x: 0, y: 0, z: 0 };
    }
    proof {
        assert(1 <= d <= 6_000_000) by (nonlinear_arith)
            requires
                d >= 1,
                1000 * (d * d) <= num,
                num <= 32_000_000_000_000_000,
        ;
        assert(1 <= d * (d * d) <= 216_000_000_000_000_000_000) by (nonlinear_arith)
            requires
                1 <= d <= 6_000_000,
        ;
    }
    let den: i128 = 1000 * (d * (d * d));
    proof {
        assert(dx * dx >= 0 && dy * dy >= 0 && dz * dz >= 0) by (nonlinear_arith);
        lemma_sep_coord_bound(dx as int, d as int, d2 as int, num as int);
        lemma_sep_coord_bound(dy as int, d as int, d2 as int, num as int);
        lemma_sep_coord_bound(dz as int, d as int, d2 as int, num as int);
        crate::vec3::lemma_mul_bound(num as int, dx as int, 32_000_000_000_000_000, 2 * POS_LIMIT as int);
        crate::vec3::lemma_mul_bound(num as int, dy as int, 32_000_000_000_000_000, 2 * POS_LIMIT as int);
        crate::vec3::lemma_mul_bound(num as int, dz as int, 32_000_000_000_000_000, 2 * POS_LIMIT as int);
    }
    let rx = crate::vec3::div_trunc_i128(num * dx, den);
    let ry = crate::vec3::div_trunc_i128(num * dy, den);
    let rz = crate::vec3::div_trunc_i128(num * dz, den);
    Vec3 { x: rx as i64, y: ry as i64, z: rz as i64 }
}

/// Beyond the reach of the inverse-cube force the impulse truncates to
/// zero.
proof fn lemma_sep_far_zero(c: int, d: int, d2: int, num: int)
    requires
        d >= 1,
        num >= 0,
        c * c <= d2,
        d2 < (d + 1) * (d + 1),
        1000 * (d * d) > num,
    ensures
        sdiv(num * c, 1000 * (d * (d * d))) == 0,
{
    let den = 1000 * (d * (d * d));
    assert(iabs(c) <= d) by (nonlinear_arith)
        requires
            d >= 1,
            c * c <= d2,
            d2 < (d + 1) * (d + 1),
            iabs(c) == if c >= 0 { c } else { -c },
    ;
    assert(iabs(num * c) == num * iabs(c)) by (nonlinear_arith)
        requires
            num >= 0,
            iabs(c) == if c >= 0 { c } else { -c },
            iabs(num * c) == if num * c >= 0 { num * c } else { -(num * c) },
    ;
    assert(den >= 1 && iabs(num * c) < den) by (nonlinear_arith)
        requires
            d >= 1,
            num >= 0,
            iabs(c) <= d,
            1000 * (d * d) > num,
            den == 1000 * (d * (d * d)),
            iabs(num * c) == num * iabs(c),
    ;
    crate::vec3::lemma_small_sdiv(num * c, den);
}

/// The separation pass: reset and re-accumulate every separating agent's
/// repulsion from all its grouped peers; a pair's two impulses are exact
/// negations of each other, so the pass adds no net momentum.
pub fn separation_force_system(fishes: &mut Vec<Fish>, cfg: &SimConfig)
    requires
        cfg.wf(),
        old(fishes)@.len() <= AGENT_LIMIT,
        forall|k: int|
            0 <= k < old(fishes)@.len() ==> (#[trigger] old(fishes)@[k]).position.bounded(
                POS_LIMIT as int,
            ),
    ensures
        final(fishes)@.len() == old(fishes)@.len(),
        forall|k: int|
            0 <= k < old(fishes)@.len() ==> #[trigger] final(fishes)@[k] == separation_force_spec(
                old(fishes)@,
                k,
                *cfg,
            ),
        forall|k: int|
            0 <= k < final(fishes)@.len() ==> (#[trigger] final(fishes)@[k]).separation_force
                == old(fishes)@[k].separation_force || final(fishes)@[k].separation_force.bounded(
                FORCE_LIMIT as int,
            ),
{
    let ghost s0 = fishes@;
    let mut forces: Vec<Vec3> = Vec::new();
    let mut k: usize = 0;
    while k < fishes.len()
        invariant
            k <= s0.len(),
            fishes@ == s0,
            cfg.wf(),
            s0.len() <= AGENT_LIMIT,
            forall|p: int|
                0 <= p < s0.len() ==> (#[trigger] s0[p]).position.bounded(POS_LIMIT as int),
            forces@.len() == k,
            forall|p: int|
                0 <= p < k ==> #[trigger] forces@[p] == separation_force_spec(
                    s0,
                    p,
                    *cfg,
                ).separation_force,
            forall|p: int|
                0 <= p < k ==> #[trigger] forces@[p] == s0[p].separation_force || forces@[p].bounded(
                    FORCE_LIMIT as int,
                ),
        decreases s0.len() - k,
    {
        let f = fishes[k];
        if f.separation {
            let mut ax: i128 = 0;
            let mut ay: i128 = 0;
            let mut az: i128 = 0;
            let mut j: usize = 0;
            while j < fishes.len()
                invariant
                    j <= s0.len(),
                    k < s0.len(),
                    fishes@ == s0,
                    cfg.wf(),
                    s0.len() <= AGENT_LIMIT,
                    forall|p: int|
                        0 <= p < s0.len() ==> (#[trigger] s0[p]).position.bounded(POS_LIMIT as int),
                    ax == sep_sum_upto(s0, *cfg, k as int, j as int).0,
                    ay == sep_sum_upto(s0, *cfg, k as int, j as int).1,
                    az == sep_sum_upto(s0, *cfg, k as int, j as int).2,
                    iabs(ax as int) <= j * (SEP_IMPULSE_LIMIT as int),
                    iabs(ay as int) <= j * (SEP_IMPULSE_LIMIT as int),
                    iabs(az as int) <= j * (SEP_IMPULSE_LIMIT as int),
                decreases s0.len() - j,
            {
                proof {
                    assert((j + 1) * (SEP_IMPULSE_LIMIT as int) == j * (SEP_IMPULSE_LIMIT as int)
                        + SEP_IMPULSE_LIMIT as int) by (nonlinear_arith);
                }
                if j != k {
                    let fk = fishes[k];
                    let fj = fishes[j];
                    let im = sep_impulse_exec(&fk, &fj, cfg);
                    ax = ax + im.x as i128;
                    ay = ay + im.y as i128;
                    az = az + im.z as i128;
                }
                j = j + 1;
            }
            proof {
                assert(s0.len() * (SEP_IMPULSE_LIMIT as int) <= AGENT_LIMIT * (
                SEP_IMPULSE_LIMIT as int)) by (nonlinear_arith)
                    requires
                        s0.len() <= AGENT_LIMIT,
                ;
            }
            let val = Vec3 { x: ax as i64, y: ay as i64, z: az as i64 };
            forces.push(val);
        } else {
            forces.push(f.separation_force);
        }
        k = k + 1;
    }
    k = 0;
    while k < fishes.len()
        invariant
            k <= s0.len(),
            fishes@.len() == s0.len(),
            forces@.len() == s0.len(),
            forall|p: int|
                0 <= p < s0.len() ==> #[trigger] forces@[p] == separation_force_spec(
                    s0,
                    p,
                    *cfg,
                ).separation_force,
            forall|p: int|
                0 <= p < s0.len() ==> #[trigger] forces@[p] == s0[p].separation_force
                    || forces@[p].bounded(FORCE_LIMIT as int),
            forall|p: int|
                0 <= p < k ==> #[trigger] fishes@[p] == separation_force_spec(s0, p, *cfg),
            forall|p: int|
                0 <= p < k ==> (#[trigger] fishes@[p]).separation_force == s0[p].separation_force
                    || fishes@[p].separation_force.bounded(FORCE_LIMIT as int),
            forall|p: int| k <= p < s0.len() ==> #[trigger] fishes@[p] == s0[p],
        decreases s0.len() - k,
    {
        let mut f = fishes[k];
        f.separation_force = forces[k];
        fishes[k] = f;
        k = k + 1;
    }
}


/// What the wander pass may store for one agent: an ungrouped wandering
/// agent receives `wander * magnitude * direction` for some freshly
/// drawn magnitude in [0, 1] and some direction in the z = 0 plane of
/// roughly unit length; every other agent is untouched.
pub open spec fn wander_outcome(f: Fish, g: Fish, cfg: SimConfig) -> bool {
    if f.wander && f.group_id is None {
        exists|m: int, dx: int, dy: int|
            #![trigger sdiv(cfg.wander * m * dx, 1_000_000), sdiv(cfg.wander * m * dy, 1_000_000)]
            0 <= m <= 1000 && 120_000 <= dx * dx + dy * dy <= 1_000_000 && g == (Fish {
                wander_force: Vec3 {
                    x: sdiv(cfg.wander * m * dx, 1_000_000) as i64,
                    y: sdiv(cfg.wander * m * dy, 1_000_000) as i64,
                    z: 0,
                },
                ..f
            })
    } else {
        g == f
    }
}

/// Store a fresh exploratory force on every ungrouped wandering agent,
/// letting isolated agents drift until they meet a group. Each agent
/// draws its own independent magnitude and direction.
pub fn wander_force_system(fishes: &mut Vec<Fish>, cfg: &SimConfig)
    requires
        cfg.wf(),
    ensures
        final(fishes)@.len() == old(fishes)@.len(),
        forall|k: int|
            0 <= k < old(fishes)@.len() ==> wander_outcome(
                #[trigger] old(fishes)@[k],
                final(fishes)@[k],
                *cfg,
            ),
        forall|k: int|
            0 <= k < final(fishes)@.len() ==> (#[trigger] final(fishes)@[k]).wander_force
                == old(fishes)@[k].wander_force || final(fishes)@[k].wander_force.bounded(
                FORCE_LIMIT as int,
            ),
{
    let ghost s0 = fishes@;
    let mut k: usize = 0;
    while k < fishes.len()
        invariant
            k <= s0.len(),
            fishes@.len() == s0.len(),
            cfg.wf(),
            forall|p: int|
                0 <= p < k ==> wander_outcome(#[trigger] s0[p], fishes@[p], *cfg),
            forall|p: int|
                0 <= p < k ==> (#[trigger] fishes@[p]).wander_force == s0[p].wander_force
                    || fishes@[p].wander_force.bounded(FORCE_LIMIT as int),
            forall|p: int| k <= p < s0.len() ==> #[trigger] fishes@[p] == s0[p],
        decreases s0.len() - k,
    {
        let f = fishes[k];
        if f.wander && f.group_id.is_none() {
            let m = crate::random::random_unit_milli();
            let dir = crate::random::random_direction();
            proof {
                crate::vec3::lemma_mul_bound(cfg.wander as int, m as int, 1_000_000, 1000);
                crate::vec3::lemma_mul_bound(cfg.wander as int * m as int, dir.x as int, 1_000_000_000, 1000);
                crate::vec3::lemma_mul_bound(cfg.wander as int * m as int, dir.y as int, 1_000_000_000, 1000);
                lemma_sdiv_in_range(cfg.wander as int * m as int * dir.x as int, 1_000_000, 1_000_000);
                lemma_sdiv_in_range(cfg.wander as int * m as int * dir.y as int, 1_000_000, 1_000_000);
            }
            let wx = crate::vec3::div_trunc_i128(
                ((cfg.wander as i128) * (m as i128)) * (dir.x as i128),
                1_000_000,
            );
            let wy = crate::vec3::div_trunc_i128(
                ((cfg.wander as i128) * (m as i128)) * (dir.y as i128),
                1_000_000,
            );
            let mut nf = f;
            nf.wander_force = Vec3 { x: wx as i64, y: wy as i64, z: 0 };
            fishes[k] = nf;
            proof {
                let m0 = m as int;
                let dx0 = dir.x as int;
                let dy0 = dir.y as int;
                assert(dx0 * dx0 + dy0 * dy0 == dir.len2()) by (nonlinear_arith)
                    requires
                        dir.z == 0,
                        dir.len2() == dir.x as int * dir.x as int + dir.y as int * dir.y as int
                            + dir.z as int * dir.z as int,
                        dx0 == dir.x as int,
                        dy0 == dir.y as int,
                ;
                assert(0 <= m0 <= 1000 && 120_000 <= dx0 * dx0 + dy0 * dy0 <= 1_000_000
                    && fishes@[k as int] == (Fish {
                    wander_force: Vec3 {
                        x: sdiv(cfg.wander * m0 * dx0, 1_000_000) as i64,
                        y: sdiv(cfg.wander * m0 * dy0, 1_000_000) as i64,
                        z: 0,
                    },
                    ..f
                }));
                assert(wander_outcome(s0[k as int], fishes@[k as int], *cfg));
            }
        }
        k = k + 1;
    }
}


/// Sum of the first `j` agents' accumulated separation forces, each
/// taken over partners below `n`.
pub open spec fn sep_total_upto(s: Seq<Fish>, cfg: SimConfig, n: int, j: int) -> (int, int, int)
    decreases j,
{
    if j <= 0 {
        (0, 0, 0)
    } else {
        let rest = sep_total_upto(s, cfg, n, j - 1);
        let row = sep_sum_upto(s, cfg, j - 1, n);
        (rest.0 + row.0, rest.1 + row.1, rest.2 + row.2)
    }
}

/// Sum of the impulses the first `j` agents receive from agent `n`.
spec fn sep_col_sum(s: Seq<Fish>, cfg: SimConfig, n: int, j: int) -> (int, int, int)
    decreases j,
{
    if j <= 0 {
        (0, 0, 0)
    } else {
        let rest = sep_col_sum(s, cfg, n, j - 1);
        let im = sep_impulse(s[j - 1], s[n], cfg);
        (rest.0 + im.0, rest.1 + im.1, rest.2 + im.2)
    }
}

proof fn lemma_sep_expand_rows(s: Seq<Fish>, cfg: SimConfig, n: int, j: int)
    requires
        0 <= j <= n,
    ensures
        sep_total_upto(s, cfg, n + 1, j).0 == sep_total_upto(s, cfg, n, j).0 + sep_col_sum(
            s,
            cfg,
            n,
            j,
        ).0,
        sep_total_upto(s, cfg, n + 1, j).1 == sep_total_upto(s, cfg, n, j).1 + sep_col_sum(
            s,
            cfg,
            n,
            j,
        ).1,
        sep_total_upto(s, cfg, n + 1, j).2 == sep_total_upto(s, cfg, n, j).2 + sep_col_sum(
            s,
            cfg,
            n,
            j,
        ).2,
    decreases j,
{
    if j > 0 {
        lemma_sep_expand_rows(s, cfg, n, j - 1);
    }
}

proof fn lemma_sep_col_antisym(s: Seq<Fish>, cfg: SimConfig, n: int, j: int)
    requires
        0 <= j <= n,
    ensures
        sep_col_sum(s, cfg, n, j).0 == -sep_sum_upto(s, cfg, n, j).0,
        sep_col_sum(s, cfg, n, j).1 == -sep_sum_upto(s, cfg, n, j).1,
        sep_col_sum(s, cfg, n, j).2 == -sep_sum_upto(s, cfg, n, j).2,
    decreases j,
{
    if j > 0 {
        lemma_sep_col_antisym(s, cfg, n, j - 1);
        lemma_separation_antisymmetric(s[j - 1], s[n], cfg);
    }
}

/// Newton's third law summed over the whole pass: the separation forces
/// the pass accumulates over the first `n` agents add up to the zero
/// vector, for every agent set and configuration.
pub proof fn lemma_separation_net_zero(s: Seq<Fish>, cfg: SimConfig, n: int)
    requires
        0 <= n <= s.len(),
    ensures
        sep_total_upto(s, cfg, n, n).0 == 0,
        sep_total_upto(s, cfg, n, n).1 == 0,
        sep_total_upto(s, cfg, n, n).2 == 0,
    decreases n,
{
    if n > 0 {
        lemma_separation_net_zero(s, cfg, n - 1);
        lemma_sep_expand_rows(s, cfg, n - 1, n - 1);
        lemma_sep_col_antisym(s, cfg, n - 1, n - 1);
    }
}

} // verus!
