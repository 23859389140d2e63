//! Manual steering: a world-space target point (resolved externally
//! from a pointer ray) drives the steerable agent's velocity; with no
//! target this tick the agent stops rather than holding its last
//! command.

use vstd::prelude::*;
use crate::fishes::{Fish, SimConfig};
use crate::vec3::{Vec3, clamp_spec, clamp_length_max, iabs, sdiv, lemma_mul_bound,
    lemma_sdiv_in_range};
use crate::forces::POS_LIMIT;

verus! {

/// What steering does to one agent: a steerable agent heads for the
/// target at capped speed with its depth component zeroed, or stops when
/// no target is given; any other agent is untouched.
pub open spec fn steer_spec(f: Fish, target: Option<Vec3>, cfg: SimConfig) -> Fish {
    if f.click_to_move {
        match target {
            Some(t) => Fish {
                velocity: clamp_spec(
                    Vec3 {
                        x: (t.x - f.position.x) as i64,
                        y: (t.y - f.position.y) as i64,
                        z: 0,
                    },
                    cfg.steer_max_speed as int,
                ),
                ..f
            },
            None => Fish { velocity: Vec3 { x: 0, y: 0, z: 0 }, ..f },
        }
    } else {
        f
    }
}

/// Steer every steerable agent toward the target point, if one was
/// resolved this tick, else stop it. The steered velocity is confined to
/// the z = 0 plane and capped at the steering speed limit.
pub fn click_to_move_system(fishes: &mut Vec<Fish>, target: Option<Vec3>, cfg: &SimConfig)
    requires
        cfg.wf(),
        forall|k: int|
            0 <= k < old(fishes)@.len() ==> (#[trigger] old(fishes)@[k]).position.bounded(
                POS_LIMIT as int,
            ),
        target matches Some(t) ==> t.bounded(POS_LIMIT as int),
    ensures
        final(fishes)@.len() == old(fishes)@.len(),
        forall|k: int|
            0 <= k < old(fishes)@.len() ==> #[trigger] final(fishes)@[k] == steer_spec(
                old(fishes)@[k],
                target,
                *cfg,
            ),
        forall|k: int|
            0 <= k < final(fishes)@.len() && (#[trigger] final(fishes)@[k]).click_to_move
                ==> final(fishes)@[k].velocity.len2() <= cfg.steer_max_speed * cfg.steer_max_speed,
{
    let ghost s0 = fishes@;
    let mut k: usize = 0;
    while k < fishes.len()
        invariant
            k <= s0.len(),
            fishes@.len() == s0.len(),
            cfg.wf(),
            forall|p: int|
                0 <= p < s0.len() ==> (#[trigger] s0[p]).position.bounded(POS_LIMIT as int),
            target matches Some(t) ==> t.bounded(POS_LIMIT as int),
            forall|p: int|
                0 <= p < k ==> #[trigger] fishes@[p] == steer_spec(s0[p], target, *cfg),
            forall|p: int|
                0 <= p < k && (#[trigger] fishes@[p]).click_to_move ==> fishes@[p].velocity.len2()
                    <= cfg.steer_max_speed * cfg.steer_max_speed,
            forall|p: int| k <= p < s0.len() ==> #[trigger] fishes@[p] == s0[p],
        decreases s0.len() - k,
    {
        let f = fishes[k];
        if f.click_to_move {
            match target {
                Some(t) => {
                    let delta = Vec3 { x: t.x - f.position.x, y: t.y - f.position.y, z: 0 };
                    let capped = clamp_length_max(delta, cfg.steer_max_speed);
                    let mut nf = f;
                    nf.velocity = capped;
                    fishes[k] = nf;
                },
                None => {
                    let mut nf = f;
                    nf.velocity = Vec3 { x: 0, y: 0, z: 0 };
                    fishes[k] = nf;
                    proof {
                        crate::vec3::lemma_sq_bound(cfg.steer_max_speed as int, 1_000_000);
                    }
                },
            }
        }
        k = k + 1;
    }
}


/// Where a pointer ray meets the z = 0 plane: `origin + t * direction`
/// with `t = -origin.z / direction.z`, rounded once per coordinate. A
/// ray parallel to the plane meets it nowhere.
pub open spec fn ray_plane_spec(o: Vec3, d: Vec3) -> Option<Vec3> {
    if d.z == 0 {
        None
    } else {
        let den = iabs(d.z as int);
        let nx = if d.z > 0 {
            -(o.z * d.x)
        } else {
            o.z * d.x
        };
        let ny = if d.z > 0 {
            -(o.z * d.y)
        } else {
            o.z * d.y
        };
        Some(
            Vec3 {
                x: (o.x + sdiv(nx, den)) as i64,
                y: (o.y + sdiv(ny, den)) as i64,
                z: 0,
            },
        )
    }
}

/// Project a pointer ray, resolved externally from the cursor, onto the
/// z = 0 plane the school swims in. Returns the intersection point, or
/// nothing for a ray parallel to the plane.
pub fn try_get_cursor_position_on_z_plane(ray_origin: Vec3, ray_direction: Vec3) -> (r: Option<
    Vec3,
>)
    requires
        ray_origin.bounded(POS_LIMIT as int),
        ray_direction.bounded(1_000_000),
    ensures
        r == ray_plane_spec(ray_origin, ray_direction),
        r is Some <==> ray_direction.z != 0,
{
    if ray_direction.z == 0 {
        return None;
    }
    let oz = ray_origin.z as i128;
    let den: i128 = if ray_direction.z > 0 {
        ray_direction.z as i128
    } else {
        -(ray_direction.z as i128)
    };
    proof {
        lemma_mul_bound(oz as int, ray_direction.x as int, POS_LIMIT as int, 1_000_000);
        lemma_mul_bound(oz as int, ray_direction.y as int, POS_LIMIT as int, 1_000_000);
    }
    let nx: i128 = if ray_direction.z > 0 {
        -(oz * (ray_direction.x as i128))
    } else {
        oz * (ray_direction.x as i128)
    };
    let ny: i128 = if ray_direction.z > 0 {
        -(oz * (ray_direction.y as i128))
    } else {
        oz * (ray_direction.y as i128)
    };
    proof {
        assert(den * 1_000_000_000_000_000_000 >= 1_000_000_000_000_000_000) by (nonlinear_arith)
            requires
                den >= 1,
        ;
        lemma_sdiv_in_range(nx as int, den as int, 1_000_000_000_000_000_000);
        lemma_sdiv_in_range(ny as int, den as int, 1_000_000_000_000_000_000);
    }
    let px = ray_origin.x as i128 + crate::vec3::div_trunc_i128(nx, den);
    let py = ray_origin.y as i128 + crate::vec3::div_trunc_i128(ny, den);
    Some(Vec3 { x: px as i64, y: py as i64, z: 0 })
}

} // verus!
