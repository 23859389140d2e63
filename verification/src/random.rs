//! Random draws for spawn placement and the wander force. The one
//! outside call is wrapped; everything built on top of it is verified
//! for every value the generator may return.

use vstd::prelude::*;
use crate::vec3::{Vec3, div_trunc, isqrt_u128, iabs, sdiv, sqrt_floor, lemma_sq_bound,
    lemma_sdiv_in_range, lemma_sdiv_abs_ge, lemma_scaled_len2_bound, lemma_sqrt_floor};

verus! {

/// Relies on rand::random: draws one independent 64-bit value from the
/// thread-local generator. Nothing is assumed about which value comes
/// back.
#[verifier::external_body]
fn random_u64() -> u64 {
    rand::random::<u64>()
}

/// A scalar drawn from `0..=1000`: a milli fixed-point sample of [0, 1].
pub fn random_unit_milli() -> (r: u64)
    ensures
        r <= 1000,
{
    random_u64() % 1001
}

/// A coordinate drawn from `-1000..=1000`.
fn random_coord_milli() -> (r: i64)
    ensures
        -1000 <= r <= 1000,
{
    (random_u64() % 2001) as i64 - 1000
}

/// A random direction in the z = 0 plane, of length close to one unit
/// (squared length between 120_000 and 1_000_000 in milli fixed-point),
/// drawn by rejection sampling from the unit disc and scaled.
pub fn random_direction() -> (r: Vec3)
    ensures
        r.z == 0,
        120_000 <= r.len2() <= 1_000_000,
        r.bounded(1000),
{
    let mut tries: u32 = 16;
    while tries > 0
        invariant
            true,
        decreases tries,
    {
        let dx = random_coord_milli();
        let dy = random_coord_milli();
        proof {
            lemma_sq_bound(dx as int, 1000);
            lemma_sq_bound(dy as int, 1000);
        }
        let d2: i64 = dx * dx + dy * dy;
        if 250_000 <= d2 && d2 <= 1_000_000 {
            let s = isqrt_u128(d2 as u128);
            proof {
                lemma_sqrt_floor(d2 as int);
                assert(500 <= s <= 1000) by (nonlinear_arith)
                    requires
                        s == sqrt_floor(d2 as int),
                        s * s <= d2 as int,
                        (d2 as int) < (s + 1) * (s + 1),
                        250_000 <= d2 <= 1_000_000,
                        s >= 0,
                ;
            }
            let d: i64 = (s as i64) + 1;
            proof {
                assert(iabs(dx as int) < d && iabs(dy as int) < d) by (nonlinear_arith)
                    requires
                        dx * dx <= d2,
                        dy * dy <= d2,
                        (d2 as int) < d * d,
                        d >= 1,
                        iabs(dx as int) == if dx >= 0 { dx as int } else { -(dx as int) },
                        iabs(dy as int) == if dy >= 0 { dy as int } else { -(dy as int) },
                ;
                lemma_sdiv_in_range(dx as int * 1000, d as int, 1000);
                lemma_sdiv_in_range(dy as int * 1000, d as int, 1000);
            }
            let nx = div_trunc(dx * 1000, d);
            let ny = div_trunc(dy * 1000, d);
            proof {
                lemma_scaled_len2_bound(
                    dx as int,
                    dy as int,
                    0,
                    1000,
                    d as int,
                    nx as int,
                    ny as int,
                    0,
                );
                lemma_direction_lower(dx as int, dy as int, d as int, nx as int, ny as int);
            }
            return Vec3 { x: nx, y: ny, z: 0 };
        }
        tries = tries - 1;
    }
    Vec3 { x: 1000, y: 0, z: 0 }
}

/// The scaled direction keeps a healthy length: its dominant coordinate
/// alone contributes at least 353^2 to the squared length.
proof fn lemma_direction_lower(dx: int, dy: int, d: int, nx: int, ny: int)
    requires
        501 <= d <= 1001,
        250_000 <= dx * dx + dy * dy,
        dx * dx <= 1_000_000,
        dy * dy <= 1_000_000,
        nx == sdiv(dx * 1000, d),
        ny == sdiv(dy * 1000, d),
    ensures
        120_000 <= nx * nx + ny * ny,
{
    if dx * dx >= dy * dy {
        assert(dx * dx >= 125_000);
        assert(iabs(dx) >= 354) by (nonlinear_arith)
            requires
                dx * dx >= 125_000,
                iabs(dx) == if dx >= 0 { dx } else { -dx },
        ;
        assert(iabs(dx * 1000) >= 353 * d) by (nonlinear_arith)
            requires
                iabs(dx) >= 354,
                d <= 1001,
                iabs(dx * 1000) == 1000 * iabs(dx),
        ;
        assert(iabs(dx * 1000) == 1000 * iabs(dx)) by (nonlinear_arith)
            requires
                iabs(dx) == if dx >= 0 { dx } else { -dx },
                iabs(dx * 1000) == if dx * 1000 >= 0 { dx * 1000 } else { -(dx * 1000) },
        ;
        lemma_sdiv_abs_ge(dx * 1000, d, 353);
        assert(nx * nx >= 124_609 && ny * ny >= 0) by (nonlinear_arith)
            requires
                iabs(sdiv(dx * 1000, d)) >= 353,
                nx == sdiv(dx * 1000, d),
                iabs(nx) == if nx >= 0 { nx } else { -nx },
        ;
    } else {
        assert(dy * dy >= 125_000);
        assert(iabs(dy) >= 354) by (nonlinear_arith)
            requires
                dy * dy >= 125_000,
                iabs(dy) == if dy >= 0 { dy } else { -dy },
        ;
        assert(iabs(dy * 1000) == 1000 * iabs(dy)) by (nonlinear_arith)
            requires
                iabs(dy) == if dy >= 0 { dy } else { -dy },
                iabs(dy * 1000) == if dy * 1000 >= 0 { dy * 1000 } else { -(dy * 1000) },
        ;
        assert(iabs(dy * 1000) >= 353 * d) by (nonlinear_arith)
            requires
                iabs(dy) >= 354,
                d <= 1001,
                iabs(dy * 1000) == 1000 * iabs(dy),
        ;
        lemma_sdiv_abs_ge(dy * 1000, d, 353);
        assert(ny * ny >= 124_609 && nx * nx >= 0) by (nonlinear_arith)
            requires
                iabs(sdiv(dy * 1000, d)) >= 353,
                ny == sdiv(dy * 1000, d),
                iabs(ny) == if ny >= 0 { ny } else { -ny },
        ;
    }
}

/// A random offset in the z = 0 plane, no farther than `radius` from the
/// origin: a random fraction of the radius along a random direction.
pub fn random_spawn_offset(radius: i64) -> (r: Vec3)
    requires
        0 <= radius <= 1_000_000_000_000,
    ensures
        r.z == 0,
        r.bounded(radius as int),
{
    let m = random_unit_milli();
    proof {
        crate::vec3::lemma_mul_bound(radius as int, m as int, radius as int, 1000);
        lemma_sdiv_in_range(radius as int * m as int, 1000, radius as int);
    }
    let len = div_trunc(radius * (m as i64), 1000);
    let dir = random_direction();
    proof {
        crate::vec3::lemma_mul_bound(len as int, dir.x as int, radius as int, 1000);
        crate::vec3::lemma_mul_bound(len as int, dir.y as int, radius as int, 1000);
        lemma_sdiv_in_range(len as int * dir.x as int, 1000, radius as int);
        lemma_sdiv_in_range(len as int * dir.y as int, 1000, radius as int);
    }
    let nx = div_trunc(len * dir.x, 1000);
    let ny = div_trunc(len * dir.y, 1000);
    Vec3 { x: nx, y: ny, z: 0 }
}

} // verus!
