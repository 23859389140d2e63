//! Camera framing: keep the followed agents centered by panning over
//! their centroid and pulling back along the depth axis in proportion to
//! the flock's spread, easing toward the target instead of snapping.

use vstd::prelude::*;
use crate::fishes::Fish;
use crate::vec3::{Vec3, iabs, norm2, sdiv, sqrt_floor, lemma_sdiv_in_range, lemma_sdiv_abs,
    lemma_sq_bound};
use crate::forces::POS_LIMIT;

verus! {

/// Largest camera coordinate the easing keeps within range.
pub const CAM_LIMIT: i64 = 0x4000_0000_0000_0000;

/// Camera framing configuration, milli fixed-point.
#[derive(Clone, Copy, Debug, PartialEq, Eq, Structural)]
pub struct CameraConfig {
    /// Pull-back factor per unit of flock spread.
    pub distance_scale: i64,
    /// The camera never comes closer than this along the depth axis.
    pub min_distance: i64,
    /// Overall zoom factor on the pull-back distance.
    pub zoom: i64,
    /// Blend factor of the easing step, in thousandths.
    pub lerp: i64,
}

impl CameraConfig {
    /// Machine limits under which the framing stays in range.
    pub open spec fn wf(self) -> bool {
        &&& 0 <= self.distance_scale <= 1_000_000
        &&& 0 <= self.min_distance <= 1_000_000_000_000
        &&& 0 <= self.zoom <= 1_000_000
        &&& 0 <= self.lerp <= 1000
    }
}

impl Default for CameraConfig {
    /// The observed tuning of the framing constants.
    fn default() -> (c: CameraConfig)
        ensures
            c == (CameraConfig {
                distance_scale: 2_449,
                min_distance: 50_000,
                zoom: 1_000,
                lerp: 500,
            }),
            c.wf(),
    {
        CameraConfig { distance_scale: 2_449, min_distance: 50_000, zoom: 1_000, lerp: 500 }
    }
}

/// The eased viewpoint that frames the followed agents.
#[derive(Clone, Copy, Debug, PartialEq, Eq, Structural)]
pub struct TrackingCenterOfMassCamera {
    pub position: Vec3,
}

/// How many agents the camera follows.
pub open spec fn followed_count(s: Seq<Fish>) -> int
    decreases s.len(),
{
    if s.len() == 0 {
        0
    } else {
        followed_count(s.drop_last()) + if s.last().followed {
            1int
        } else {
            0int
        }
    }
}

/// Sum of the followed agents' positions, per coordinate.
pub open spec fn followed_pos_sum(s: Seq<Fish>) -> (int, int, int)
    decreases s.len(),
{
    if s.len() == 0 {
        (0, 0, 0)
    } else {
        let rest = followed_pos_sum(s.drop_last());
        if s.last().followed {
            (
                rest.0 + s.last().position.x,
                rest.1 + s.last().position.y,
                rest.2 + s.last().position.z,
            )
        } else {
            rest
        }
    }
}

/// Largest squared distance from any followed agent to the point `c`.
pub open spec fn followed_max_d2(s: Seq<Fish>, cx: int, cy: int, cz: int) -> int
    decreases s.len(),
{
    if s.len() == 0 {
        0
    } else {
        let rest = followed_max_d2(s.drop_last(), cx, cy, cz);
        if s.last().followed {
            let d2 = norm2(
                s.last().position.x - cx,
                s.last().position.y - cy,
                s.last().position.z - cz,
            );
            if d2 > rest {
                d2
            } else {
                rest
            }
        } else {
            rest
        }
    }
}

/// The framing target over a non-empty followed set: centered over the
/// centroid in the plane, pulled back along the depth axis by
/// `zoom * distance_scale * furthest_distance`, never closer than the
/// minimum distance.
pub open spec fn camera_target(s: Seq<Fish>, ccfg: CameraConfig) -> (int, int, int) {
    let n = followed_count(s);
    let sum = followed_pos_sum(s);
    let cx = sdiv(sum.0, n);
    let cy = sdiv(sum.1, n);
    let cz = sdiv(sum.2, n);
    let fd = sqrt_floor(followed_max_d2(s, cx, cy, cz));
    let depth = sdiv(ccfg.zoom * ccfg.distance_scale * fd, 1_000_000);
    (
        cx,
        cy,
        if depth >= ccfg.min_distance {
            depth
        } else {
            ccfg.min_distance as int
        },
    )
}

/// One easing step of the camera: hold the position over an empty
/// followed set, else move a `lerp` fraction of the way to the target.
pub open spec fn camera_track_spec(cam: Vec3, s: Seq<Fish>, ccfg: CameraConfig) -> Vec3 {
    if followed_count(s) == 0 {
        cam
    } else {
        let t = camera_target(s, ccfg);
        Vec3 {
            x: (cam.x + sdiv(ccfg.lerp * (t.0 - cam.x), 1000)) as i64,
            y: (cam.y + sdiv(ccfg.lerp * (t.1 - cam.y), 1000)) as i64,
            z: (cam.z + sdiv(ccfg.lerp * (t.2 - cam.z), 1000)) as i64,
        }
    }
}

/// Re-aim the viewpoint at the followed agents: ease toward the framing
/// target, or hold position when nothing is followed.
pub fn camera_center_of_mass_track_system(
    camera: &mut TrackingCenterOfMassCamera,
    fishes: &Vec<Fish>,
    ccfg: &CameraConfig,
)
    requires
        ccfg.wf(),
        old(camera).position.bounded(CAM_LIMIT as int),
        forall|k: int|
            0 <= k < fishes@.len() ==> (#[trigger] fishes@[k]).position.bounded(POS_LIMIT as int),
    ensures
        final(camera).position == camera_track_spec(old(camera).position, fishes@, *ccfg),
        final(camera).position.bounded(CAM_LIMIT as int),
{
    let ghost s0 = fishes@;
    let mut sx: i128 = 0;
    let mut sy: i128 = 0;
    let mut sz: i128 = 0;
    let mut n: u64 = 0;
    let mut k: usize = 0;
    while k < fishes.len()
        invariant
            k <= s0.len(),
            fishes@ == s0,
            forall|p: int|
                0 <= p < s0.len() ==> (#[trigger] s0[p]).position.bounded(POS_LIMIT as int),
            sx == followed_pos_sum(s0.take(k as int)).0,
            sy == followed_pos_sum(s0.take(k as int)).1,
            sz == followed_pos_sum(s0.take(k as int)).2,
            n == followed_count(s0.take(k as int)),
            0 <= n <= k,
            iabs(sx as int) <= n * (POS_LIMIT as int),
            iabs(sy as int) <= n * (POS_LIMIT as int),
            iabs(sz as int) <= n * (POS_LIMIT as int),
        decreases s0.len() - k,
    {
        let g = fishes[k];
        proof {
            assert(s0.take(k as int + 1).drop_last() =~= s0.take(k as int));
            assert(s0.take(k as int + 1).last() == s0[k as int]);
            assert((n + 1) * (POS_LIMIT as int) == n * (POS_LIMIT as int) + POS_LIMIT as int)
                by (nonlinear_arith);
        }
        if g.followed {
            sx = sx + g.position.x as i128;
            sy = sy + g.position.y as i128;
            sz = sz + g.position.z as i128;
            n = n + 1;
        }
        k = k + 1;
    }
    proof {
        assert(s0.take(s0.len() as int) =~= s0);
    }
    if n == 0 {
        return ;
    }
    proof {
        lemma_sdiv_in_range(sx as int, n as int, POS_LIMIT as int);
        lemma_sdiv_in_range(sy as int, n as int, POS_LIMIT as int);
        lemma_sdiv_in_range(sz as int, n as int, POS_LIMIT as int);
    }
    let cx = crate::vec3::div_trunc_i128(sx, n as i128);
    let cy = crate::vec3::div_trunc_i128(sy, n as i128);
    let cz = crate::vec3::div_trunc_i128(sz, n as i128);
    let mut maxd2: i128 = 0;
    k = 0;
    while k < fishes.len()
        invariant
            k <= s0.len(),
            fishes@ == s0,
            forall|p: int|
                0 <= p < s0.len() ==> (#[trigger] s0[p]).position.bounded(POS_LIMIT as int),
            -(POS_LIMIT as int) <= cx as int <= POS_LIMIT as int,
            -(POS_LIMIT as int) <= cy as int <= POS_LIMIT as int,
            -(POS_LIMIT as int) <= cz as int <= POS_LIMIT as int,
            maxd2 == followed_max_d2(s0.take(k as int), cx as int, cy as int, cz as int),
            0 <= maxd2 <= 12_000_000_000_000_000_000_000_000,
        decreases s0.len() - k,
    {
        let g = fishes[k];
        proof {
            assert(s0.take(k as int + 1).drop_last() =~= s0.take(k as int));
            assert(s0.take(k as int + 1).last() == s0[k as int]);
        }
        if g.followed {
            let dx: i128 = g.position.x as i128 - cx;
            let dy: i128 = g.position.y as i128 - cy;
            let dz: i128 = g.position.z as i128 - cz;
            proof {
                lemma_sq_bound(dx as int, 2 * POS_LIMIT as int);
                lemma_sq_bound(dy as int, 2 * POS_LIMIT as int);
                lemma_sq_bound(dz as int, 2 * POS_LIMIT as int);
            }
            let d2: i128 = dx * dx + dy * dy + dz * dz;
            if d2 > maxd2 {
                maxd2 = d2;
            }
        }
        k = k + 1;
    }
    proof {
        assert(s0.take(s0.len() as int) =~= s0);
    }
    let fd = crate::vec3::isqrt_u128(maxd2 as u128);
    assert(fd < 4_000_000_000_000) by (nonlinear_arith)
        requires
            fd * fd <= maxd2 as u128,
            (maxd2 as u128) <= 12_000_000_000_000_000_000_000_000,
    ;
    proof {
        crate::vec3::lemma_mul_bound(ccfg.zoom as int, ccfg.distance_scale as int, 1_000_000, 1_000_000);
        crate::vec3::lemma_mul_bound(
            ccfg.zoom as int * ccfg.distance_scale as int,
            fd as int,
            1_000_000_000_000,
            4_000_000_000_000,
        );
        lemma_sdiv_in_range(
            ccfg.zoom as int * ccfg.distance_scale as int * fd as int,
            1_000_000,
            4_000_000_000_000_000_000,
        );
    }
    let depth128: i128 = crate::vec3::div_trunc_i128(
        ((ccfg.zoom as i128) * (ccfg.distance_scale as i128)) * (fd as i128),
        1_000_000,
    );
    let depth: i64 = depth128 as i64;
    let tz: i64 = if depth >= ccfg.min_distance {
        depth
    } else {
        ccfg.min_distance
    };
    let tx: i64 = cx as i64;
    let ty: i64 = cy as i64;
    assert((tx as int, ty as int, tz as int) == camera_target(s0, *ccfg));
    let px = ease_coord(camera.position.x, tx, ccfg.lerp);
    let py = ease_coord(camera.position.y, ty, ccfg.lerp);
    let pz = ease_coord(camera.position.z, tz, ccfg.lerp);
    camera.position = Vec3 { x: px, y: py, z: pz };
}

/// One coordinate of the easing step: move a `lerp` fraction of the way
/// from `cam` toward `t`; the result stays between the two.
fn ease_coord(cam: i64, t: i64, lerp: i64) -> (r: i64)
    requires
        0 <= lerp <= 1000,
        -0x4000_0000_0000_0000 <= cam <= 0x4000_0000_0000_0000,
        -0x4000_0000_0000_0000 <= t <= 0x4000_0000_0000_0000,
    ensures
        r == cam + sdiv(lerp * (t - cam), 1000),
        -0x4000_0000_0000_0000 <= r <= 0x4000_0000_0000_0000,
{
    let d: i128 = (t as i128) - (cam as i128);
    proof {
        crate::vec3::lemma_mul_bound(lerp as int, d as int, 1000, iabs(d as int));
        assert(1000 * iabs(d as int) == iabs(d as int) * 1000) by (nonlinear_arith);
        lemma_sdiv_in_range(lerp as int * d as int, 1000, iabs(d as int));
        lemma_sdiv_abs(lerp as int * d as int, 1000);
        if d >= 0 {
            assert(lerp as int * d as int >= 0) by (nonlinear_arith)
                requires
                    lerp >= 0,
                    d >= 0,
            ;
        } else {
            assert(lerp as int * d as int <= 0) by (nonlinear_arith)
                requires
                    lerp >= 0,
                    d <= 0,
            ;
        }
    }
    let step = crate::vec3::div_trunc_i128((lerp as i128) * d, 1000);
    ((cam as i128) + step) as i64
}

} // verus!
