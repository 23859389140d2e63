//! The simulated agents ("fish") and the tunable force configuration.

use vstd::prelude::*;
use crate::vec3::{Vec3, sqrt_floor, MILLI};

verus! {

/// Group id reserved for the group that contains the player agent.
pub const PLAYER_GROUP_ID: u64 = 0;

/// Tunable force strengths and distances, all in milli fixed-point:
/// a strength of 2000 stands for 2.0, a distance of 10_000 for 10 units.
#[derive(Clone, Copy, Debug, PartialEq, Eq, Structural)]
pub struct SimConfig {
    /// Velocity magnitude cap applied after force integration.
    pub max_speed: i64,
    /// Linear drag coefficient.
    pub friction: i64,
    /// Pull toward the group centroid.
    pub cohesion: i64,
    /// Pairwise inverse-cube repulsion strength.
    pub separation: i64,
    /// Reference radius of the separation force.
    pub separation_radius: i64,
    /// Steer toward the group's mean velocity.
    pub alignment: i64,
    /// Strength of the exploratory force on ungrouped agents.
    pub wander: i64,
    /// Two agents closer than this are grouped together.
    pub group_distance: i64,
    /// Velocity magnitude cap of the manually steered agent.
    pub steer_max_speed: i64,
}

impl SimConfig {
    /// Machine limits under which every tick computation stays in range.
    pub open spec fn wf(self) -> bool {
        &&& 0 < self.max_speed <= 1_000_000
        &&& 0 <= self.friction <= 1_000_000
        &&& 0 <= self.cohesion <= 1_000_000
        &&& 0 <= self.separation <= 1_000_000
        &&& 1 <= self.separation_radius <= 1_000_000
        &&& 0 <= self.alignment <= 1_000_000
        &&& 0 <= self.wander <= 1_000_000
        &&& 0 <= self.group_distance <= 1_000_000_000
        &&& 0 < self.steer_max_speed <= 1_000_000
        &&& self.separation * self.separation_radius * self.separation_radius
            * self.separation_radius <= 32_000_000_000_000_000
    }
}

impl Default for SimConfig {
    /// The observed tuning of the simulation constants.
    fn default() -> (c: SimConfig)
        ensures
            c == (SimConfig {
                max_speed: 20_000,
                friction: 10,
                cohesion: 2_000,
                separation: 50_000,
                separation_radius: 2_000,
                alignment: 10,
                wander: 1_000,
                group_distance: 10_000,
                steer_max_speed: 30_000,
            }),
            c.wf(),
    {
        SimConfig {
            max_speed: 20_000,
            friction: 10,
            cohesion: 2_000,
            separation: 50_000,
            separation_radius: 2_000,
            alignment: 10,
            wander: 1_000,
            group_distance: 10_000,
            steer_max_speed: 30_000,
        }
    }
}

/// One simulated agent. Capability flags say which forces apply to it;
/// the force fields hold the accumulated force of the current tick.
#[derive(Clone, Copy, Debug, PartialEq, Eq, Structural)]
pub struct Fish {
    pub position: Vec3,
    /// Forward direction of travel, updated on movement.
    pub facing: Vec3,
    pub velocity: Vec3,
    /// `None` means ungrouped; `Some(0)` is the player's group.
    pub group_id: Option<u64>,
    pub is_player: bool,
    /// Whether accumulated forces are integrated into the velocity.
    pub forceable: bool,
    pub cohesive: bool,
    pub separation: bool,
    pub alignment: bool,
    pub friction: bool,
    pub wander: bool,
    /// Whether pointer steering drives this agent.
    pub click_to_move: bool,
    /// Whether the camera framing takes this agent into account.
    pub followed: bool,
    pub cohesion_force: Vec3,
    pub separation_force: Vec3,
    pub alignment_force: Vec3,
    pub friction_force: Vec3,
    pub wander_force: Vec3,
}

impl Fish {
    /// A non-player agent: ungrouped, subject to every flocking force.
    pub fn new_npc(position: Vec3, facing: Vec3) -> (f: Fish)
        ensures
            f == (Fish {
                position,
                facing,
                velocity: Vec3 { x: 0, y: 0, z: 0 },
                group_id: None::<u64>,
                is_player: false,
                forceable: true,
                cohesive: true,
                separation: true,
                alignment: true,
                friction: true,
                wander: true,
                click_to_move: false,
                followed: false,
                cohesion_force: Vec3 { x: 0, y: 0, z: 0 },
                separation_force: Vec3 { x: 0, y: 0, z: 0 },
                alignment_force: Vec3 { x: 0, y: 0, z: 0 },
                friction_force: Vec3 { x: 0, y: 0, z: 0 },
                wander_force: Vec3 { x: 0, y: 0, z: 0 },
            }),
    {
        Fish {
            position,
            facing,
            velocity: Vec3 { x: 0, y: 0, z: 0 },
            group_id: None,
            is_player: false,
            forceable: true,
            cohesive: true,
            separation: true,
            alignment: true,
            friction: true,
            wander: true,
            click_to_move: false,
            followed: false,
            cohesion_force: Vec3 { x: 0, y: 0, z: 0 },
            separation_force: Vec3 { x: 0, y: 0, z: 0 },
            alignment_force: Vec3 { x: 0, y: 0, z: 0 },
            friction_force: Vec3 { x: 0, y: 0, z: 0 },
            wander_force: Vec3 { x: 0, y: 0, z: 0 },
        }
    }

    /// The player agent: pre-assigned to the reserved group id, steered
    /// manually, never integrated from forces and never wandering.
    pub fn new_player(position: Vec3, facing: Vec3) -> (f: Fish)
        ensures
            f == (Fish {
                position,
                facing,
                velocity: Vec3 { x: 0, y: 0, z: 0 },
                group_id: Some(PLAYER_GROUP_ID),
                is_player: true,
                forceable: false,
                cohesive: true,
                separation: true,
                alignment: true,
                friction: false,
                wander: false,
                click_to_move: true,
                followed: true,
                cohesion_force: Vec3 { x: 0, y: 0, z: 0 },
                separation_force: Vec3 { x: 0, y: 0, z: 0 },
                alignment_force: Vec3 { x: 0, y: 0, z: 0 },
                friction_force: Vec3 { x: 0, y: 0, z: 0 },
                wander_force: Vec3 { x: 0, y: 0, z: 0 },
            }),
    {
        Fish {
            position,
            facing,
            velocity: Vec3 { x: 0, y: 0, z: 0 },
            group_id: Some(PLAYER_GROUP_ID),
            is_player: true,
            forceable: false,
            cohesive: true,
            separation: true,
            alignment: true,
            friction: false,
            wander: false,
            click_to_move: true,
            followed: true,
            cohesion_force: Vec3 { x: 0, y: 0, z: 0 },
            separation_force: Vec3 { x: 0, y: 0, z: 0 },
            alignment_force: Vec3 { x: 0, y: 0, z: 0 },
            friction_force: Vec3 { x: 0, y: 0, z: 0 },
            wander_force: Vec3 { x: 0, y: 0, z: 0 },
        }
    }

    /// Whether this agent currently belongs to the player's group.
    pub fn is_grouped_with_player(&self) -> (r: bool)
        ensures
            r == (self.group_id == Some(PLAYER_GROUP_ID)),
    {
        match self.group_id {
            Some(id) => id == PLAYER_GROUP_ID,
            None => false,
        }
    }
}

/// Animation playback speed exposed to the presentation layer:
/// one plus the velocity magnitude, in milli fixed-point.
pub fn animation_speed_milli(f: &Fish) -> (r: i64)
    requires
        f.velocity.bounded(crate::vec3::COORD_LIMIT as int),
    ensures
        r == MILLI + sqrt_floor(f.velocity.len2()),
{
    proof {
        crate::vec3::lemma_sq_bound(f.velocity.x as int, crate::vec3::COORD_LIMIT as int);
        crate::vec3::lemma_sq_bound(f.velocity.y as int, crate::vec3::COORD_LIMIT as int);
        crate::vec3::lemma_sq_bound(f.velocity.z as int, crate::vec3::COORD_LIMIT as int);
    }
    let xx: i128 = (f.velocity.x as i128) * (f.velocity.x as i128);
    let yy: i128 = (f.velocity.y as i128) * (f.velocity.y as i128);
    let zz: i128 = (f.velocity.z as i128) * (f.velocity.z as i128);
    let len2: i128 = xx + yy + zz;
    let s = crate::vec3::isqrt_u128(len2 as u128);
    assert(s * s <= len2 as u128);
    assert(s < 0x8000_0000_0000_0000) by (nonlinear_arith)
        requires
            s * s <= len2 as u128,
            (len2 as u128) < 0x4000_0000_0000_0000_0000_0000_0000_0000,
    ;
    proof {
        lemma_speed_fits(f.velocity.x as int, f.velocity.y as int, f.velocity.z as int, s as int);
    }
    MILLI + (s as i64)
}

/// The square root of a sum of three bounded squares fits well inside i64.
proof fn lemma_speed_fits(x: int, y: int, z: int, s: int)
    by (nonlinear_arith)
    requires
        -0x1000_0000_0000_0000 <= x <= 0x1000_0000_0000_0000,
        -0x1000_0000_0000_0000 <= y <= 0x1000_0000_0000_0000,
        -0x1000_0000_0000_0000 <= z <= 0x1000_0000_0000_0000,
        s >= 0,
        s * s <= x * x + y * y + z * z,
    ensures
        s < 0x4000_0000_0000_0000,
{
}


/// Mark every agent that has joined the player's group as followed by
/// the camera; agents already followed stay followed.
pub fn fish_track_system(fishes: &mut Vec<Fish>)
    ensures
        final(fishes)@.len() == old(fishes)@.len(),
        forall|k: int|
            0 <= k < old(fishes)@.len() ==> #[trigger] final(fishes)@[k] == (Fish {
                followed: old(fishes)@[k].followed || old(fishes)@[k].group_id == Some(
                    PLAYER_GROUP_ID,
                ),
                ..old(fishes)@[k]
            }),
{
    let ghost s0 = fishes@;
    let mut k: usize = 0;
    while k < fishes.len()
        invariant
            k <= s0.len(),
            fishes@.len() == s0.len(),
            forall|p: int|
                0 <= p < k ==> #[trigger] fishes@[p] == (Fish {
                    followed: s0[p].followed || s0[p].group_id == Some(PLAYER_GROUP_ID),
                    ..s0[p]
                }),
            forall|p: int| k <= p < s0.len() ==> #[trigger] fishes@[p] == s0[p],
        decreases s0.len() - k,
    {
        let f = fishes[k];
        if !f.followed && f.is_grouped_with_player() {
            let mut nf = f;
            nf.followed = true;
            fishes[k] = nf;
        }
        k = k + 1;
    }
}

} // verus!
