use vstd::prelude::*;

use crate::entity::Entity;
use crate::simulation_result::SimulationResult;
use crate::traversal::referents;

verus! {

/// How a body answers what a time step found for it.
///
/// An impl verified with this library defines `response` to say what `respond` returns. An
/// impl written outside verified code cannot define it and keeps the default, one unspecified
/// value; what the library proves about a step of such a type then speaks of that value, not
/// of what `respond` returns at run time.
pub trait Responsive: Sized {
    /// The next state of this body, given the acceleration on it, the bodies it overlaps and
    /// the time step; by default one unspecified value.
    closed spec fn response(&self, acceleration: (int, int, int), collisions: Seq<Self>, time_step: u32) -> Self {
        arbitrary()
    }

    /// Returns the next state of this body from what the traversal found for it.
    fn respond(&self, simulation_result: SimulationResult<'_, Self>, time_step: u32) -> (r: Self)
        ensures
            r == self.response(
                (
                    simulation_result.gravitational_acceleration.0 as int,
                    simulation_result.gravitational_acceleration.1 as int,
                    simulation_result.gravitational_acceleration.2 as int,
                ),
                referents(simulation_result.collisions@),
                time_step,
            ),
    ;
}

/// `v` held to the range of `i32`.
pub open spec fn saturate(v: int) -> int {
    if v < i32::MIN {
        i32::MIN as int
    } else if v > i32::MAX {
        i32::MAX as int
    } else {
        v
    }
}

/// The default update of one coordinate: the velocity gains acceleration times the time
/// step, then the position gains the new velocity times the time step, each held to the range
/// of `i32`. Returns the new velocity and position.
pub open spec fn advance(v: int, p: int, a: int, dt: int) -> (int, int) {
    let nv = saturate(v + a * dt);
    (nv, saturate(p + nv * dt))
}

/// Returns `v` held to the range of `i32`.
fn saturate_i128(v: i128) -> (r: i32)
    ensures
        r == saturate(v as int),
{
    if v < i32::MIN as i128 {
        i32::MIN
    } else if v > i32::MAX as i128 {
        i32::MAX
    } else {
        v as i32
    }
}

/// The default update of one coordinate, as `advance` states it.
fn advance_axis(v: i32, p: i32, a: i128, dt: u32) -> (r: (i32, i32))
    ensures
        r.0 as int == advance(v as int, p as int, a as int, dt as int).0,
        r.1 as int == advance(v as int, p as int, a as int, dt as int).1,
{
    let bound: i128 = 0x100_0000_0000;
    let a_held: i128 = if a > bound { bound } else if a < -bound { -bound } else { a };
    proof {
        assert(-bound * dt <= a_held * dt <= bound * dt) by (nonlinear_arith)
            requires -bound <= a_held <= bound, dt >= 0;
        assert(bound * dt <= bound * 0xffff_ffff) by (nonlinear_arith)
            requires dt <= 0xffff_ffff, bound > 0;
        if dt > 0 {
            if a > bound {
                assert(a * dt >= a_held * dt) by (nonlinear_arith)
                    requires a >= a_held, dt > 0;
                assert(a_held * dt >= bound) by (nonlinear_arith)
                    requires a_held == bound, dt >= 1, bound > 0;
            } else if a < -bound {
                assert(a * dt <= a_held * dt) by (nonlinear_arith)
                    requires a <= a_held, dt > 0;
                assert(a_held * dt <= -bound) by (nonlinear_arith)
                    requires a_held == -bound, dt >= 1, bound > 0;
            }
        } else {
            assert(a * dt == 0 && a_held * dt == 0);
        }
    }
    let nv = saturate_i128(v as i128 + a_held * dt as i128);
    proof {
        assert(-0x8000_0000 * dt <= nv * dt <= 0x8000_0000 * dt) by (nonlinear_arith)
            requires -0x8000_0000 <= nv <= 0x8000_0000, dt >= 0;
        assert(0x8000_0000 * dt <= 0x8000_0000 * 0xffff_ffff) by (nonlinear_arith)
            requires dt <= 0xffff_ffff;
    }
    let np = saturate_i128(p as i128 + nv as i128 * dt as i128);
    (nv, np)
}

impl Responsive for Entity {
    /// Velocity gains acceleration times the time step, position gains the new velocity times
    /// the time step, each coordinate held to the range of `i32`; radius and mass stay.
    open spec fn response(&self, acceleration: (int, int, int), collisions: Seq<Entity>, time_step: u32) -> Entity {
        let x = advance(self.vx as int, self.x as int, acceleration.0, time_step as int);
        let y = advance(self.vy as int, self.y as int, acceleration.1, time_step as int);
        let z = advance(self.vz as int, self.z as int, acceleration.2, time_step as int);
        Entity {
            vx: x.0 as i32,
            vy: y.0 as i32,
            vz: z.0 as i32,
            x: x.1 as i32,
            y: y.1 as i32,
            z: z.1 as i32,
            radius: self.radius,
            mass: self.mass,
        }
    }

    fn respond(&self, simulation_result: SimulationResult<'_, Entity>, time_step: u32) -> (r: Entity) {
        let (ax, ay, az) = simulation_result.gravitational_acceleration;
        let (vx, x) = advance_axis(self.vx, self.x, ax, time_step);
        let (vy, y) = advance_axis(self.vy, self.y, ay, time_step);
        let (vz, z) = advance_axis(self.vz, self.z, az, time_step);
        Entity { vx, vy, vz, x, y, z, radius: self.radius, mass: self.mass }
    }
}

} // verus!
