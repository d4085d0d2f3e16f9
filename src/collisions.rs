//! Helpers for responses to collisions. A response may use them; the simulation itself does
//! not.
use vstd::prelude::*;

use crate::entity::{squared_distance, AsEntity, Entity};
use crate::gravity::trunc_div;

verus! {

/// `r` is the integer square root of `n`: the largest number whose square is at most `n`.
pub open spec fn is_isqrt(n: int, r: int) -> bool {
    0 <= r && r * r <= n < (r + 1) * (r + 1)
}

/// Returns the integer square root of `n`, for any `n` below `2^66`.
pub fn isqrt(n: u128) -> (r: u64)
    requires
        n < 0x4_0000_0000_0000_0000,
    ensures
        is_isqrt(n as int, r as int),
{
    let mut lo: u128 = 0;
    let mut hi: u128 = 0x2_0000_0000;
    assert(hi * hi == 0x4_0000_0000_0000_0000) by (nonlinear_arith)
        requires hi == 0x2_0000_0000;
    while hi - lo > 1
        invariant
            lo < hi <= 0x2_0000_0000,
            lo * lo <= n < hi * hi,
        decreases hi - lo,
    {
        let mid = lo + (hi - lo) / 2;
        assert(mid * mid <= 0x2_0000_0000 * 0x2_0000_0000) by (nonlinear_arith)
            requires mid <= 0x2_0000_0000;
        if mid * mid <= n {
            lo = mid;
        } else {
            hi = mid;
        }
    }
    assert(hi == lo + 1);
    lo as u64
}

/// The push along one axis that a soft-body collision gives `p1`: the offset from `p2` to
/// `p1` along that axis times the stiffness times the overlap, over the distance times
/// `p1`'s mass, rounded toward zero; zero when the distance or the mass is zero.
pub open spec fn soft_push(delta: int, stiffness: int, overlap: int, dist: int, mass: int) -> int {
    if dist == 0 || mass == 0 {
        0
    } else {
        trunc_div(delta * (stiffness * overlap), dist * mass)
    }
}

/// Returns the push along one axis, as `soft_push` states it.
fn push_component(delta: i64, force: u128, dist: u64, mass: u32) -> (r: i128)
    requires
        -0xffff_ffff <= delta <= 0xffff_ffff,
        force <= 0xffff_ffff * 0x2_0000_0000,
    ensures
        r == soft_push(delta as int, 1, force as int, dist as int, mass as int),
{
    if dist == 0 || mass == 0 {
        return 0;
    }
    let a: u128 = if delta < 0 { (-delta) as u128 } else { delta as u128 };
    assert(a * force <= 0xffff_ffff * (0xffff_ffff * 0x2_0000_0000)) by (nonlinear_arith)
        requires a <= 0xffff_ffff, force <= 0xffff_ffff * 0x2_0000_0000;
    assert(dist as u128 * mass as u128 <= 0xffff_ffff_ffff_ffff * 0xffff_ffff) by (nonlinear_arith)
        requires dist <= 0xffff_ffff_ffff_ffff, mass <= 0xffff_ffff;
    let den: u128 = dist as u128 * mass as u128;
    assert(den > 0) by (nonlinear_arith)
        requires den == dist * mass, dist > 0, mass > 0;
    let q: u128 = (a * force) / den;
    proof {
        let prod: int = a * force;
        let d: int = den as int;
        assert(q <= prod) by (nonlinear_arith)
            requires q == prod / d, d >= 1, prod >= 0;
        if delta < 0 {
            assert(delta * (1 * force) == -(a * force)) by (nonlinear_arith)
                requires a == -delta;
        } else {
            assert(delta * (1 * force) == a * force) by (nonlinear_arith)
                requires a == delta;
        }
    }
    if delta < 0 {
        -(q as i128)
    } else {
        q as i128
    }
}

/// A soft-body (Hooke's law) response to the overlap of `p1` and `p2`: when their spheres
/// overlap, `p1` is pushed away from `p2` with a force of `stiffness` times the overlap
/// (the sum of the radii minus the integer distance), divided by `p1`'s mass. When they do not
/// overlap, `p1`'s velocity is returned unchanged.
pub fn soft_body<T: AsEntity>(p1: &T, p2: &T, stiffness: u32) -> (r: (i128, i128, i128))
    ensures
        ({
            let e1 = p1.entity();
            let e2 = p2.entity();
            let d2 = squared_distance(e1.position(), e2.position());
            let dist = choose|s: int| is_isqrt(d2, s);
            let radii = e1.radius + e2.radius;
            if dist >= radii {
                r == (e1.vx as i128, e1.vy as i128, e1.vz as i128)
            } else {
                let overlap = radii - dist;
                &&& r.0 == soft_push(e1.x - e2.x, stiffness as int, overlap, dist, e1.mass as int)
                &&& r.1 == soft_push(e1.y - e2.y, stiffness as int, overlap, dist, e1.mass as int)
                &&& r.2 == soft_push(e1.z - e2.z, stiffness as int, overlap, dist, e1.mass as int)
            }
        }),
{
    let e1 = p1.as_entity();
    let e2 = p2.as_entity();
    let d2 = e1.distance_squared(&e2);
    let dist = isqrt(d2);
    proof {
        let d2i = squared_distance(e1.position(), e2.position());
        let s = choose|s: int| is_isqrt(d2i, s);
        assert(is_isqrt(d2i, dist as int));
        lemma_isqrt_unique(d2i, s, dist as int);
    }
    let radii: u64 = e1.radius as u64 + e2.radius as u64;
    if dist >= radii {
        return (e1.vx as i128, e1.vy as i128, e1.vz as i128);
    }
    let overlap: u64 = radii - dist;
    assert(stiffness * overlap <= 0xffff_ffff * 0x2_0000_0000) by (nonlinear_arith)
        requires stiffness <= 0xffff_ffff, overlap <= 0x2_0000_0000;
    let force: u128 = stiffness as u128 * overlap as u128;
    let (dx, dy, dz) = e2.distance_vector(&e1);
    proof {
        assert(stiffness * overlap == 1 * force);
    }
    (
        push_component(dx, force, dist, e1.mass),
        push_component(dy, force, dist, e1.mass),
        push_component(dz, force, dist, e1.mass),
    )
}

/// The integer square root is unique.
proof fn lemma_isqrt_unique(n: int, a: int, b: int)
    requires
        is_isqrt(n, a),
        is_isqrt(n, b),
    ensures
        a == b,
{
    if a < b {
        assert((a + 1) * (a + 1) <= b * b) by (nonlinear_arith)
            requires a + 1 <= b, a >= 0;
    } else if b < a {
        assert((b + 1) * (b + 1) <= a * a) by (nonlinear_arith)
            requires b + 1 <= a, b >= 0;
    }
}

} // verus!
