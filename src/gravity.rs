use vstd::prelude::*;

use crate::dimension::Dimension;
use crate::entity::{in_coord_range, point_coord, squared_distance, Entity, Point};

verus! {

/// The largest mass a tree node can carry: as many bodies as a `Vec` can hold, each of the
/// largest mass.
pub open spec fn node_mass_bound() -> int {
    (u64::MAX as int) * (u32::MAX as int)
}

/// Integer division of `a` by a positive `b`, rounded toward zero.
pub open spec fn trunc_div(a: int, b: int) -> int {
    if a >= 0 {
        a / b
    } else {
        -((-a) / b)
    }
}

/// The multipole acceptance threshold θ, held as the ratio `numerator / denominator`.
#[derive(Clone, Copy, Debug, PartialEq, Eq, Structural)]
pub struct Theta {
    pub numerator: u16,
    pub denominator: u16,
}

impl Theta {
    /// θ is a ratio with a non-zero denominator.
    pub open spec fn valid(self) -> bool {
        self.denominator > 0
    }

    /// Whether a cluster of extent `s` at squared distance `d2` is far enough to be taken as a
    /// single point mass: `d2 * θ² > s²`.
    pub open spec fn accepts(self, d2: int, s: int) -> bool {
        d2 * (self.numerator * self.numerator) > s * s * (self.denominator * self.denominator)
    }

    /// Returns whether a cluster of extent `s` at squared distance `d2` may be taken as a single
    /// point mass.
    pub fn exceeded_by(&self, d2: u128, s: u64) -> (r: bool)
        requires
            d2 <= 3 * 0xffff_ffff_u128 * 0xffff_ffff_u128,
            s <= 0xffff_ffff,
        ensures
            r == self.accepts(d2 as int, s as int),
    {
        let n = self.numerator as u128;
        let d = self.denominator as u128;
        let s = s as u128;
        proof {
            assert(n * n <= 0xffff * 0xffff) by (nonlinear_arith)
                requires n <= 0xffff;
            assert(d * d <= 0xffff * 0xffff) by (nonlinear_arith)
                requires d <= 0xffff;
            assert(s * s <= 0xffff_ffff * 0xffff_ffff) by (nonlinear_arith)
                requires s <= 0xffff_ffff;
        }
        let nn = n * n;
        let dd = d * d;
        let ss = s * s;
        proof {
            assert(d2 * nn <= 3 * 0xffff_ffff_u128 * 0xffff_ffff_u128 * (0xffff * 0xffff)) by (nonlinear_arith)
                requires d2 <= 3 * 0xffff_ffff_u128 * 0xffff_ffff_u128, nn <= 0xffff * 0xffff;
            assert(ss * dd <= 0xffff_ffff * 0xffff_ffff * (0xffff * 0xffff)) by (nonlinear_arith)
                requires ss <= 0xffff_ffff * 0xffff_ffff, dd <= 0xffff * 0xffff;
        }
        d2 * nn > ss * dd
    }
}

/// The acceleration along `dim` that a point mass `mass` at `p` exerts on a body at `q`: the
/// offset toward `p` times the mass over the squared distance, rounded toward zero, and zero
/// when the two points coincide.
pub open spec fn pull(q: Point, p: Point, mass: int, dim: Dimension) -> int {
    let d2 = squared_distance(q, p);
    if d2 == 0 {
        0
    } else {
        trunc_div((point_coord(p, dim) - point_coord(q, dim)) * mass, d2)
    }
}

/// A quotient rounded toward zero lies between bounds that hold for the dividend.
pub proof fn lemma_trunc_div_within(a: int, b: int, lo: int, hi: int)
    requires
        b > 0,
        lo * b <= a <= hi * b,
    ensures
        lo <= trunc_div(a, b) <= hi,
{
    if a >= 0 {
        let q = a / b;
        let r = a % b;
        assert(a == q * b + r && 0 <= r < b) by (nonlinear_arith)
            requires b > 0, q == a / b, r == a % b;
        assert(q <= hi) by (nonlinear_arith)
            requires a == q * b + r, 0 <= r < b, a <= hi * b, b > 0;
        assert(lo <= q) by (nonlinear_arith)
            requires a == q * b + r, 0 <= r < b, lo * b <= a, b > 0, a >= 0;
    } else {
        let na = -a;
        let q = na / b;
        let r = na % b;
        assert(na == q * b + r && 0 <= r < b) by (nonlinear_arith)
            requires b > 0, q == na / b, r == na % b;
        assert(-q <= hi) by (nonlinear_arith)
            requires na == q * b + r, 0 <= r < b, -na <= hi * b, b > 0, na > 0;
        assert(lo <= -q) by (nonlinear_arith)
            requires na == q * b + r, 0 <= r < b, lo * b <= -na, b > 0;
    }
}

/// One component of the pull: `delta * mass / d2` rounded toward zero, where `delta` is the
/// offset along that axis and `d2` the squared distance.
fn pull_component(delta: i64, mass: u128, d2: u128) -> (r: i128)
    requires
        -0xffff_ffff <= delta <= 0xffff_ffff,
        mass <= node_mass_bound(),
        d2 > 0,
        delta * delta <= d2,
    ensures
        r == trunc_div(delta * mass, d2 as int),
        -mass <= r <= mass,
{
    let a: u128 = if delta < 0 { (-delta) as u128 } else { delta as u128 };
    proof {
        assert(a * a == delta * delta) by (nonlinear_arith)
            requires a == delta || a == -delta;
        assert(a * mass <= 0xffff_ffff * node_mass_bound()) by (nonlinear_arith)
            requires a <= 0xffff_ffff, mass <= node_mass_bound();
    }
    let prod: u128 = a * mass;
    let q: u128 = prod / d2;
    proof {
        assert(a <= d2) by (nonlinear_arith)
            requires a * a <= d2, a >= 0, d2 > 0;
        assert(prod <= d2 * mass) by (nonlinear_arith)
            requires prod == a * mass, a <= d2, mass >= 0;
        let rr = prod % d2;
        assert(prod == q * d2 + rr && 0 <= rr < d2) by (nonlinear_arith)
            requires d2 > 0, q == prod / d2, rr == prod % d2;
        assert(q <= mass) by (nonlinear_arith)
            requires prod == q * d2 + rr, 0 <= rr, prod <= d2 * mass, d2 > 0;
        if delta < 0 {
            assert(delta * mass == -(a * mass)) by (nonlinear_arith)
                requires a == -delta;
            assert(-(delta * mass) == prod);
        } else {
            assert(delta * mass == a * mass);
        }
    }
    if delta < 0 {
        -(q as i128)
    } else {
        q as i128
    }
}

/// Returns the acceleration that a point mass `mass` at `(x, y, z)` exerts on `q`.
pub fn gravitational_acceleration(q: &Entity, x: i64, y: i64, z: i64, mass: u128) -> (r: (
    i128,
    i128,
    i128,
))
    requires
        in_coord_range(x as int),
        in_coord_range(y as int),
        in_coord_range(z as int),
        mass <= node_mass_bound(),
    ensures
        r.0 == pull(q.position(), (x as int, y as int, z as int), mass as int, Dimension::X),
        r.1 == pull(q.position(), (x as int, y as int, z as int), mass as int, Dimension::Y),
        r.2 == pull(q.position(), (x as int, y as int, z as int), mass as int, Dimension::Z),
        -mass <= r.0 <= mass,
        -mass <= r.1 <= mass,
        -mass <= r.2 <= mass,
{
    let d2 = q.squared_distance_to(x, y, z);
    if d2 == 0 {
        return (0, 0, 0);
    }
    let (dx, dy, dz) = q.distance_vector_to(x, y, z);
    proof {
        assert(dx * dx >= 0 && dy * dy >= 0 && dz * dz >= 0) by (nonlinear_arith);
    }
    (pull_component(dx, mass, d2), pull_component(dy, mass, d2), pull_component(dz, mass, d2))
}

} // verus!
