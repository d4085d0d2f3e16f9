use vstd::prelude::*;

use crate::dimension::Dimension;

verus! {

/// The smallest coordinate value a body may take.
pub const COORD_MIN: i64 = -2147483648;

/// The largest coordinate value a body may take.
pub const COORD_MAX: i64 = 2147483647;

/// A spherical body with position, velocity, radius and mass, in integer units that the
/// caller chooses (the gravitational constant is one in those units).
#[derive(Clone, Copy, Debug, Default)]
pub struct Entity {
    pub vx: i32,
    pub vy: i32,
    pub vz: i32,
    pub x: i32,
    pub y: i32,
    pub z: i32,
    pub radius: u32,
    pub mass: u32,
}

/// A point in space with unbounded integer coordinates.
pub type Point = (int, int, int);

/// The coordinate of `p` along `dim`.
pub open spec fn point_coord(p: Point, dim: Dimension) -> int {
    match dim {
        Dimension::X => p.0,
        Dimension::Y => p.1,
        Dimension::Z => p.2,
    }
}

/// The square of the Euclidean distance between `a` and `b`.
pub open spec fn squared_distance(a: Point, b: Point) -> int {
    (b.0 - a.0) * (b.0 - a.0) + (b.1 - a.1) * (b.1 - a.1) + (b.2 - a.2) * (b.2 - a.2)
}

/// Whether a value lies in the coordinate range of a body.
pub open spec fn in_coord_range(v: int) -> bool {
    COORD_MIN <= v <= COORD_MAX
}

impl Entity {
    /// The body's position.
    pub open spec fn position(self) -> Point {
        (self.x as int, self.y as int, self.z as int)
    }

    /// The body's coordinate along `dim`.
    pub open spec fn coord(self, dim: Dimension) -> int {
        point_coord(self.position(), dim)
    }

    /// Body equality: position, radius and mass agree; velocity is not compared.
    pub open spec fn same_body(self, other: Entity) -> bool {
        &&& self.x == other.x
        &&& self.y == other.y
        &&& self.z == other.z
        &&& self.radius == other.radius
        &&& self.mass == other.mass
    }

    /// Whether `other` is a different body whose sphere touches or overlaps this one.
    pub open spec fn overlaps(self, other: Entity) -> bool {
        &&& !self.same_body(other)
        &&& squared_distance(self.position(), other.position()) <= (self.radius + other.radius)
            * (self.radius + other.radius)
    }

    /// The vector from this body to the point `(x, y, z)`.
    pub fn distance_vector_to(&self, x: i64, y: i64, z: i64) -> (r: (i64, i64, i64))
        requires
            in_coord_range(x as int),
            in_coord_range(y as int),
            in_coord_range(z as int),
        ensures
            r.0 == x - self.x,
            r.1 == y - self.y,
            r.2 == z - self.z,
    {
        (x - self.x as i64, y - self.y as i64, z - self.z as i64)
    }

    /// The vector from this body to `other`.
    pub fn distance_vector(&self, other: &Entity) -> (r: (i64, i64, i64))
        ensures
            r.0 == other.x - self.x,
            r.1 == other.y - self.y,
            r.2 == other.z - self.z,
    {
        self.distance_vector_to(other.x as i64, other.y as i64, other.z as i64)
    }

    /// The squared distance from this body to the point `(x, y, z)`.
    pub fn squared_distance_to(&self, x: i64, y: i64, z: i64) -> (r: u128)
        requires
            in_coord_range(x as int),
            in_coord_range(y as int),
            in_coord_range(z as int),
        ensures
            r == squared_distance(self.position(), (x as int, y as int, z as int)),
            r <= 3 * 0xffff_ffff_u128 * 0xffff_ffff_u128,
    {
        let (dx, dy, dz) = self.distance_vector_to(x, y, z);
        let (ax, ay, az) = (abs_i64(dx), abs_i64(dy), abs_i64(dz));
        proof {
            assert(ax * ax == dx * dx) by (nonlinear_arith)
                requires ax == dx || ax == -dx;
            assert(ay * ay == dy * dy) by (nonlinear_arith)
                requires ay == dy || ay == -dy;
            assert(az * az == dz * dz) by (nonlinear_arith)
                requires az == dz || az == -dz;
            assert(ax * ax <= 0xffff_ffff * 0xffff_ffff) by (nonlinear_arith)
                requires ax <= 0xffff_ffff;
            assert(ay * ay <= 0xffff_ffff * 0xffff_ffff) by (nonlinear_arith)
                requires ay <= 0xffff_ffff;
            assert(az * az <= 0xffff_ffff * 0xffff_ffff) by (nonlinear_arith)
                requires az <= 0xffff_ffff;
        }
        ax * ax + ay * ay + az * az
    }

    /// The squared distance between this body and `other`.
    pub fn distance_squared(&self, other: &Entity) -> (r: u128)
        ensures
            r == squared_distance(self.position(), other.position()),
            r <= 3 * 0xffff_ffff_u128 * 0xffff_ffff_u128,
    {
        self.squared_distance_to(other.x as i64, other.y as i64, other.z as i64)
    }

    /// Whether `other` is a different body (by body equality) that touches or overlaps this
    /// one. Two distinct bodies with equal position, radius and mass are not reported.
    pub fn did_collide_into(&self, other: &Entity) -> (r: bool)
        ensures
            r == self.overlaps(*other),
    {
        if self.eq(other) {
            false
        } else {
            let reach: u128 = self.radius as u128 + other.radius as u128;
            proof {
                assert(reach * reach <= 0x2_0000_0000 * 0x2_0000_0000) by (nonlinear_arith)
                    requires reach <= 0x2_0000_0000;
            }
            self.distance_squared(other) <= reach * reach
        }
    }

    /// The body's coordinate along `dim`.
    pub fn get_dim(&self, dim: Dimension) -> (r: i32)
        ensures
            r == self.coord(dim),
    {
        match dim {
            Dimension::X => self.x,
            Dimension::Y => self.y,
            Dimension::Z => self.z,
        }
    }
}

/// The absolute value of a difference of two coordinates, as an unsigned number.
fn abs_i64(v: i64) -> (r: u128)
    requires
        -0xffff_ffff <= v <= 0xffff_ffff,
    ensures
        r == v || r == -v,
        r <= 0xffff_ffff,
{
    if v < 0 {
        (-v) as u128
    } else {
        v as u128
    }
}

impl PartialEq for Entity {
    fn eq(&self, other: &Entity) -> (r: bool)
        ensures
            r == self.same_body(*other),
    {
        self.x == other.x && self.y == other.y && self.z == other.z && self.radius
            == other.radius && self.mass == other.mass
    }
}

impl vstd::std_specs::cmp::PartialEqSpecImpl for Entity {
    open spec fn obeys_eq_spec() -> bool {
        true
    }

    open spec fn eq_spec(&self, other: &Entity) -> bool {
        self.same_body(*other)
    }
}

/// A type that can present itself as a gravitational body.
///
/// An impl verified with this library defines `entity` to say which body a value presents.
/// An impl written outside verified code cannot define it and keeps the default, one
/// unspecified body for every value; what the library proves about such a type then speaks of
/// that single body, not of what `as_entity` returns at run time.
pub trait AsEntity {
    /// The body that this value presents; by default one unspecified body.
    closed spec fn entity(&self) -> Entity {
        arbitrary()
    }

    /// Returns the body that this value presents.
    fn as_entity(&self) -> (r: Entity)
        ensures
            r == self.entity(),
    ;
}

impl AsEntity for Entity {
    open spec fn entity(&self) -> Entity {
        *self
    }

    fn as_entity(&self) -> (r: Entity) {
        *self
    }
}

} // verus!
