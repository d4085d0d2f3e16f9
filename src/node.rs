use vstd::prelude::*;
use vstd::seq_lib::*;

use crate::aggregates::{
    all_massive, is_max_radius, lemma_moment_within, lemma_sum_bounds, lemma_sum_concat, mass_of, moment_of, moment_sum, total_mass_of,
};
use crate::dimension::Dimension;
use crate::entity::{in_coord_range, AsEntity, Point};
use crate::traversal::referents;
use crate::gravity::{lemma_trunc_div_within, node_mass_bound, trunc_div};
use crate::utilities::{
    coord_of, find_median, is_max_coord, is_min_coord, lemma_extremes_carry, lemma_max_unique,
    lemma_min_unique, lemma_same_elements, max_min_xyz, xyz_distances,
};

verus! {

/// The largest mass a body may have.
pub const MASS_MAX: u64 = 4294967295;

/// The largest magnitude of a single body's mass moment along one axis.
pub const MOMENT_MAX: u128 = 9223372034707292160;

/// What a node holds: bodies (a leaf) or two subtrees split along an axis (internal).
pub enum NodeKind<T> {
    Leaf(Vec<T>),
    Internal {
        split_dimension: Dimension,
        split_value: i32,
        left: Box<Node<T>>,
        right: Box<Node<T>>,
    },
}

/// A node of the k-d tree with the aggregate statistics of the bodies below it.
pub struct Node<T> {
    pub kind: NodeKind<T>,
    /// Sum of mass times x, y and z over the bodies below; divided by `total_mass` it is the
    /// center of mass.
    pub moment: (i128, i128, i128),
    pub total_mass: u128,
    /// Largest radius of a body below.
    pub r_max: u32,
    pub x_min: i32,
    pub x_max: i32,
    pub y_min: i32,
    pub y_max: i32,
    pub z_min: i32,
    pub z_max: i32,
}

/// The axis along which the extents `(x, y, z)` are widest; on a tie z is preferred to y and
/// y to x.
pub open spec fn widest(x: int, y: int, z: int) -> Dimension {
    if z >= y && z >= x {
        Dimension::Z
    } else if y >= x {
        Dimension::Y
    } else {
        Dimension::X
    }
}

/// Returns the axis along which the extents `(x, y, z)` are widest, preferring z, then y,
/// on a tie.
pub fn widest_dimension(x: u64, y: u64, z: u64) -> (r: Dimension)
    ensures
        r == widest(x as int, y as int, z as int),
{
    if z >= y && z >= x {
        Dimension::Z
    } else if y >= x {
        Dimension::Y
    } else {
        Dimension::X
    }
}

/// Bounds on the total mass and the mass moments of any sequence of bodies.
pub proof fn lemma_aggregate_bounds<T: AsEntity>(s: Seq<T>)
    ensures
        0 <= total_mass_of(s) <= s.len() * MASS_MAX,
        -(s.len() * MOMENT_MAX) <= moment_sum(s, Dimension::X) <= s.len() * MOMENT_MAX,
        -(s.len() * MOMENT_MAX) <= moment_sum(s, Dimension::Y) <= s.len() * MOMENT_MAX,
        -(s.len() * MOMENT_MAX) <= moment_sum(s, Dimension::Z) <= s.len() * MOMENT_MAX,
{
    lemma_sum_bounds(s, |t: T| mass_of(t), 0, MASS_MAX as int);
    assert forall|d: Dimension, t: T| -MOMENT_MAX <= #[trigger] moment_of(t, d) <= MOMENT_MAX by {
        let m = mass_of(t);
        let c = coord_of(t, d);
        assert(-MOMENT_MAX <= m * c <= MOMENT_MAX) by (nonlinear_arith)
            requires 0 <= m <= 4294967295, -2147483648 <= c <= 2147483647;
    }
    lemma_sum_bounds(s, |t: T| moment_of(t, Dimension::X), -MOMENT_MAX, MOMENT_MAX as int);
    lemma_sum_bounds(s, |t: T| moment_of(t, Dimension::Y), -MOMENT_MAX, MOMENT_MAX as int);
    lemma_sum_bounds(s, |t: T| moment_of(t, Dimension::Z), -MOMENT_MAX, MOMENT_MAX as int);
    assert(s.len() * -MOMENT_MAX == -(s.len() * MOMENT_MAX)) by (nonlinear_arith);
}

/// Bounds of the aggregates of a sequence no longer than a `Vec` can be.
proof fn lemma_aggregate_fit<T: AsEntity>(s: Seq<T>)
    requires
        s.len() <= usize::MAX,
    ensures
        0 <= total_mass_of(s) <= u128::MAX,
        i128::MIN <= moment_sum(s, Dimension::X) <= i128::MAX,
        i128::MIN <= moment_sum(s, Dimension::Y) <= i128::MAX,
        i128::MIN <= moment_sum(s, Dimension::Z) <= i128::MAX,
{
    lemma_aggregate_bounds(s);
    let n = s.len() as int;
    assert(n * MASS_MAX <= 0xffff_ffff_ffff_ffff * 4294967295) by (nonlinear_arith)
        requires 0 <= n <= 0xffff_ffff_ffff_ffff;
    assert(n * MOMENT_MAX <= 0xffff_ffff_ffff_ffff * 9223372034707292160) by (nonlinear_arith)
        requires 0 <= n <= 0xffff_ffff_ffff_ffff;
}

/// Whether a multiset equality carries positive masses from one sequence to the other.
proof fn lemma_all_massive_permutation<T: AsEntity>(a: Seq<T>, b: Seq<T>)
    requires
        a.to_multiset() == b.to_multiset(),
        all_massive(a),
    ensures
        all_massive(b),
{
    broadcast use to_multiset_contains;

    assert forall|i: int| 0 <= i < b.len() implies (#[trigger] b[i]).entity().mass > 0 by {
        assert(b.contains(b[i]));
        assert(b.to_multiset().count(b[i]) > 0);
        assert(a.to_multiset().count(b[i]) > 0);
        assert(a.contains(b[i]));
        let j = choose|j: int| 0 <= j < a.len() && a[j] == b[i];
        assert(a[j].entity().mass > 0);
    }
}

/// The largest coordinate over a concatenation is the larger of the two parts' largest.
proof fn lemma_concat_max<T: AsEntity>(a: Seq<T>, b: Seq<T>, d: Dimension, ma: int, mb: int)
    requires
        is_max_coord(a, d, ma),
        is_max_coord(b, d, mb),
    ensures
        is_max_coord(a + b, d, if ma >= mb { ma } else { mb }),
{
    let s = a + b;
    let ia = choose|i: int| 0 <= i < a.len() && coord_of(#[trigger] a[i], d) == ma;
    let ib = choose|i: int| 0 <= i < b.len() && coord_of(#[trigger] b[i], d) == mb;
    assert(s[ia] == a[ia]);
    assert(s[a.len() + ib] == b[ib]);
    assert forall|i: int| 0 <= i < s.len() implies coord_of(#[trigger] s[i], d) <= (if ma >= mb { ma } else { mb }) by {
        if i < a.len() {
            assert(s[i] == a[i]);
        } else {
            assert(s[i] == b[i - a.len()]);
        }
    }
}

/// The smallest coordinate over a concatenation is the smaller of the two parts' smallest.
proof fn lemma_concat_min<T: AsEntity>(a: Seq<T>, b: Seq<T>, d: Dimension, ma: int, mb: int)
    requires
        is_min_coord(a, d, ma),
        is_min_coord(b, d, mb),
    ensures
        is_min_coord(a + b, d, if ma <= mb { ma } else { mb }),
{
    let s = a + b;
    let ia = choose|i: int| 0 <= i < a.len() && coord_of(#[trigger] a[i], d) == ma;
    let ib = choose|i: int| 0 <= i < b.len() && coord_of(#[trigger] b[i], d) == mb;
    assert(s[ia] == a[ia]);
    assert(s[a.len() + ib] == b[ib]);
    assert forall|i: int| 0 <= i < s.len() implies (if ma <= mb { ma } else { mb }) <= coord_of(#[trigger] s[i], d) by {
        if i < a.len() {
            assert(s[i] == a[i]);
        } else {
            assert(s[i] == b[i - a.len()]);
        }
    }
}

/// A bound on every coordinate along `d` carries over to a permutation.
proof fn lemma_entities_of_permutation<T: AsEntity>(a: Seq<T>, b: Seq<T>, d: Dimension, v: int, below: bool)
    requires
        a.to_multiset() == b.to_multiset(),
        below ==> forall|i: int| 0 <= i < a.len() ==> coord_of(#[trigger] a[i], d) <= v,
        !below ==> forall|i: int| 0 <= i < a.len() ==> v <= coord_of(#[trigger] a[i], d),
    ensures
        below ==> forall|i: int| 0 <= i < b.len() ==> coord_of(#[trigger] b[i], d) <= v,
        !below ==> forall|i: int| 0 <= i < b.len() ==> v <= coord_of(#[trigger] b[i], d),
{
    broadcast use to_multiset_contains;

    assert forall|i: int| 0 <= i < b.len() implies a.contains(#[trigger] b[i]) by {
        assert(b.contains(b[i]));
        assert(b.to_multiset().count(b[i]) > 0);
        assert(a.to_multiset().count(b[i]) > 0);
    }
}

/// A node taken as one body: its center of mass, its total mass and a radius that covers
/// its bodies.
#[derive(Clone, Copy, Debug, PartialEq, Eq, Structural)]
pub struct Cluster {
    pub x: i64,
    pub y: i64,
    pub z: i64,
    pub mass: u128,
    pub radius: u64,
}

/// Returns `a / b` rounded toward zero.
fn div_toward_zero(a: i128, b: u128) -> (r: i64)
    requires
        b > 0,
        in_coord_range(trunc_div(a as int, b as int)),
    ensures
        r == trunc_div(a as int, b as int),
{
    if a >= 0 {
        ((a as u128) / b) as i64
    } else {
        let n: u128 = (-(a + 1)) as u128 + 1;
        assert(n == -a);
        let q: u128 = n / b;
        -(q as i64)
    }
}

/// A sequence of bodies with positive masses has a positive total mass.
proof fn lemma_sum_positive<T: AsEntity>(s: Seq<T>)
    requires
        s.len() > 0,
        all_massive(s),
    ensures
        total_mass_of(s) > 0,
    decreases s.len(),
{
    let t = s.drop_last();
    assert(s.last() == s[s.len() - 1]);
    assert(mass_of(s.last()) > 0);
    assert(total_mass_of(s) == total_mass_of(t) + mass_of(s.last()));
    if t.len() == 0 {
        assert(total_mass_of(t) == 0);
    } else {
        assert(all_massive(t)) by {
            assert forall|i: int| 0 <= i < t.len() implies (#[trigger] t[i]).entity().mass > 0 by {
                assert(t[i] == s[i]);
            }
        }
        lemma_sum_positive(t);
    }
}

impl<T: AsEntity> Node<T> {
    /// The bodies below this node, leaves read from left to right.
    pub open spec fn entities(self) -> Seq<T>
        decreases self,
    {
        match self.kind {
            NodeKind::Leaf(v) => v@,
            NodeKind::Internal { left, right, .. } => left.entities() + right.entities(),
        }
    }

    /// The node's smallest coordinate along `dim`.
    pub open spec fn min_along(self, dim: Dimension) -> int {
        match dim {
            Dimension::X => self.x_min as int,
            Dimension::Y => self.y_min as int,
            Dimension::Z => self.z_min as int,
        }
    }

    /// The node's largest coordinate along `dim`.
    pub open spec fn max_along(self, dim: Dimension) -> int {
        match dim {
            Dimension::X => self.x_max as int,
            Dimension::Y => self.y_max as int,
            Dimension::Z => self.z_max as int,
        }
    }

    /// The node's mass moment along `dim`.
    pub open spec fn moment_along(self, dim: Dimension) -> int {
        match dim {
            Dimension::X => self.moment.0 as int,
            Dimension::Y => self.moment.1 as int,
            Dimension::Z => self.moment.2 as int,
        }
    }

    /// The aggregates stored in the node are those of the bodies below it.
    pub open spec fn aggregates_hold(self) -> bool {
        let s = self.entities();
        &&& 0 < s.len() <= usize::MAX
        &&& all_massive(s)
        &&& self.total_mass == total_mass_of(s)
        &&& forall|d: Dimension| #[trigger] self.moment_along(d) == moment_sum(s, d)
        &&& forall|d: Dimension| is_max_coord(s, d, #[trigger] self.max_along(d))
        &&& forall|d: Dimension| is_min_coord(s, d, #[trigger] self.min_along(d))
        &&& is_max_radius(s, self.r_max as int)
    }

    /// Well-formedness: the aggregates hold at every node, and an internal node's left bodies
    /// lie at or below its split value along its split axis and its right bodies at or above.
    pub open spec fn wf(self) -> bool
        decreases self,
    {
        &&& self.aggregates_hold()
        &&& match self.kind {
            NodeKind::Leaf(_) => true,
            NodeKind::Internal { split_dimension, split_value, left, right } => {
                &&& left.wf()
                &&& right.wf()
                &&& forall|i: int|
                    0 <= i < left.entities().len() ==> coord_of(
                        #[trigger] left.entities()[i],
                        split_dimension,
                    ) <= split_value
                &&& forall|i: int|
                    0 <= i < right.entities().len() ==> split_value <= coord_of(
                        #[trigger] right.entities()[i],
                        split_dimension,
                    )
            },
        }
    }

    /// The node has the shape that building with leaf capacity `capacity` gives: a leaf holds
    /// at most `capacity` bodies; an internal node holds more, splits along its widest extent
    /// (z preferred on a tie, then y), keeps the lower `len / 2` bodies on the left, and splits
    /// at the smallest coordinate on the right.
    pub open spec fn built_by_rule(self, capacity: nat) -> bool
        decreases self,
    {
        match self.kind {
            NodeKind::Leaf(v) => v@.len() <= capacity,
            NodeKind::Internal { split_dimension, split_value, left, right } => {
                &&& self.entities().len() > capacity
                &&& left.entities().len() == self.entities().len() / 2
                &&& split_dimension == widest(
                    self.x_max - self.x_min,
                    self.y_max - self.y_min,
                    self.z_max - self.z_min,
                )
                &&& is_min_coord(right.entities(), split_dimension, split_value as int)
                &&& left.built_by_rule(capacity)
                &&& right.built_by_rule(capacity)
            },
        }
    }

    /// Builds a leaf over the given bodies.
    pub fn new_leaf(pts: Vec<T>) -> (r: Node<T>)
        requires
            pts@.len() > 0,
            all_massive(pts@),
        ensures
            r.kind == NodeKind::Leaf(pts),
            r.aggregates_hold(),
    {
        let n = pts.len();
        let mut total_mass: u128 = 0;
        let mut mx: i128 = 0;
        let mut my: i128 = 0;
        let mut mz: i128 = 0;
        let mut r_max: u32 = 0;
        let mut i: usize = 0;
        while i < n
            invariant
                n == pts@.len(),
                0 <= i <= n,
                total_mass == total_mass_of(pts@.take(i as int)),
                mx == moment_sum(pts@.take(i as int), Dimension::X),
                my == moment_sum(pts@.take(i as int), Dimension::Y),
                mz == moment_sum(pts@.take(i as int), Dimension::Z),
                forall|k: int| 0 <= k < i ==> (#[trigger] pts@[k]).entity().radius <= r_max,
                i == 0 ==> r_max == 0,
                i > 0 ==> exists|k: int| 0 <= k < i && (#[trigger] pts@[k]).entity().radius == r_max,
            decreases n - i,
        {
            let e = pts[i].as_entity();
            proof {
                let t = pts@.take(i + 1);
                assert(t.drop_last() =~= pts@.take(i as int));
                assert(t.last() == pts@[i as int]);
                assert(e == pts@[i as int].entity());
                lemma_aggregate_fit(t);
                assert(total_mass_of(t) == total_mass + e.mass);
                assert forall|m: int, c: int|
                    0 <= m <= 4294967295 && -2147483648 <= c <= 2147483647 implies -MOMENT_MAX
                        <= #[trigger] (m * c) <= MOMENT_MAX by {
                    assert(-MOMENT_MAX <= m * c <= MOMENT_MAX) by (nonlinear_arith)
                        requires 0 <= m <= 4294967295, -2147483648 <= c <= 2147483647;
                }
                assert(moment_sum(t, Dimension::X) == mx + e.mass * e.x);
                assert(moment_sum(t, Dimension::Y) == my + e.mass * e.y);
                assert(moment_sum(t, Dimension::Z) == mz + e.mass * e.z);
            }
            total_mass = total_mass + e.mass as u128;
            mx = mx + e.mass as i128 * e.x as i128;
            my = my + e.mass as i128 * e.y as i128;
            mz = mz + e.mass as i128 * e.z as i128;
            if e.radius > r_max {
                r_max = e.radius;
            }
            i = i + 1;
        }
        assert(pts@.take(n as int) =~= pts@);
        let (x_max, x_min, y_max, y_min, z_max, z_min) = max_min_xyz(pts.as_slice());
        let r = Node {
            kind: NodeKind::Leaf(pts),
            moment: (mx, my, mz),
            total_mass,
            r_max,
            x_min,
            x_max,
            y_min,
            y_max,
            z_min,
            z_max,
        };
        proof {
            assert(r.entities() == pts@);
            assert forall|d: Dimension| #[trigger] r.moment_along(d) == moment_sum(r.entities(), d) by {
                match d {
                    Dimension::X => {},
                    Dimension::Y => {},
                    Dimension::Z => {},
                }
            }
            assert forall|d: Dimension| is_max_coord(r.entities(), d, #[trigger] r.max_along(d)) by {
                match d {
                    Dimension::X => {},
                    Dimension::Y => {},
                    Dimension::Z => {},
                }
            }
            assert forall|d: Dimension| is_min_coord(r.entities(), d, #[trigger] r.min_along(d)) by {
                match d {
                    Dimension::X => {},
                    Dimension::Y => {},
                    Dimension::Z => {},
                }
            }
        }
        r
    }

    /// Builds an internal node over two subtrees, combining their aggregates: masses and
    /// moments add, extents take the outer bounds, and the radius bound is the larger one.
    pub fn new_internal(
        split_dimension: Dimension,
        split_value: i32,
        left: Node<T>,
        right: Node<T>,
    ) -> (r: Node<T>)
        requires
            left.aggregates_hold(),
            right.aggregates_hold(),
            left.entities().len() + right.entities().len() <= usize::MAX,
        ensures
            r.kind == (NodeKind::Internal {
                split_dimension,
                split_value,
                left: Box::new(left),
                right: Box::new(right),
            }),
            r.entities() == left.entities() + right.entities(),
            r.aggregates_hold(),
    {
        let ghost ls = left.entities();
        let ghost rs = right.entities();
        let ghost s = ls + rs;
        proof {
            lemma_sum_concat(ls, rs, |t: T| mass_of(t));
            lemma_sum_concat(ls, rs, |t: T| moment_of(t, Dimension::X));
            lemma_sum_concat(ls, rs, |t: T| moment_of(t, Dimension::Y));
            lemma_sum_concat(ls, rs, |t: T| moment_of(t, Dimension::Z));
            lemma_aggregate_fit(s);
            assert(left.moment_along(Dimension::X) == moment_sum(ls, Dimension::X));
            assert(left.moment_along(Dimension::Y) == moment_sum(ls, Dimension::Y));
            assert(left.moment_along(Dimension::Z) == moment_sum(ls, Dimension::Z));
            assert(right.moment_along(Dimension::X) == moment_sum(rs, Dimension::X));
            assert(right.moment_along(Dimension::Y) == moment_sum(rs, Dimension::Y));
            assert(right.moment_along(Dimension::Z) == moment_sum(rs, Dimension::Z));
        }
        let total_mass = left.total_mass + right.total_mass;
        let moment = (
            left.moment.0 + right.moment.0,
            left.moment.1 + right.moment.1,
            left.moment.2 + right.moment.2,
        );
        let r_max = if left.r_max >= right.r_max { left.r_max } else { right.r_max };
        let x_min = if left.x_min <= right.x_min { left.x_min } else { right.x_min };
        let x_max = if left.x_max >= right.x_max { left.x_max } else { right.x_max };
        let y_min = if left.y_min <= right.y_min { left.y_min } else { right.y_min };
        let y_max = if left.y_max >= right.y_max { left.y_max } else { right.y_max };
        let z_min = if left.z_min <= right.z_min { left.z_min } else { right.z_min };
        let z_max = if left.z_max >= right.z_max { left.z_max } else { right.z_max };
        let r = Node {
            kind: NodeKind::Internal {
                split_dimension,
                split_value,
                left: Box::new(left),
                right: Box::new(right),
            },
            moment,
            total_mass,
            r_max,
            x_min,
            x_max,
            y_min,
            y_max,
            z_min,
            z_max,
        };
        proof {
            assert(r.entities() == s);
            assert forall|i: int| 0 <= i < s.len() implies (#[trigger] s[i]).entity().mass > 0 by {
                if i < ls.len() {
                    assert(s[i] == ls[i]);
                } else {
                    assert(s[i] == rs[i - ls.len()]);
                }
            }
            assert forall|d: Dimension| #[trigger] r.moment_along(d) == moment_sum(s, d) by {
                match d {
                    Dimension::X => {},
                    Dimension::Y => {},
                    Dimension::Z => {},
                }
            }
            assert forall|d: Dimension| is_max_coord(s, d, #[trigger] r.max_along(d)) by {
                lemma_concat_max(ls, rs, d, left.max_along(d), right.max_along(d));
                match d {
                    Dimension::X => {},
                    Dimension::Y => {},
                    Dimension::Z => {},
                }
            }
            assert forall|d: Dimension| is_min_coord(s, d, #[trigger] r.min_along(d)) by {
                lemma_concat_min(ls, rs, d, left.min_along(d), right.min_along(d));
                match d {
                    Dimension::X => {},
                    Dimension::Y => {},
                    Dimension::Z => {},
                }
            }
            assert(is_max_radius(s, r_max as int)) by {
                let il = choose|i: int| 0 <= i < ls.len() && (#[trigger] ls[i]).entity().radius == left.r_max;
                let ir = choose|i: int| 0 <= i < rs.len() && (#[trigger] rs[i]).entity().radius == right.r_max;
                assert(s[il] == ls[il]);
                assert(s[ls.len() + ir] == rs[ir]);
                assert forall|i: int| 0 <= i < s.len() implies (#[trigger] s[i]).entity().radius <= r_max by {
                    if i < ls.len() {
                        assert(s[i] == ls[i]);
                    } else {
                        assert(s[i] == rs[i - ls.len()]);
                    }
                }
            }
        }
        r
    }

    /// Builds a tree over `pts`: up to `max_entities` bodies make a leaf; more are split at
    /// the median of the widest axis, the lower half going left, and both halves are built
    /// the same way.
    pub fn new_root_node(pts: Vec<T>, max_entities: usize) -> (r: Node<T>)
        requires
            pts@.len() > 0,
            max_entities >= 1,
            all_massive(pts@),
        ensures
            r.wf(),
            r.built_by_rule(max_entities as nat),
            r.entities().to_multiset() == pts@.to_multiset(),
        decreases pts@.len(),
    {
        let n = pts.len();
        if n <= max_entities {
            return Node::new_leaf(pts);
        }
        let ghost input = pts@;
        let (x_range, y_range, z_range) = xyz_distances(pts.as_slice());
        let split_dimension = widest_dimension(x_range, y_range, z_range);
        let mut below = pts;
        let (split_value, split_index) = find_median(split_dimension, &mut below);
        let ghost sorted = below@;
        let above = below.split_off(split_index);
        proof {
            assert(sorted =~= below@ + above@);
            lemma_multiset_commutative(below@, above@);
            lemma_all_massive_permutation(pts@, sorted);
            assert(all_massive(below@)) by {
                assert forall|i: int| 0 <= i < below@.len() implies (#[trigger] below@[i]).entity().mass > 0 by {
                    assert(below@[i] == sorted[i]);
                }
            }
            assert(all_massive(above@)) by {
                assert forall|i: int| 0 <= i < above@.len() implies (#[trigger] above@[i]).entity().mass > 0 by {
                    assert(above@[i] == sorted[i + split_index]);
                }
            }
        }
        let ghost below_view = below@;
        let ghost above_view = above@;
        let left = Node::new_root_node(below, max_entities);
        let right = Node::new_root_node(above, max_entities);
        proof {
            lemma_entities_of_permutation(below_view, left.entities(), split_dimension, split_value as int, true);
            lemma_entities_of_permutation(above_view, right.entities(), split_dimension, split_value as int, false);
            assert forall|i: int| 0 <= i < below_view.len() implies coord_of(#[trigger] below_view[i], split_dimension) <= split_value by {
                assert(below_view[i] == sorted[i]);
            }
            assert forall|i: int| 0 <= i < above_view.len() implies split_value <= coord_of(#[trigger] above_view[i], split_dimension) by {
                assert(above_view[i] == sorted[i + split_index]);
            }
            lemma_multiset_commutative(left.entities(), right.entities());
            assert(left.entities().len() == below_view.len()) by {
                left.entities().to_multiset_ensures();
                below_view.to_multiset_ensures();
            }
            assert(right.entities().len() == above_view.len()) by {
                right.entities().to_multiset_ensures();
                above_view.to_multiset_ensures();
            }
        }
        let r = Node::new_internal(split_dimension, split_value, left, right);
        proof {
            let es = r.entities();
            assert(es.to_multiset() == input.to_multiset()) by {
                lemma_multiset_commutative(below_view, above_view);
            }
            es.to_multiset_ensures();
            input.to_multiset_ensures();
            assert forall|d: Dimension| #[trigger] r.max_along(d) - r.min_along(d) == (match d {
                Dimension::X => x_range as int,
                Dimension::Y => y_range as int,
                Dimension::Z => z_range as int,
            }) by {
                let rng = match d {
                    Dimension::X => x_range as int,
                    Dimension::Y => y_range as int,
                    Dimension::Z => z_range as int,
                };
                let (hi, lo) = choose|hi: int, lo: int|
                    is_max_coord(input, d, hi) && is_min_coord(input, d, lo) && rng == hi - lo;
                lemma_extremes_carry(input, es, d, hi, lo);
                lemma_max_unique(es, d, hi, r.max_along(d));
                lemma_min_unique(es, d, lo, r.min_along(d));
            }
            assert(r.max_along(Dimension::X) - r.min_along(Dimension::X) == x_range);
            assert(r.max_along(Dimension::Y) - r.min_along(Dimension::Y) == y_range);
            assert(r.max_along(Dimension::Z) - r.min_along(Dimension::Z) == z_range);
            let rs = right.entities();
            assert(above_view[0] == sorted[split_index as int]);
            lemma_same_elements(above_view, rs);
            assert(rs.contains(above_view[0]));
        }
        r
    }

    /// The largest of the node's three extents.
    pub open spec fn max_extent(self) -> int {
        let x = self.x_max - self.x_min;
        let y = self.y_max - self.y_min;
        let z = self.z_max - self.z_min;
        if x >= y && x >= z {
            x
        } else if y >= z {
            y
        } else {
            z
        }
    }

    /// The node's center of mass along `dim`, rounded toward zero.
    pub open spec fn com_along(self, dim: Dimension) -> int {
        trunc_div(self.moment_along(dim), self.total_mass as int)
    }

    /// The node's center of mass, rounded toward zero.
    pub open spec fn com(self) -> Point {
        (self.com_along(Dimension::X), self.com_along(Dimension::Y), self.com_along(Dimension::Z))
    }

    /// The node's aggregates fit the bounds that the traversal relies on.
    pub proof fn lemma_node_bounds(self)
        requires
            self.aggregates_hold(),
        ensures
            0 < self.total_mass <= node_mass_bound(),
            forall|d: Dimension| self.min_along(d) <= #[trigger] self.com_along(d) <= self.max_along(d),
            forall|d: Dimension| self.min_along(d) <= #[trigger] self.max_along(d),
    {
        let s = self.entities();
        lemma_aggregate_bounds(s);
        assert(s.len() * MASS_MAX <= node_mass_bound()) by (nonlinear_arith)
            requires 0 <= s.len() <= usize::MAX, usize::MAX <= u64::MAX;
        assert(mass_of(s[0]) > 0);
        lemma_sum_positive(s);
        assert forall|d: Dimension| self.min_along(d) <= #[trigger] self.max_along(d) by {
            assert(coord_of(s[0], d) <= self.max_along(d));
        }
        assert forall|d: Dimension| self.min_along(d) <= #[trigger] self.com_along(d) <= self.max_along(d) by {
            lemma_moment_within(s, d, self.min_along(d), self.max_along(d));
            lemma_trunc_div_within(self.moment_along(d), self.total_mass as int, self.min_along(d), self.max_along(d));
        }
    }

    /// Returns the largest of the node's three extents.
    pub fn max_distance(&self) -> (r: u64)
        requires
            self.aggregates_hold(),
        ensures
            r == self.max_extent(),
            r <= 0xffff_ffff,
    {
        proof {
            self.lemma_node_bounds();
            assert(self.min_along(Dimension::X) <= self.max_along(Dimension::X));
            assert(self.min_along(Dimension::Y) <= self.max_along(Dimension::Y));
            assert(self.min_along(Dimension::Z) <= self.max_along(Dimension::Z));
        }
        let x = (self.x_max as i64 - self.x_min as i64) as u64;
        let y = (self.y_max as i64 - self.y_min as i64) as u64;
        let z = (self.z_max as i64 - self.z_min as i64) as u64;
        if x >= y && x >= z {
            x
        } else if y >= z {
            y
        } else {
            z
        }
    }

    /// Returns the node's center of mass, each coordinate rounded toward zero.
    pub fn center_of_mass(&self) -> (r: (i64, i64, i64))
        requires
            self.aggregates_hold(),
        ensures
            r.0 == self.com_along(Dimension::X),
            r.1 == self.com_along(Dimension::Y),
            r.2 == self.com_along(Dimension::Z),
            in_coord_range(r.0 as int),
            in_coord_range(r.1 as int),
            in_coord_range(r.2 as int),
    {
        proof {
            self.lemma_node_bounds();
            assert(self.min_along(Dimension::X) <= self.com_along(Dimension::X) <= self.max_along(Dimension::X));
            assert(self.min_along(Dimension::Y) <= self.com_along(Dimension::Y) <= self.max_along(Dimension::Y));
            assert(self.min_along(Dimension::Z) <= self.com_along(Dimension::Z) <= self.max_along(Dimension::Z));
        }
        (
            div_toward_zero(self.moment.0, self.total_mass),
            div_toward_zero(self.moment.1, self.total_mass),
            div_toward_zero(self.moment.2, self.total_mass),
        )
    }

    /// Returns the node as a single body for the multipole approximation: at the center of
    /// mass, with the total mass, and with a radius of half the largest extent plus the
    /// largest radius below.
    pub fn as_entity(&self) -> (r: Cluster)
        requires
            self.aggregates_hold(),
        ensures
            (r.x as int, r.y as int, r.z as int) == self.com(),
            r.mass == self.total_mass,
            r.radius == self.max_extent() / 2 + self.r_max,
            r.mass <= node_mass_bound(),
            in_coord_range(r.x as int),
            in_coord_range(r.y as int),
            in_coord_range(r.z as int),
    {
        proof {
            self.lemma_node_bounds();
        }
        let (x, y, z) = self.center_of_mass();
        let radius = self.max_distance() / 2 + self.r_max as u64;
        Cluster { x, y, z, mass: self.total_mass, radius }
    }

    /// Appends a reference to each body below this node, leaves read from left to right.
    fn collect_entities<'a>(&'a self, out: &mut Vec<&'a T>)
        ensures
            referents(final(out)@) == referents(old(out)@) + self.entities(),
        decreases self,
    {
        match &self.kind {
            NodeKind::Leaf(v) => {
                let n = v.len();
                let mut i: usize = 0;
                while i < n
                    invariant
                        n == v@.len(),
                        0 <= i <= n,
                        referents(out@) == referents(old(out)@) + v@.take(i as int),
                    decreases n - i,
                {
                    let ghost before = out@;
                    out.push(&v[i]);
                    proof {
                        assert(referents(out@) =~= referents(before).push(v@[i as int]));
                        assert(v@.take(i + 1) =~= v@.take(i as int).push(v@[i as int]));
                        assert(referents(out@) =~= referents(old(out)@) + v@.take(i + 1));
                    }
                    i = i + 1;
                }
                assert(v@.take(n as int) =~= v@);
            },
            NodeKind::Internal { left, right, .. } => {
                left.collect_entities(out);
                right.collect_entities(out);
                assert(referents(out@) =~= referents(old(out)@) + self.entities());
            },
        }
    }

    /// Returns a reference to each body below this node, leaves read from left to right.
    pub fn traverse_tree_helper(&self) -> (r: Vec<&T>)
        ensures
            referents(r@) == self.entities(),
    {
        let mut out: Vec<&T> = Vec::new();
        self.collect_entities(&mut out);
        assert(referents(Seq::<&T>::empty()) =~= Seq::<T>::empty());
        assert(referents(out@) =~= self.entities());
        out
    }
}

} // verus!
