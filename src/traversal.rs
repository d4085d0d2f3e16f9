use vstd::prelude::*;

use crate::aggregates::{mass_of, sum_over, total_mass_of};
use crate::dimension::Dimension;
use crate::entity::{squared_distance, AsEntity, Entity};
use crate::gravity::{gravitational_acceleration, node_mass_bound, pull, Theta};
use crate::node::{Node, NodeKind};
use crate::simulation_result::{CalculateCollisions, CollisionResult, SimulationResult};

verus! {

/// The values that a sequence of references points to.
pub open spec fn referents<T>(s: Seq<&T>) -> Seq<T> {
    s.map_values(|r: &T| *r)
}

/// The bodies of `s` that `q` overlaps, in their order in `s`.
pub open spec fn overlapping<T: AsEntity>(q: Entity, s: Seq<T>) -> Seq<T>
    decreases s.len(),
{
    if s.len() == 0 {
        Seq::empty()
    } else {
        let found = overlapping(q, s.drop_last());
        if q.overlaps(s.last().entity()) {
            found.push(s.last())
        } else {
            found
        }
    }
}

/// The pull along `dim` of each body of `s` on `q`, summed.
pub open spec fn bodies_pull<T: AsEntity>(q: Entity, s: Seq<T>, dim: Dimension) -> int {
    sum_over(s, |t: T| pull(q.position(), t.entity().position(), t.entity().mass as int, dim))
}

/// Whether the traversal for `q` takes the internal node `n` as one point mass: the squared
/// distance from `q` to its center of mass times θ² exceeds the square of its largest extent.
pub open spec fn accepts_node<T: AsEntity>(q: Entity, n: Node<T>, theta: Theta) -> bool {
    theta.accepts(squared_distance(q.position(), n.com()), n.max_extent())
}

/// The acceleration along `dim` that the traversal for `q` gathers from node `n`, before the
/// final doubling: a leaf adds the pull of each of its bodies; an internal node that θ
/// accepts adds its own pull as one point mass; any other internal node adds what its two
/// children give.
pub open spec fn node_pull<T: AsEntity>(q: Entity, n: Node<T>, theta: Theta, dim: Dimension) -> int
    decreases n,
{
    match n.kind {
        NodeKind::Leaf(v) => bodies_pull(q, v@, dim),
        NodeKind::Internal { left, right, .. } => {
            if accepts_node(q, n, theta) {
                pull(q.position(), n.com(), n.total_mass as int, dim)
            } else {
                node_pull(q, *left, theta, dim) + node_pull(q, *right, theta, dim)
            }
        },
    }
}

/// The bodies that the traversal for `q` reports as overlapping, below node `n`: those of each
/// leaf it reaches, left before right; a node that θ accepts is not searched.
pub open spec fn node_collisions<T: AsEntity>(q: Entity, n: Node<T>, theta: Theta) -> Seq<T>
    decreases n,
{
    match n.kind {
        NodeKind::Leaf(v) => overlapping(q, v@),
        NodeKind::Internal { left, right, .. } => {
            if accepts_node(q, n, theta) {
                Seq::empty()
            } else {
                node_collisions(q, *left, theta) + node_collisions(q, *right, theta)
            }
        },
    }
}

/// Whether `q`'s sphere reaches the sphere that encloses node `n` (its center of mass, with
/// half its largest extent plus its largest radius as radius), `n` not being equal to `q` as a
/// body.
pub open spec fn reaches_node<T: AsEntity>(q: Entity, n: Node<T>) -> bool {
    let radius = n.max_extent() / 2 + n.r_max;
    let same = q.position() == n.com() && q.radius == radius && q.mass == n.total_mass;
    &&& !same
    &&& squared_distance(q.position(), n.com()) <= (q.radius + radius) * (q.radius + radius)
}

/// The bodies that the pruned collision search for `q` reports below node `n`: nothing when
/// `q` does not reach the node's enclosing sphere; otherwise those of a leaf that `q`
/// overlaps, or what the two children give, left before right.
pub open spec fn pruned_collisions<T: AsEntity>(q: Entity, n: Node<T>) -> Seq<T>
    decreases n,
{
    if !reaches_node(q, n) {
        Seq::empty()
    } else {
        match n.kind {
            NodeKind::Leaf(v) => overlapping(q, v@),
            NodeKind::Internal { left, right, .. } => pruned_collisions(q, *left)
                + pruned_collisions(q, *right),
        }
    }
}

/// Collects the pull of the bodies of a leaf on `q`, and the ones `q` overlaps.
fn leaf_acceleration<'a, T: AsEntity>(
    q: &Entity,
    v: &'a Vec<T>,
    with_collisions: bool,
    collisions: &mut Vec<&'a T>,
) -> (r: (i128, i128, i128))
    requires
        v@.len() <= usize::MAX,
        total_mass_of(v@) <= node_mass_bound(),
    ensures
        r.0 == bodies_pull(*q, v@, Dimension::X),
        r.1 == bodies_pull(*q, v@, Dimension::Y),
        r.2 == bodies_pull(*q, v@, Dimension::Z),
        -total_mass_of(v@) <= r.0 <= total_mass_of(v@),
        -total_mass_of(v@) <= r.1 <= total_mass_of(v@),
        -total_mass_of(v@) <= r.2 <= total_mass_of(v@),
        with_collisions ==> referents(final(collisions)@) == referents(old(collisions)@) + overlapping(*q, v@),
        !with_collisions ==> final(collisions)@ == old(collisions)@,
{
    let n = v.len();
    let mut ax: i128 = 0;
    let mut ay: i128 = 0;
    let mut az: i128 = 0;
    let mut i: usize = 0;
    proof {
        lemma_prefix_mass(v@, 0);
    }
    while i < n
        invariant
            n == v@.len(),
            0 <= i <= n,
            total_mass_of(v@) <= node_mass_bound(),
            0 <= total_mass_of(v@.take(i as int)) <= total_mass_of(v@),
            ax == bodies_pull(*q, v@.take(i as int), Dimension::X),
            ay == bodies_pull(*q, v@.take(i as int), Dimension::Y),
            az == bodies_pull(*q, v@.take(i as int), Dimension::Z),
            -total_mass_of(v@.take(i as int)) <= ax <= total_mass_of(v@.take(i as int)),
            -total_mass_of(v@.take(i as int)) <= ay <= total_mass_of(v@.take(i as int)),
            -total_mass_of(v@.take(i as int)) <= az <= total_mass_of(v@.take(i as int)),
            with_collisions ==> referents(collisions@) == referents(old(collisions)@) + overlapping(*q, v@.take(i as int)),
            !with_collisions ==> collisions@ == old(collisions)@,
        decreases n - i,
    {
        let e = v[i].as_entity();
        let a = gravitational_acceleration(q, e.x as i64, e.y as i64, e.z as i64, e.mass as u128);
        proof {
            let t = v@.take(i + 1);
            assert(t.drop_last() =~= v@.take(i as int));
            assert(t.last() == v@[i as int]);
            lemma_prefix_mass(v@, i + 1);
            assert(total_mass_of(t) == total_mass_of(v@.take(i as int)) + e.mass);
        }
        ax = ax + a.0;
        ay = ay + a.1;
        az = az + a.2;
        if with_collisions && q.did_collide_into(&e) {
            let ghost before = collisions@;
            collisions.push(&v[i]);
            proof {
                assert(referents(collisions@) =~= referents(before).push(v@[i as int]));
            }
        }
        i = i + 1;
    }
    assert(v@.take(n as int) =~= v@);
    (ax, ay, az)
}

/// The total mass of a prefix is at most the total mass of the whole.
proof fn lemma_prefix_mass<T: AsEntity>(s: Seq<T>, k: int)
    requires
        0 <= k <= s.len(),
    ensures
        0 <= total_mass_of(s.take(k)) <= total_mass_of(s),
    decreases s.len() - k,
{
    if k < s.len() {
        lemma_prefix_mass(s, k + 1);
        let t = s.take(k + 1);
        assert(t.drop_last() =~= s.take(k));
        assert(total_mass_of(t) == total_mass_of(s.take(k)) + mass_of(t.last()));
        lemma_nonnegative_mass(s.take(k));
    } else {
        assert(s.take(k) =~= s);
        lemma_nonnegative_mass(s);
    }
}

/// A total mass is never negative.
proof fn lemma_nonnegative_mass<T: AsEntity>(s: Seq<T>)
    ensures
        total_mass_of(s) >= 0,
    decreases s.len(),
{
    if s.len() > 0 {
        lemma_nonnegative_mass(s.drop_last());
    }
}

impl Entity {
    /// Gathers the acceleration that node `node` exerts on this body, before the final doubling,
    /// and appends the bodies below it that this body overlaps when `with_collisions` holds.
    fn accumulate<'a, T: AsEntity>(
        &self,
        node: &'a Node<T>,
        theta: Theta,
        with_collisions: bool,
        collisions: &mut Vec<&'a T>,
    ) -> (r: (i128, i128, i128))
        requires
            node.wf(),
        ensures
            r.0 == node_pull(*self, *node, theta, Dimension::X),
            r.1 == node_pull(*self, *node, theta, Dimension::Y),
            r.2 == node_pull(*self, *node, theta, Dimension::Z),
            -node.total_mass <= r.0 <= node.total_mass,
            -node.total_mass <= r.1 <= node.total_mass,
            -node.total_mass <= r.2 <= node.total_mass,
            with_collisions ==> referents(final(collisions)@) == referents(old(collisions)@) + node_collisions(
                *self,
                *node,
                theta,
            ),
            !with_collisions ==> final(collisions)@ == old(collisions)@,
        decreases node,
    {
        proof {
            node.lemma_node_bounds();
        }
        match &node.kind {
            NodeKind::Leaf(v) => leaf_acceleration(self, v, with_collisions, collisions),
            NodeKind::Internal { left, right, .. } => {
                let c = node.as_entity();
                let d2 = self.squared_distance_to(c.x, c.y, c.z);
                if theta.exceeded_by(d2, node.max_distance()) {
                    gravitational_acceleration(self, c.x, c.y, c.z, c.mass)
                } else {
                    proof {
                        assert(node.entities() == left.entities() + right.entities());
                        assert(left.wf() && right.wf());
                        assert(left.aggregates_hold() && right.aggregates_hold());
                        assert(node.total_mass == left.total_mass + right.total_mass) by {
                            crate::aggregates::lemma_sum_concat(
                                left.entities(),
                                right.entities(),
                                |t: T| mass_of(t),
                            );
                        }
                    }
                    let a = self.accumulate(left, theta, with_collisions, collisions);
                    let b = self.accumulate(right, theta, with_collisions, collisions);
                    proof {
                        if with_collisions {
                            assert(referents(collisions@) =~= referents(old(collisions)@) + node_collisions(
                                *self,
                                *node,
                                theta,
                            ));
                        }
                    }
                    (a.0 + b.0, a.1 + b.1, a.2 + b.2)
                }
            },
        }
    }

    /// Returns the acceleration that the tree below `node` exerts on this body, taking a
    /// node as one point mass where θ accepts it, doubled at the end, and the bodies below
    /// `node` that this body overlaps, in the order the traversal meets them.
    pub fn get_acceleration_and_collisions<'a, T: AsEntity>(
        &self,
        node: &'a Node<T>,
        theta: Theta,
    ) -> (r: SimulationResult<'a, T>)
        requires
            node.wf(),
        ensures
            r.gravitational_acceleration.0 == 2 * node_pull(*self, *node, theta, Dimension::X),
            r.gravitational_acceleration.1 == 2 * node_pull(*self, *node, theta, Dimension::Y),
            r.gravitational_acceleration.2 == 2 * node_pull(*self, *node, theta, Dimension::Z),
            referents(r.collisions@) == node_collisions(*self, *node, theta),
    {
        self.simulate(node, theta, CalculateCollisions::Yes)
    }

    /// Returns the acceleration that the tree below `node` exerts on this body, as
    /// `get_acceleration_and_collisions` does, with no collisions.
    pub fn get_acceleration_without_collisions<'a, T: AsEntity>(
        &self,
        node: &'a Node<T>,
        theta: Theta,
    ) -> (r: SimulationResult<'a, T>)
        requires
            node.wf(),
        ensures
            r.gravitational_acceleration.0 == 2 * node_pull(*self, *node, theta, Dimension::X),
            r.gravitational_acceleration.1 == 2 * node_pull(*self, *node, theta, Dimension::Y),
            r.gravitational_acceleration.2 == 2 * node_pull(*self, *node, theta, Dimension::Z),
            r.collisions@.len() == 0,
    {
        self.simulate(node, theta, CalculateCollisions::No)
    }

    /// Returns the doubled acceleration that the tree below `node` exerts on this body, and
    /// the bodies it overlaps when `calculate` asks for them.
    pub fn simulate<'a, T: AsEntity>(
        &self,
        node: &'a Node<T>,
        theta: Theta,
        calculate: CalculateCollisions,
    ) -> (r: SimulationResult<'a, T>)
        requires
            node.wf(),
        ensures
            r.gravitational_acceleration.0 == 2 * node_pull(*self, *node, theta, Dimension::X),
            r.gravitational_acceleration.1 == 2 * node_pull(*self, *node, theta, Dimension::Y),
            r.gravitational_acceleration.2 == 2 * node_pull(*self, *node, theta, Dimension::Z),
            calculate == CalculateCollisions::Yes ==> referents(r.collisions@) == node_collisions(
                *self,
                *node,
                theta,
            ),
            calculate == CalculateCollisions::No ==> r.collisions@.len() == 0,
    {
        let mut collisions: Vec<&'a T> = Vec::new();
        let with_collisions = match calculate {
            CalculateCollisions::Yes => true,
            CalculateCollisions::No => false,
        };
        let a = self.accumulate(node, theta, with_collisions, &mut collisions);
        proof {
            node.lemma_node_bounds();
            if with_collisions {
                assert(referents(Seq::<&T>::empty()) =~= Seq::<T>::empty());
                assert(referents(collisions@) =~= node_collisions(*self, *node, theta));
            }
        }
        SimulationResult {
            collisions,
            gravitational_acceleration: (a.0 + a.0, a.1 + a.1, a.2 + a.2),
        }
    }

    /// Returns whether this body's sphere reaches the sphere that encloses `node`.
    fn reaches<T: AsEntity>(&self, node: &Node<T>) -> (r: bool)
        requires
            node.wf(),
        ensures
            r == reaches_node(*self, *node),
    {
        let c = node.as_entity();
        if c.x == self.x as i64 && c.y == self.y as i64 && c.z == self.z as i64 && c.radius
            == self.radius as u64 && c.mass == self.mass as u128 {
            return false;
        }
        let d2 = self.squared_distance_to(c.x, c.y, c.z);
        proof {
            node.lemma_node_bounds();
        }
        let reach: u128 = self.radius as u128 + c.radius as u128;
        proof {
            assert(reach * reach <= 0x4_0000_0000 * 0x4_0000_0000) by (nonlinear_arith)
                requires reach <= 0x4_0000_0000;
        }
        d2 <= reach * reach
    }

    /// Appends the bodies below `node` that this body overlaps, searching only the nodes whose
    /// enclosing sphere this body reaches.
    fn collect_collisions<'a, T: AsEntity>(&self, node: &'a Node<T>, out: &mut Vec<&'a T>)
        requires
            node.wf(),
        ensures
            referents(final(out)@) == referents(old(out)@) + pruned_collisions(*self, *node),
        decreases node,
    {
        if !self.reaches(node) {
            assert(referents(out@) =~= referents(old(out)@) + Seq::<T>::empty());
            return;
        }
        match &node.kind {
            NodeKind::Leaf(v) => {
                let n = v.len();
                let mut i: usize = 0;
                while i < n
                    invariant
                        n == v@.len(),
                        0 <= i <= n,
                        referents(out@) == referents(old(out)@) + overlapping(*self, v@.take(i as int)),
                    decreases n - i,
                {
                    let e = v[i].as_entity();
                    proof {
                        let t = v@.take(i + 1);
                        assert(t.drop_last() =~= v@.take(i as int));
                        assert(t.last() == v@[i as int]);
                    }
                    if self.did_collide_into(&e) {
                        let ghost before = out@;
                        out.push(&v[i]);
                        proof {
                            assert(referents(out@) =~= referents(before).push(v@[i as int]));
                        }
                    }
                    i = i + 1;
                }
                assert(v@.take(n as int) =~= v@);
            },
            NodeKind::Internal { left, right, .. } => {
                self.collect_collisions(left, out);
                self.collect_collisions(right, out);
                assert(referents(out@) =~= referents(old(out)@) + pruned_collisions(*self, *node));
            },
        }
    }

    /// Returns the bodies below `node` that this body overlaps, searching only the nodes whose
    /// enclosing sphere this body reaches; the enclosing sphere may leave out a body, so this
    /// search can miss overlaps that the full traversal reports.
    pub fn collide<'a, T: AsEntity>(&self, node: &'a Node<T>) -> (r: CollisionResult<'a, T>)
        requires
            node.wf(),
        ensures
            referents(r.collisions@) == pruned_collisions(*self, *node),
    {
        let mut collisions: Vec<&'a T> = Vec::new();
        self.collect_collisions(node, &mut collisions);
        assert(referents(Seq::<&T>::empty()) =~= Seq::<T>::empty());
        assert(referents(collisions@) =~= pruned_collisions(*self, *node));
        CollisionResult { collisions }
    }
}

} // verus!
