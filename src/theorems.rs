use vstd::prelude::*;
use vstd::seq_lib::*;

use crate::aggregates::{
    all_massive, is_max_radius, lemma_sum_concat, lemma_sum_permutation, mass_of, moment_sum,
    total_mass_of,
};
use crate::dimension::Dimension;
use crate::entity::{AsEntity, Entity};
use crate::gravity::{pull, trunc_div, Theta};
use crate::grav_tree::GravTree;
use crate::node::{Node, NodeKind};
use crate::responsive::Responsive;
use crate::traversal::{
    accepts_node, bodies_pull, node_collisions, node_pull, overlapping, pruned_collisions,
    reaches_node,
};
use crate::utilities::{
    coord_of, is_max_coord, is_min_coord, lemma_max_unique, lemma_min_unique, lemma_same_elements,
};

verus! {

/// Largest and smallest coordinates, and the largest radius, do not depend on order.
proof fn lemma_extremes_permutation<T: AsEntity>(a: Seq<T>, b: Seq<T>, d: Dimension, hi: int, lo: int, r: int)
    requires
        a.to_multiset() == b.to_multiset(),
        is_max_coord(a, d, hi),
        is_min_coord(a, d, lo),
        is_max_radius(a, r),
    ensures
        is_max_coord(b, d, hi),
        is_min_coord(b, d, lo),
        is_max_radius(b, r),
{
    lemma_same_elements(a, b);
    assert forall|i: int| 0 <= i < b.len() implies coord_of(#[trigger] b[i], d) <= hi && lo
        <= coord_of(b[i], d) && b[i].entity().radius <= r by {
        assert(a.contains(b[i]));
    }
    let ih = choose|i: int| 0 <= i < a.len() && coord_of(#[trigger] a[i], d) == hi;
    let il = choose|i: int| 0 <= i < a.len() && coord_of(#[trigger] a[i], d) == lo;
    let ir = choose|i: int| 0 <= i < a.len() && (#[trigger] a[i]).entity().radius == r;
    assert(b.contains(a[ih]));
    assert(b.contains(a[il]));
    assert(b.contains(a[ir]));
}

/// The total mass at the root of a tree equals the sum of the masses of the bodies it was
/// built from.
pub proof fn lemma_mass_conservation<T: AsEntity>(tree: GravTree<T>, bodies: Seq<T>)
    requires
        tree.wf(),
        tree.entities().to_multiset() == bodies.to_multiset(),
    ensures
        tree.root matches Some(root) ==> root.total_mass == total_mass_of(bodies),
        tree.root is None ==> bodies.len() == 0,
{
    lemma_sum_permutation(tree.entities(), bodies, |t: T| mass_of(t));
    bodies.to_multiset_ensures();
    tree.entities().to_multiset_ensures();
}

/// The root of a tree holds, along each axis, the sum of mass times coordinate over the bodies
/// it was built from, so its center of mass is that sum over the total mass (rounded toward
/// zero).
pub proof fn lemma_center_of_mass<T: AsEntity>(tree: GravTree<T>, bodies: Seq<T>, d: Dimension)
    requires
        tree.wf(),
        tree.entities().to_multiset() == bodies.to_multiset(),
        tree.root is Some,
    ensures
        tree.root.unwrap().moment_along(d) == moment_sum(bodies, d),
        tree.root.unwrap().com_along(d) == trunc_div(moment_sum(bodies, d), total_mass_of(bodies)),
{
    lemma_mass_conservation(tree, bodies);
    lemma_sum_permutation(tree.entities(), bodies, |t: T| crate::aggregates::moment_of(t, d));
}

/// Flattening a tree gives back the bodies it was built from, each as often as it was given,
/// and the tree's count, the number of bodies given and the length of the flattening agree.
pub proof fn lemma_flatten_is_permutation<T: AsEntity>(tree: GravTree<T>, bodies: Seq<T>)
    requires
        tree.wf(),
        tree.entities().to_multiset() == bodies.to_multiset(),
    ensures
        forall|b: T| tree.entities().to_multiset().count(b) == bodies.to_multiset().count(b),
        tree.number_of_entities == bodies.len(),
        tree.entities().len() == bodies.len(),
{
    bodies.to_multiset_ensures();
    tree.entities().to_multiset_ensures();
}

/// Every body lies within the root's extents, and those extents are the smallest and largest
/// coordinates of the bodies the tree was built from.
pub proof fn lemma_extents_tight<T: AsEntity>(tree: GravTree<T>, bodies: Seq<T>, d: Dimension)
    requires
        tree.wf(),
        tree.entities().to_multiset() == bodies.to_multiset(),
        tree.root is Some,
    ensures
        is_max_coord(bodies, d, tree.root.unwrap().max_along(d)),
        is_min_coord(bodies, d, tree.root.unwrap().min_along(d)),
        is_max_radius(bodies, tree.root.unwrap().r_max as int),
        forall|i: int|
            0 <= i < bodies.len() ==> tree.root.unwrap().min_along(d) <= coord_of(
                #[trigger] bodies[i],
                d,
            ) <= tree.root.unwrap().max_along(d),
{
    let root = tree.root.unwrap();
    assert(is_max_coord(root.entities(), d, root.max_along(d)));
    assert(is_min_coord(root.entities(), d, root.min_along(d)));
    lemma_extremes_permutation(
        root.entities(),
        bodies,
        d,
        root.max_along(d),
        root.min_along(d),
        root.r_max as int,
    );
}

/// Two trees over the same bodies, in whatever order, have the same aggregates at the root:
/// rebuilding a tree from its own flattening changes none of them.
pub proof fn lemma_rebuild_same_aggregates<T: AsEntity>(first: GravTree<T>, second: GravTree<T>)
    requires
        first.wf(),
        second.wf(),
        first.entities().to_multiset() == second.entities().to_multiset(),
    ensures
        first.root is Some <==> second.root is Some,
        first.root is Some ==> {
            let a = first.root.unwrap();
            let b = second.root.unwrap();
            &&& a.total_mass == b.total_mass
            &&& a.moment == b.moment
            &&& a.r_max == b.r_max
            &&& a.x_min == b.x_min && a.x_max == b.x_max
            &&& a.y_min == b.y_min && a.y_max == b.y_max
            &&& a.z_min == b.z_min && a.z_max == b.z_max
        },
{
    first.entities().to_multiset_ensures();
    second.entities().to_multiset_ensures();
    if first.root is Some {
        let a = first.root.unwrap();
        let b = second.root.unwrap();
        let s = a.entities();
        let t = b.entities();
        lemma_sum_permutation(s, t, |e: T| mass_of(e));
        lemma_sum_permutation(s, t, |e: T| crate::aggregates::moment_of(e, Dimension::X));
        lemma_sum_permutation(s, t, |e: T| crate::aggregates::moment_of(e, Dimension::Y));
        lemma_sum_permutation(s, t, |e: T| crate::aggregates::moment_of(e, Dimension::Z));
        assert(a.moment_along(Dimension::X) == b.moment_along(Dimension::X));
        assert(a.moment_along(Dimension::Y) == b.moment_along(Dimension::Y));
        assert(a.moment_along(Dimension::Z) == b.moment_along(Dimension::Z));
        assert forall|d: Dimension| a.max_along(d) == b.max_along(d) && a.min_along(d) == b.min_along(d) && a.r_max == b.r_max by {
            assert(is_max_coord(s, d, a.max_along(d)));
            assert(is_min_coord(s, d, a.min_along(d)));
            assert(is_max_coord(t, d, b.max_along(d)));
            assert(is_min_coord(t, d, b.min_along(d)));
            lemma_extremes_permutation(s, t, d, a.max_along(d), a.min_along(d), a.r_max as int);
            lemma_max_unique(t, d, a.max_along(d), b.max_along(d));
            lemma_min_unique(t, d, a.min_along(d), b.min_along(d));
            let i = choose|i: int| 0 <= i < t.len() && (#[trigger] t[i]).entity().radius == a.r_max;
            let j = choose|j: int| 0 <= j < t.len() && (#[trigger] t[j]).entity().radius == b.r_max;
        }
        assert(a.max_along(Dimension::X) == b.max_along(Dimension::X));
        assert(a.min_along(Dimension::X) == b.min_along(Dimension::X));
        assert(a.max_along(Dimension::Y) == b.max_along(Dimension::Y));
        assert(a.min_along(Dimension::Y) == b.min_along(Dimension::Y));
        assert(a.max_along(Dimension::Z) == b.max_along(Dimension::Z));
        assert(a.min_along(Dimension::Z) == b.min_along(Dimension::Z));
    }
}

/// The bodies that overlap `q` in a concatenation are those of each part.
proof fn lemma_overlapping_concat<T: AsEntity>(q: Entity, a: Seq<T>, b: Seq<T>)
    ensures
        overlapping(q, a + b) == overlapping(q, a) + overlapping(q, b),
    decreases b.len(),
{
    if b.len() == 0 {
        assert(a + b =~= a);
        assert(overlapping(q, a) + overlapping(q, b) =~= overlapping(q, a));
    } else {
        assert((a + b).drop_last() =~= a + b.drop_last());
        lemma_overlapping_concat(q, a, b.drop_last());
        if q.overlaps(b.last().entity()) {
            assert(overlapping(q, a + b) =~= overlapping(q, a) + overlapping(q, b));
        } else {
            assert(overlapping(q, a + b) =~= overlapping(q, a) + overlapping(q, b));
        }
    }
}

/// With θ zero no node is approximated: the traversal adds the pull of every body below the
/// node and reports every body below it that `q` overlaps.
pub proof fn lemma_exact_without_approximation<T: AsEntity>(q: Entity, n: Node<T>, theta: Theta, d: Dimension)
    requires
        n.wf(),
        theta.numerator == 0,
    ensures
        node_pull(q, n, theta, d) == bodies_pull(q, n.entities(), d),
        node_collisions(q, n, theta) == overlapping(q, n.entities()),
    decreases n,
{
    match n.kind {
        NodeKind::Leaf(_) => {},
        NodeKind::Internal { left, right, .. } => {
            let s = n.max_extent();
            let den = theta.denominator as int;
            let d2 = crate::entity::squared_distance(q.position(), n.com());
            let num = theta.numerator as int;
            assert(s * s * (den * den) >= 0) by (nonlinear_arith);
            assert(d2 * (num * num) == 0) by (nonlinear_arith)
                requires num == 0;
            assert(!accepts_node(q, n, theta));
            lemma_exact_without_approximation(q, *left, theta, d);
            lemma_exact_without_approximation(q, *right, theta, d);
            lemma_sum_concat(
                left.entities(),
                right.entities(),
                |t: T| pull(q.position(), t.entity().position(), t.entity().mass as int, d),
            );
            lemma_overlapping_concat(q, left.entities(), right.entities());
        },
    }
}

/// Every body that the traversal reports for `q` overlaps `q`; in particular none is equal to
/// `q` as a body.
pub proof fn lemma_no_self_collision<T: AsEntity>(q: Entity, n: Node<T>, theta: Theta)
    ensures
        forall|i: int|
            0 <= i < node_collisions(q, n, theta).len() ==> q.overlaps(
                (#[trigger] node_collisions(q, n, theta)[i]).entity(),
            ),
        forall|i: int|
            0 <= i < node_collisions(q, n, theta).len() ==> !q.same_body(
                (#[trigger] node_collisions(q, n, theta)[i]).entity(),
            ),
    decreases n,
{
    match n.kind {
        NodeKind::Leaf(v) => {
            lemma_overlapping_overlap(q, v@);
        },
        NodeKind::Internal { left, right, .. } => {
            lemma_no_self_collision(q, *left, theta);
            lemma_no_self_collision(q, *right, theta);
            if !accepts_node(q, n, theta) {
                let l = node_collisions(q, *left, theta);
                let r = node_collisions(q, *right, theta);
                assert forall|i: int| 0 <= i < (l + r).len() implies q.overlaps((#[trigger] (l + r)[i]).entity()) by {
                    if i < l.len() {
                        assert((l + r)[i] == l[i]);
                    } else {
                        assert((l + r)[i] == r[i - l.len()]);
                    }
                }
            }
        },
    }
}

/// Every body of `overlapping(q, s)` overlaps `q`.
proof fn lemma_overlapping_overlap<T: AsEntity>(q: Entity, s: Seq<T>)
    ensures
        forall|i: int| 0 <= i < overlapping(q, s).len() ==> q.overlaps((#[trigger] overlapping(q, s)[i]).entity()),
    decreases s.len(),
{
    if s.len() > 0 {
        lemma_overlapping_overlap(q, s.drop_last());
        let found = overlapping(q, s.drop_last());
        if q.overlaps(s.last().entity()) {
            assert forall|i: int| 0 <= i < overlapping(q, s).len() implies q.overlaps((#[trigger] overlapping(q, s)[i]).entity()) by {
                if i < found.len() {
                    assert(overlapping(q, s)[i] == found[i]);
                }
            }
        }
    }
}

/// The pull of a point mass on a body is the exact opposite of the pull of the same mass at
/// the mirrored offset.
proof fn lemma_pull_antisymmetric(a: Entity, b: Entity, m: int, d: Dimension)
    requires
        b.x == -a.x,
        b.y == -a.y,
        b.z == -a.z,
        m >= 0,
    ensures
        pull(a.position(), b.position(), m, d) == -pull(b.position(), a.position(), m, d),
{
    let (ax, ay, az) = (a.x as int, a.y as int, a.z as int);
    let (bx, by, bz) = (b.x as int, b.y as int, b.z as int);
    let d2 = crate::entity::squared_distance(a.position(), b.position());
    assert(d2 == crate::entity::squared_distance(b.position(), a.position())) by (nonlinear_arith)
        requires
            d2 == (bx - ax) * (bx - ax) + (by - ay) * (by - ay) + (bz - az) * (bz - az),
            crate::entity::squared_distance(b.position(), a.position()) == (ax - bx) * (ax - bx) + (ay
                - by) * (ay - by) + (az - bz) * (az - bz);
    assert(d2 >= 0) by (nonlinear_arith)
        requires d2 == (bx - ax) * (bx - ax) + (by - ay) * (by - ay) + (bz - az) * (bz - az);
    if d2 != 0 {
        let pa = crate::entity::point_coord(a.position(), d);
        let pb = crate::entity::point_coord(b.position(), d);
        let x = (pb - pa) * m;
        let y = (pa - pb) * m;
        assert(y == -x) by (nonlinear_arith)
            requires x == (pb - pa) * m, y == (pa - pb) * m;
        lemma_trunc_div_odd(x, d2);
    }
}

/// Rounding toward zero makes division odd in the dividend.
proof fn lemma_trunc_div_odd(x: int, b: int)
    requires
        b > 0,
    ensures
        trunc_div(-x, b) == -trunc_div(x, b),
{
    if x == 0 {
        assert(0int / b == 0);
    }
}

/// Two bodies of equal mass placed symmetrically about the origin, alone in a tree whose θ is
/// zero, receive accelerations of equal size and opposite sign.
pub proof fn lemma_pairwise_symmetry<T: AsEntity>(tree: GravTree<T>, a: T, b: T, d: Dimension)
    requires
        tree.wf(),
        tree.theta.numerator == 0,
        tree.entities().to_multiset() == seq![a, b].to_multiset(),
        a.entity().mass == b.entity().mass,
        b.entity().x == -a.entity().x,
        b.entity().y == -a.entity().y,
        b.entity().z == -a.entity().z,
    ensures
        tree.acceleration_on(a.entity()) == (
            -tree.acceleration_on(b.entity()).0,
            -tree.acceleration_on(b.entity()).1,
            -tree.acceleration_on(b.entity()).2,
        ),
{
    let pair = seq![a, b];
    tree.entities().to_multiset_ensures();
    pair.to_multiset_ensures();
    let root = tree.root.unwrap();
    let ea = a.entity();
    let eb = b.entity();
    assert forall|dim: Dimension| #[trigger] node_pull(ea, root, tree.theta, dim) == -node_pull(eb, root, tree.theta, dim) by {
        lemma_exact_without_approximation(ea, root, tree.theta, dim);
        lemma_exact_without_approximation(eb, root, tree.theta, dim);
        let fa = |t: T| pull(ea.position(), t.entity().position(), t.entity().mass as int, dim);
        let fb = |t: T| pull(eb.position(), t.entity().position(), t.entity().mass as int, dim);
        lemma_sum_permutation(root.entities(), pair, fa);
        lemma_sum_permutation(root.entities(), pair, fb);
        assert(pair.drop_last() =~= seq![a]);
        assert(seq![a].drop_last() =~= Seq::<T>::empty());
        assert(pair.last() == b);
        assert(seq![a].last() == a);
        assert(crate::aggregates::sum_over(Seq::<T>::empty(), fa) == 0);
        assert(crate::aggregates::sum_over(seq![a], fa) == fa(a));
        assert(crate::aggregates::sum_over(pair, fa) == fa(a) + fa(b));
        assert(crate::aggregates::sum_over(Seq::<T>::empty(), fb) == 0);
        assert(crate::aggregates::sum_over(seq![a], fb) == fb(a));
        assert(crate::aggregates::sum_over(pair, fb) == fb(a) + fb(b));
        assert(fa(a) == 0);
        assert(fb(b) == 0);
        lemma_pull_antisymmetric(ea, eb, eb.mass as int, dim);
    }
    assert(node_pull(ea, root, tree.theta, Dimension::X) == -node_pull(eb, root, tree.theta, Dimension::X));
    assert(node_pull(ea, root, tree.theta, Dimension::Y) == -node_pull(eb, root, tree.theta, Dimension::Y));
    assert(node_pull(ea, root, tree.theta, Dimension::Z) == -node_pull(eb, root, tree.theta, Dimension::Z));
}

/// When every response keeps the mass of the body, one step keeps the total mass of the
/// tree.
pub proof fn lemma_step_conserves_mass<T: AsEntity + Responsive>(tree: GravTree<T>, next: GravTree<T>)
    requires
        tree.wf(),
        next.entities().to_multiset() == tree.next_states().to_multiset(),
        forall|b: T, acc: (int, int, int), found: Seq<T>, dt: u32|
            (#[trigger] b.response(acc, found, dt)).entity().mass == b.entity().mass,
    ensures
        total_mass_of(next.entities()) == total_mass_of(tree.entities()),
{
    let f = |t: T| mass_of(t);
    lemma_sum_permutation(next.entities(), tree.next_states(), f);
    lemma_sum_map_same(tree, tree.entities());
}

/// Summing masses over the responses of a sequence of bodies gives the sum over the bodies
/// when every response keeps the mass.
proof fn lemma_sum_map_same<T: AsEntity + Responsive>(tree: GravTree<T>, s: Seq<T>)
    requires
        forall|b: T, acc: (int, int, int), found: Seq<T>, dt: u32|
            (#[trigger] b.response(acc, found, dt)).entity().mass == b.entity().mass,
    ensures
        total_mass_of(
            s.map_values(
                |b: T|
                    b.response(
                        tree.acceleration_on(b.entity()),
                        tree.collisions_of(b.entity()),
                        tree.time_step,
                    ),
            ),
        ) == total_mass_of(s),
    decreases s.len(),
{
    let g = |b: T|
        b.response(tree.acceleration_on(b.entity()), tree.collisions_of(b.entity()), tree.time_step);
    if s.len() > 0 {
        lemma_sum_map_same(tree, s.drop_last());
        assert(s.map_values(g).drop_last() =~= s.drop_last().map_values(g));
        assert(s.map_values(g).last() == g(s.last()));
    } else {
        assert(s.map_values(g) =~= Seq::<T>::empty());
    }
}

/// The default response of `Entity` keeps mass, so a step of a tree of entities keeps the
/// total mass.
pub proof fn lemma_entity_step_conserves_mass(tree: GravTree<Entity>, next: GravTree<Entity>)
    requires
        tree.wf(),
        next.entities().to_multiset() == tree.next_states().to_multiset(),
    ensures
        total_mass_of(next.entities()) == total_mass_of(tree.entities()),
{
    lemma_step_conserves_mass(tree, next);
}


/// Every body that the pruned collision search reports for `q` overlaps `q`, so none is equal
/// to `q` as a body.
pub proof fn lemma_pruned_collisions_sound<T: AsEntity>(q: Entity, n: Node<T>)
    ensures
        forall|i: int|
            0 <= i < pruned_collisions(q, n).len() ==> q.overlaps(
                (#[trigger] pruned_collisions(q, n)[i]).entity(),
            ),
    decreases n,
{
    if reaches_node(q, n) {
        match n.kind {
            NodeKind::Leaf(v) => {
                lemma_overlapping_overlap(q, v@);
            },
            NodeKind::Internal { left, right, .. } => {
                lemma_pruned_collisions_sound(q, *left);
                lemma_pruned_collisions_sound(q, *right);
                let l = pruned_collisions(q, *left);
                let r = pruned_collisions(q, *right);
                assert forall|i: int| 0 <= i < (l + r).len() implies q.overlaps((#[trigger] (l + r)[i]).entity()) by {
                    if i < l.len() {
                        assert((l + r)[i] == l[i]);
                    } else {
                        assert((l + r)[i] == r[i - l.len()]);
                    }
                }
            },
        }
    }
}


/// Stepping equal trees gives trees with the same bodies, each as often, and the same
/// aggregates at the root.
pub proof fn lemma_step_same_bodies<T: AsEntity + Responsive>(
    first: GravTree<T>,
    second: GravTree<T>,
    first_next: GravTree<T>,
    second_next: GravTree<T>,
)
    requires
        first == second,
        first.wf(),
        first_next.wf(),
        second_next.wf(),
        first_next.entities().to_multiset() == first.next_states().to_multiset(),
        second_next.entities().to_multiset() == second.next_states().to_multiset(),
    ensures
        first_next.entities().to_multiset() == second_next.entities().to_multiset(),
        first_next.root is Some <==> second_next.root is Some,
        first_next.root is Some ==> {
            let a = first_next.root.unwrap();
            let b = second_next.root.unwrap();
            &&& a.total_mass == b.total_mass
            &&& a.moment == b.moment
            &&& a.r_max == b.r_max
        },
{
    lemma_rebuild_same_aggregates(first_next, second_next);
}

} // verus!
