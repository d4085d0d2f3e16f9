use bigbang::collisions::{isqrt, soft_body};
use bigbang::{
    find_median, gravitational_acceleration, max_min, max_min_xyz, widest_dimension,
    xyz_distances, AsEntity, CalculateCollisions, Dimension, Entity, GravTree, Node, NodeKind,
    Responsive, SimulationResult, Theta, TreeError,
};

fn body(x: i32, y: i32, z: i32, radius: u32, mass: u32) -> Entity {
    Entity { vx: 0, vy: 0, vz: 0, x, y, z, radius, mass }
}

fn theta() -> Theta {
    Theta { numerator: 1, denominator: 5 }
}

fn exact() -> Theta {
    Theta { numerator: 0, denominator: 1 }
}

fn random_body() -> Entity {
    Entity {
        vx: (rand::random::<u32>() % 21) as i32 - 10,
        vy: (rand::random::<u32>() % 21) as i32 - 10,
        vz: (rand::random::<u32>() % 21) as i32 - 10,
        x: (rand::random::<u32>() % 100_000) as i32 - 50_000,
        y: (rand::random::<u32>() % 100_000) as i32 - 50_000,
        z: (rand::random::<u32>() % 100_000) as i32 - 50_000,
        radius: rand::random::<u32>() % 500,
        mass: rand::random::<u32>() % 1000 + 1,
    }
}

fn key(e: &Entity) -> (i32, i32, i32, i32, i32, i32, u32, u32) {
    (e.x, e.y, e.z, e.vx, e.vy, e.vz, e.radius, e.mass)
}

fn sorted_keys(v: &[Entity]) -> Vec<(i32, i32, i32, i32, i32, i32, u32, u32)> {
    let mut k: Vec<_> = v.iter().map(key).collect();
    k.sort();
    k
}

fn random_bodies(n: usize) -> Vec<Entity> {
    (0..n).map(|_| random_body()).collect()
}

#[test]
fn dimension_names() {
    assert_eq!(Dimension::X.as_string(), "X");
    assert_eq!(Dimension::Y.as_string(), "Y");
    assert_eq!(Dimension::Z.as_string(), "Z");
}

#[test]
fn empty_tree_steps_to_empty_tree() {
    let tree: GravTree<Entity> = GravTree::new(Vec::new(), 1, 3, theta()).unwrap();
    assert_eq!(tree.get_number_of_entities(), 0);
    assert!(tree.root.is_none());
    let next = tree.time_step().unwrap();
    assert_eq!(next.get_number_of_entities(), 0);
    assert_eq!(next.as_vec().len(), 0);
}

#[test]
fn invalid_parameters_are_rejected() {
    let good = vec![body(0, 0, 0, 1, 1)];
    assert_eq!(GravTree::new(good.clone(), 0, 3, theta()).err(), Some(TreeError::InvalidTimeStep));
    assert_eq!(GravTree::new(good.clone(), 1, 0, theta()).err(), Some(TreeError::InvalidLeafCapacity));
    assert_eq!(
        GravTree::new(good.clone(), 1, 3, Theta { numerator: 1, denominator: 0 }).err(),
        Some(TreeError::InvalidTheta)
    );
    let zero_mass = vec![body(0, 0, 0, 1, 1), body(5, 0, 0, 1, 0)];
    assert_eq!(GravTree::new(zero_mass, 1, 3, theta()).err(), Some(TreeError::InvalidMass));
    // The time step is checked first.
    assert_eq!(
        GravTree::new(vec![body(0, 0, 0, 1, 0)], 0, 0, theta()).err(),
        Some(TreeError::InvalidTimeStep)
    );
    assert!(GravTree::new(good, 1, 3, theta()).is_ok());
}

#[test]
fn distant_bodies_do_not_collide() {
    let bodies = vec![body(0, 1000, 0, 10, 5), body(0, 0, 1, 10, 5)];
    let tree = GravTree::new(bodies.clone(), 1, 3, theta()).unwrap();
    let root = tree.root.as_ref().unwrap();
    for b in &bodies {
        let found = b.get_acceleration_and_collisions(root, theta());
        assert_eq!(found.collisions.len(), 0);
    }
}

#[test]
fn overlapping_pair_collides_once_each() {
    let bodies = vec![body(0, 0, 0, 10, 5), body(0, 0, 1, 10, 5)];
    let tree = GravTree::new(bodies.clone(), 1, 3, theta()).unwrap();
    let root = tree.root.as_ref().unwrap();
    let first = bodies[0].get_acceleration_and_collisions(root, theta());
    assert_eq!(first.collisions.len(), 1);
    assert_eq!(key(first.collisions[0]), key(&bodies[1]));
    let second = bodies[1].get_acceleration_and_collisions(root, theta());
    assert_eq!(second.collisions.len(), 1);
    assert_eq!(key(second.collisions[0]), key(&bodies[0]));
}

#[test]
fn five_overlapping_bodies_collide_with_all_others() {
    let bodies = vec![
        body(0, 0, 0, 10, 5),
        body(0, 1, 0, 10, 5),
        body(1, 0, 0, 10, 5),
        body(1, 1, 1, 10, 5),
        body(0, 1, 1, 10, 5),
    ];
    let tree = GravTree::new(bodies.clone(), 1, 3, theta()).unwrap();
    let root = tree.root.as_ref().unwrap();
    for b in &bodies {
        let found = b.get_acceleration_and_collisions(root, theta());
        assert_eq!(found.collisions.len(), 4);
        for c in &found.collisions {
            assert!(!(**c == *b));
        }
    }
}

#[test]
fn identical_bodies_are_not_reported() {
    let bodies = vec![body(3, 3, 3, 10, 5), body(3, 3, 3, 10, 5)];
    let tree = GravTree::new(bodies.clone(), 1, 3, theta()).unwrap();
    let root = tree.root.as_ref().unwrap();
    let found = bodies[0].get_acceleration_and_collisions(root, theta());
    assert_eq!(found.collisions.len(), 0);
    assert_eq!(found.gravitational_acceleration, (0, 0, 0));
}

#[test]
fn acceleration_follows_the_kernel() {
    // Offset (3, 4, 0), squared distance 25, mass 50: (3 * 50 / 25, 4 * 50 / 25, 0) = (6, 8, 0),
    // doubled at the end of the traversal.
    let bodies = vec![body(0, 0, 0, 1, 1), body(3, 4, 0, 1, 50)];
    let tree = GravTree::new(bodies.clone(), 1, 3, exact()).unwrap();
    let root = tree.root.as_ref().unwrap();
    let on_light = bodies[0].get_acceleration_without_collisions(root, exact());
    assert_eq!(on_light.gravitational_acceleration, (12, 16, 0));
    assert_eq!(on_light.collisions.len(), 0);
    // The other way: (-3 * 1 / 25, -4 * 1 / 25) rounds to zero.
    let on_heavy = bodies[1].get_acceleration_and_collisions(root, exact());
    assert_eq!(on_heavy.gravitational_acceleration, (0, 0, 0));
}

#[test]
fn kernel_rounds_toward_zero() {
    // Offset -2 with mass 3 over squared distance 4 is -1.5, which rounds to -1.
    let q = body(0, 0, 0, 1, 1);
    assert_eq!(gravitational_acceleration(&q, -2, 0, 0, 3), (-1, 0, 0));
    assert_eq!(gravitational_acceleration(&q, 2, 0, 0, 3), (1, 0, 0));
    assert_eq!(gravitational_acceleration(&q, 0, 0, 0, 3), (0, 0, 0));
    assert_eq!(gravitational_acceleration(&q, 1, 2, 2, 90), (10, 20, 20));
}

#[test]
fn theta_criterion() {
    let t = Theta { numerator: 1, denominator: 5 };
    assert!(t.exceeded_by(10_000, 10));
    assert!(!t.exceeded_by(2_500, 10));
    assert!(!t.exceeded_by(100, 10));
    assert!(!Theta { numerator: 0, denominator: 1 }.exceeded_by(1_000_000, 0));
}

#[test]
fn symmetric_pair_has_opposite_accelerations() {
    let a = body(1, -2, 3, 1, 70);
    let b = body(-1, 2, -3, 1, 70);
    let tree = GravTree::new(vec![a, b], 1, 3, exact()).unwrap();
    let root = tree.root.as_ref().unwrap();
    let ra = a.get_acceleration_and_collisions(root, exact()).gravitational_acceleration;
    let rb = b.get_acceleration_and_collisions(root, exact()).gravitational_acceleration;
    assert_eq!(ra, (-rb.0, -rb.1, -rb.2));
    // Offset (-2, 4, -6), squared distance 56, mass 70, doubled.
    assert_eq!(ra, (-4, 10, -14));
}

#[test]
fn root_mass_and_moment_are_sums() {
    let bodies = random_bodies(200);
    let tree = GravTree::new(bodies.clone(), 1, 3, theta()).unwrap();
    let root = tree.root.as_ref().unwrap();
    let mass: u128 = bodies.iter().map(|b| b.mass as u128).sum();
    let mx: i128 = bodies.iter().map(|b| b.mass as i128 * b.x as i128).sum();
    let my: i128 = bodies.iter().map(|b| b.mass as i128 * b.y as i128).sum();
    let mz: i128 = bodies.iter().map(|b| b.mass as i128 * b.z as i128).sum();
    assert_eq!(root.total_mass, mass);
    assert_eq!(root.moment, (mx, my, mz));
    let com = root.center_of_mass();
    assert_eq!(com.0 as i128, mx / mass as i128);
    assert_eq!(com.1 as i128, my / mass as i128);
    assert_eq!(com.2 as i128, mz / mass as i128);
}

#[test]
fn flatten_is_a_permutation_and_counts_agree() {
    let bodies = random_bodies(500);
    let tree = GravTree::new(bodies.clone(), 1, 4, theta()).unwrap();
    let flat = tree.as_vec();
    assert_eq!(tree.get_number_of_entities(), 500);
    assert_eq!(flat.len(), 500);
    assert_eq!(sorted_keys(&flat), sorted_keys(&bodies));
    assert_eq!(tree.entity_refs().len(), 500);
}

#[test]
fn root_extents_are_tight() {
    let bodies = random_bodies(300);
    let tree = GravTree::new(bodies.clone(), 1, 3, theta()).unwrap();
    let root = tree.root.as_ref().unwrap();
    assert_eq!(root.x_min, bodies.iter().map(|b| b.x).min().unwrap());
    assert_eq!(root.x_max, bodies.iter().map(|b| b.x).max().unwrap());
    assert_eq!(root.y_min, bodies.iter().map(|b| b.y).min().unwrap());
    assert_eq!(root.y_max, bodies.iter().map(|b| b.y).max().unwrap());
    assert_eq!(root.z_min, bodies.iter().map(|b| b.z).min().unwrap());
    assert_eq!(root.z_max, bodies.iter().map(|b| b.z).max().unwrap());
    assert_eq!(root.r_max, bodies.iter().map(|b| b.radius).max().unwrap());
}

#[test]
fn no_body_collides_with_itself() {
    let mut bodies = random_bodies(100);
    for b in bodies.iter_mut() {
        b.x /= 100;
        b.y /= 100;
        b.z /= 100;
    }
    let tree = GravTree::new(bodies.clone(), 1, 3, theta()).unwrap();
    let root = tree.root.as_ref().unwrap();
    for b in &bodies {
        let found = b.get_acceleration_and_collisions(root, theta());
        for c in &found.collisions {
            assert!(!(**c == *b));
        }
    }
}

#[test]
fn rebuilding_from_flattening_keeps_aggregates() {
    let bodies = random_bodies(257);
    let tree = GravTree::new(bodies, 1, 3, theta()).unwrap();
    let again = GravTree::new(tree.as_vec(), 1, 3, theta()).unwrap();
    let a = tree.root.as_ref().unwrap();
    let b = again.root.as_ref().unwrap();
    assert_eq!(a.total_mass, b.total_mass);
    assert_eq!(a.moment, b.moment);
    assert_eq!(a.r_max, b.r_max);
    assert_eq!((a.x_min, a.x_max, a.y_min, a.y_max, a.z_min, a.z_max), (b.x_min, b.x_max, b.y_min, b.y_max, b.z_min, b.z_max));
}

#[test]
fn stepping_keeps_total_mass() {
    let bodies = random_bodies(300);
    let mass: u128 = bodies.iter().map(|b| b.mass as u128).sum();
    let mut tree = GravTree::new(bodies, 1, 3, theta()).unwrap();
    for _ in 0..5 {
        tree = tree.time_step().unwrap();
        let now: u128 = tree.as_vec().iter().map(|b| b.mass as u128).sum();
        assert_eq!(now, mass);
        assert_eq!(tree.root.as_ref().unwrap().total_mass, mass);
        assert_eq!(tree.get_number_of_entities(), 300);
    }
}

#[test]
fn stepping_is_deterministic() {
    let bodies = random_bodies(300);
    let first = GravTree::new(bodies.clone(), 2, 3, theta()).unwrap();
    let second = GravTree::new(bodies, 2, 3, theta()).unwrap();
    let a: Vec<_> = first.time_step().unwrap().as_vec().iter().map(key).collect();
    let b: Vec<_> = second.time_step().unwrap().as_vec().iter().map(key).collect();
    assert_eq!(a, b);
}

#[test]
fn default_response_integrates_velocity_then_position() {
    let e = Entity { vx: 1, vy: -2, vz: 0, x: 10, y: 20, z: 30, radius: 4, mass: 9 };
    let result: SimulationResult<'_, Entity> =
        SimulationResult { collisions: Vec::new(), gravitational_acceleration: (2, 1, -3) };
    let next = e.respond(result, 3);
    assert_eq!((next.vx, next.vy, next.vz), (7, 1, -9));
    assert_eq!((next.x, next.y, next.z), (31, 23, 3));
    assert_eq!((next.radius, next.mass), (4, 9));
}

#[test]
fn default_response_saturates() {
    let e = Entity { vx: 0, vy: 0, vz: 0, x: 0, y: 0, z: 0, radius: 1, mass: 1 };
    let result: SimulationResult<'_, Entity> = SimulationResult {
        collisions: Vec::new(),
        gravitational_acceleration: (1 << 100, -(1 << 100), 0),
    };
    let next = e.respond(result, 1);
    assert_eq!((next.vx, next.vy), (i32::MAX, i32::MIN));
    assert_eq!((next.x, next.y), (i32::MAX, i32::MIN));
}

#[test]
fn set_theta_changes_only_theta() {
    let mut tree = GravTree::new(random_bodies(20), 1, 3, theta()).unwrap();
    tree.set_theta(Theta { numerator: 1, denominator: 2 });
    assert_eq!(tree.theta, Theta { numerator: 1, denominator: 2 });
    assert_eq!(tree.get_number_of_entities(), 20);
}

#[test]
fn simulate_without_collisions_reports_none() {
    let bodies = vec![body(0, 0, 0, 10, 5), body(0, 0, 1, 10, 5)];
    let tree = GravTree::new(bodies.clone(), 1, 3, theta()).unwrap();
    let root = tree.root.as_ref().unwrap();
    let with = bodies[0].simulate(root, theta(), CalculateCollisions::Yes);
    let without = bodies[0].simulate(root, theta(), CalculateCollisions::No);
    assert_eq!(with.collisions.len(), 1);
    assert_eq!(without.collisions.len(), 0);
    assert_eq!(with.gravitational_acceleration, without.gravitational_acceleration);
}

#[test]
fn median_partition() {
    let mut v = vec![
        body(5, 0, 0, 1, 1),
        body(1, 0, 0, 1, 1),
        body(4, 0, 0, 1, 1),
        body(2, 0, 0, 1, 1),
        body(3, 0, 0, 1, 1),
    ];
    let (value, index) = find_median(Dimension::X, &mut v);
    assert_eq!((value, index), (3, 2));
    assert_eq!(v[2].x, 3);
    assert!(v[0].x <= 3 && v[1].x <= 3);
    assert!(v[3].x >= 3 && v[4].x >= 3);
    let mut xs: Vec<i32> = v.iter().map(|b| b.x).collect();
    xs.sort();
    assert_eq!(xs, vec![1, 2, 3, 4, 5]);
}

#[test]
fn median_partition_random() {
    for n in 1..60 {
        let mut v = random_bodies(n);
        let mut before: Vec<i32> = v.iter().map(|b| b.y).collect();
        let (value, index) = find_median(Dimension::Y, &mut v);
        assert_eq!(index, n / 2);
        before.sort();
        assert_eq!(value, before[n / 2]);
        for i in 0..n {
            if i < index {
                assert!(v[i].y <= value);
            } else {
                assert!(v[i].y >= value);
            }
        }
        let mut after: Vec<i32> = v.iter().map(|b| b.y).collect();
        after.sort();
        assert_eq!(after, before);
    }
}

#[test]
fn extents_and_ranges() {
    let v = vec![body(1, -5, 7, 1, 1), body(-3, 2, 7, 1, 1), body(4, 0, 9, 1, 1)];
    assert_eq!(max_min(Dimension::X, &v), (4, -3));
    assert_eq!(max_min_xyz(&v), (4, -3, 2, -5, 9, 7));
    assert_eq!(xyz_distances(&v), (7, 7, 2));
}

#[test]
fn widest_axis_prefers_z_then_y() {
    assert_eq!(widest_dimension(5, 5, 5), Dimension::Z);
    assert_eq!(widest_dimension(5, 5, 1), Dimension::Y);
    assert_eq!(widest_dimension(6, 5, 1), Dimension::X);
    assert_eq!(widest_dimension(1, 2, 3), Dimension::Z);
}

#[test]
fn node_projection() {
    let bodies = vec![body(0, 0, 0, 2, 1), body(10, 4, 0, 5, 3)];
    let root = Node::new_root_node(bodies, 3);
    assert!(matches!(root.kind, NodeKind::Leaf(_)));
    assert_eq!(root.max_distance(), 10);
    // Center of mass: (30 / 4, 12 / 4, 0) rounded toward zero.
    assert_eq!(root.center_of_mass(), (7, 3, 0));
    let c = root.as_entity();
    assert_eq!((c.x, c.y, c.z, c.mass, c.radius), (7, 3, 0, 4, 10));
}

#[test]
fn tree_splits_beyond_capacity() {
    let bodies: Vec<Entity> = (0..10).map(|i| body(i, 10 - i, i, 1, (i + 1) as u32)).collect();
    let root = Node::new_root_node(bodies, 3);
    let mut count = 0;
    let mut stack = vec![&root];
    while let Some(n) = stack.pop() {
        count += 1;
        assert!(n.total_mass > 0);
        match &n.kind {
            NodeKind::Leaf(v) => assert!(v.len() <= 3 && !v.is_empty()),
            NodeKind::Internal { left, right, .. } => {
                stack.push(left);
                stack.push(right);
            }
        }
    }
    assert_eq!(count, 7);
    assert_eq!(root.total_mass, 55);
}

#[test]
fn responses_feed_the_next_tree() {
    struct Counter {
        at: i32,
        seen: usize,
    }
    impl AsEntity for Counter {
        fn as_entity(&self) -> Entity {
            Entity { vx: 0, vy: 0, vz: 0, x: self.at, y: 0, z: 0, radius: 5, mass: 1 }
        }
    }
    impl Responsive for Counter {
        fn respond(&self, r: SimulationResult<'_, Self>, _time_step: u32) -> Self {
            Counter { at: self.at, seen: r.collisions.len() }
        }
    }
    let tree = GravTree::new(vec![Counter { at: 0, seen: 9 }, Counter { at: 3, seen: 9 }, Counter { at: 100, seen: 9 }], 1, 3, theta()).unwrap();
    let next = tree.time_step().unwrap();
    let mut seen: Vec<(i32, usize)> = next.entity_refs().iter().map(|c| (c.at, c.seen)).collect();
    seen.sort();
    assert_eq!(seen, vec![(0, 1), (3, 1), (100, 0)]);
}

#[test]
fn pruned_search_finds_close_neighbours() {
    let close = vec![
        body(0, 0, 0, 10, 5),
        body(0, 1, 0, 10, 5),
        body(1, 0, 0, 10, 5),
        body(1, 1, 1, 10, 5),
        body(0, 1, 1, 10, 5),
    ];
    let tree = GravTree::new(close.clone(), 1, 3, theta()).unwrap();
    let root = tree.root.as_ref().unwrap();
    for b in &close {
        let found = b.collide(root);
        assert_eq!(found.collisions.len(), 4);
        for c in &found.collisions {
            assert!(!(**c == *b));
        }
    }
    let mut all = close.clone();
    let far = body(5000, 5000, 5000, 1, 5);
    all.push(far);
    let tree = GravTree::new(all, 1, 3, theta()).unwrap();
    assert_eq!(far.collide(tree.root.as_ref().unwrap()).collisions.len(), 0);
}

#[test]
fn soft_body_pushes_apart() {
    let p1 = Entity { vx: 1, vy: 2, vz: 3, x: 0, y: 0, z: 0, radius: 10, mass: 2 };
    let p2 = body(3, 4, 0, 10, 1);
    // Distance 5, overlap 15, force 60, pushed along (-3, -4, 0) / 5 over mass 2.
    assert_eq!(soft_body(&p1, &p2, 4), (-18, -24, 0));
    let far = body(300, 400, 0, 10, 1);
    assert_eq!(soft_body(&p1, &far, 4), (1, 2, 3));
    for n in [0u128, 1, 2, 3, 4, 15, 16, 17, 99, 100, 1 << 40, (1 << 40) - 1] {
        let r = isqrt(n) as u128;
        assert!(r * r <= n && n < (r + 1) * (r + 1));
    }
    let big: u128 = 3 * 0xffff_ffff * 0xffff_ffff;
    let r = isqrt(big) as u128;
    assert!(r * r <= big && big < (r + 1) * (r + 1));
}
