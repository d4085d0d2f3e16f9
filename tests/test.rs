use bigbang::{AsEntity, Entity, GravTree, Node, NodeKind, Responsive, SimulationResult, Theta};

#[derive(Clone, PartialEq, Debug)]
struct MyEntity {
    x: i32,
    y: i32,
    z: i32,
    vx: i32,
    vy: i32,
    vz: i32,
    radius: u32,
}

fn mass_for(radius: u32) -> u32 {
    if radius < 1000 {
        1
    } else {
        210
    }
}

impl AsEntity for MyEntity {
    fn as_entity(&self) -> Entity {
        Entity {
            x: self.x,
            y: self.y,
            z: self.z,
            vx: self.vx,
            vy: self.vy,
            vz: self.vz,
            radius: self.radius,
            mass: mass_for(self.radius),
        }
    }
}

impl Responsive for MyEntity {
    fn respond(&self, simulation_result: SimulationResult<'_, MyEntity>, time_step: u32) -> Self {
        let (ax, ay, _az) = simulation_result.gravitational_acceleration;
        let dt = time_step as i128;
        let clamp = |v: i128| v.max(i32::MIN as i128).min(i32::MAX as i128) as i32;
        let vx = clamp(self.vx as i128 + ax * dt);
        let vy = clamp(self.vy as i128 + ay * dt);
        MyEntity {
            vx,
            vy,
            vz: self.vz,
            x: clamp(self.x as i128 + vx as i128 * dt),
            y: clamp(self.y as i128 + vy as i128 * dt),
            z: clamp(self.z as i128 + self.vz as i128 * dt),
            radius: self.radius,
        }
    }
}

impl MyEntity {
    pub fn random_entity() -> MyEntity {
        MyEntity {
            vx: 0,
            vy: 0,
            vz: 0,
            x: (rand::random::<u32>() % 50_000) as i32,
            y: (rand::random::<u32>() % 50_000) as i32,
            z: (rand::random::<u32>() % 50_000) as i32,
            radius: rand::random::<u32>() % 100,
        }
    }
}

fn theta() -> Theta {
    Theta { numerator: 1, denominator: 5 }
}

#[test]
fn test_test_traversal() {
    let mut vec: Vec<MyEntity> = Vec::new();
    for _ in 0..100 {
        let entity = MyEntity::random_entity();
        vec.push(entity);
    }
    let vec_clone = vec.clone();
    let tree = GravTree::new(vec, 1, 3, theta()).unwrap();
    let traversed_vec = tree.as_vec();
    let mut all_found = true;
    for i in vec_clone {
        if !traversed_vec.contains(&i) {
            all_found = false;
        }
    }

    assert!(all_found);
}

#[test]
fn test_test_time_step() {
    let mut vec_that_wants_to_be_a_kdtree: Vec<MyEntity> = Vec::new();
    for _ in 0..1000 {
        let entity = MyEntity::random_entity();
        vec_that_wants_to_be_a_kdtree.push(entity);
    }

    let test_tree = GravTree::new(vec_that_wants_to_be_a_kdtree, 1, 3, theta()).unwrap();
    let after_time_step = test_tree.time_step().unwrap();
    assert_eq!(after_time_step.as_vec().len(), 1000);
}

#[test]
fn test_test_tree() {
    let mut vec_that_wants_to_be_a_kdtree: Vec<MyEntity> = Vec::new();
    for _ in 0..100 {
        for _ in 0..100 {
            for _ in 0..10 {
                let entity = MyEntity::random_entity();
                vec_that_wants_to_be_a_kdtree.push(entity);
            }
        }
    }
    let kdtree_test = GravTree::new(vec_that_wants_to_be_a_kdtree, 1, 3, theta()).unwrap();
    assert!(kdtree_test.get_number_of_entities() == 100_000);
    go_to_edges(&kdtree_test, 14usize, 15usize);

    // The center of mass is the sum of mass times position over the total mass:
    // here (6, 6, 12) over 4, that is (1.5, 1.5, 3.0).
    let vector = vec![
        Entity { vx: 0, vy: 0, vz: 0, x: 1, y: 2, z: 3, mass: 2, radius: 1 },
        Entity { vx: 0, vy: 0, vz: 0, x: 2, y: 1, z: 3, mass: 2, radius: 1 },
    ];
    let center_of_mass_test = GravTree::new(vector, 1, 3, theta()).unwrap();
    let root = center_of_mass_test.root.as_ref().unwrap();
    assert_eq!(root.moment, (6, 6, 12));
    assert_eq!(root.total_mass, 4);
}

/// Checks the number of internal nodes along the two outer edges of the tree: down the left
/// edge from the root's left child, and down the right edge from the root's right child.
fn go_to_edges(grav_tree: &GravTree<MyEntity>, left_nodes: usize, right_nodes: usize) {
    let (left, right) = match &grav_tree.root.as_ref().expect("null root node\n").kind {
        NodeKind::Internal { left, right, .. } => (left, right),
        NodeKind::Leaf(_) => panic!("root is a leaf"),
    };
    let mut count_of_nodes = 0;
    let mut node: &Node<MyEntity> = left;
    while let NodeKind::Internal { left, .. } = &node.kind {
        count_of_nodes += 1;
        node = left;
    }
    assert_eq!(count_of_nodes, left_nodes);
    count_of_nodes = 0;
    let mut node2: &Node<MyEntity> = right;
    while let NodeKind::Internal { right, .. } = &node2.kind {
        count_of_nodes += 1;
        node2 = right;
    }
    assert_eq!(count_of_nodes, right_nodes);
}
