use bigbang::collisions::soft_body;
use bigbang::{AsEntity, Entity, GravTree, Responsive, SimulationResult, Theta};

#[derive(Clone, PartialEq, Debug)]
struct MyEntity {
    x: i32,
    y: i32,
    z: i32,
    vx: i32,
    vy: i32,
    vz: i32,
    radius: u32,
    mass: u32,
    collided_with: Vec<MyEntity>,
}

impl MyEntity {
    fn new(x: i32, y: i32, z: i32, radius: u32, mass: u32) -> MyEntity {
        MyEntity { x, y, z, vx: 0, vy: 0, vz: 0, radius, mass, collided_with: Vec::new() }
    }
}

impl AsEntity for MyEntity {
    fn as_entity(&self) -> Entity {
        Entity {
            vx: self.vx,
            vy: self.vy,
            vz: self.vz,
            x: self.x,
            y: self.y,
            z: self.z,
            radius: self.radius,
            mass: self.mass,
        }
    }
}

impl Responsive for MyEntity {
    fn respond(&self, simulation_result: SimulationResult<'_, Self>, time_step: u32) -> Self {
        let mut collided_with = Vec::new();
        let (mut ax, mut ay, mut az) = simulation_result.gravitational_acceleration;
        for other in simulation_result.collisions {
            collided_with.push(other.clone());
            let (collision_ax, collision_ay, collision_az) = soft_body(self, other, 50);
            ax += collision_ax;
            ay += collision_ay;
            az += collision_az;
        }
        let dt = time_step as i128;
        let vx = (self.vx as i128 + ax * dt) as i32;
        let vy = (self.vy as i128 + ay * dt) as i32;
        let vz = (self.vz as i128 + az * dt) as i32;
        MyEntity {
            vx,
            vy,
            vz,
            x: self.x + vx * time_step as i32,
            y: self.y + vy * time_step as i32,
            z: self.z + vz * time_step as i32,
            radius: self.radius,
            mass: self.mass,
            collided_with,
        }
    }
}

fn theta() -> Theta {
    Theta { numerator: 1, denominator: 5 }
}

/// Given two entities that are overlapping, the tree detects their collision.
#[test]
fn correctness_two_entities_collision() {
    let vec_that_wants_to_be_a_kdtree: Vec<MyEntity> =
        vec![MyEntity::new(0, 0, 0, 10, 5), MyEntity::new(0, 0, 1, 10, 5)];

    let test_tree = GravTree::new(vec_that_wants_to_be_a_kdtree, 1, 3, theta()).unwrap();
    let after_time_step = test_tree.time_step().unwrap().as_vec();

    assert_eq!(after_time_step[0].collided_with.len(), 1);
    assert_eq!(after_time_step[1].collided_with.len(), 1);
}

/// Given two entities that are not overlapping, the tree does not report a collision.
#[test]
fn correctness_two_entities_no_collision() {
    let vec_that_wants_to_be_a_kdtree: Vec<MyEntity> =
        vec![MyEntity::new(0, 1000, 0, 10, 5), MyEntity::new(0, 0, 1, 10, 5)];

    let test_tree = GravTree::new(vec_that_wants_to_be_a_kdtree, 1, 3, theta()).unwrap();
    let after_time_step = test_tree.time_step().unwrap().as_vec();

    assert_eq!(after_time_step[0].collided_with.len(), 0);
    assert_eq!(after_time_step[1].collided_with.len(), 0);
}

/// Two distant bodies can be stepped twice.
#[test]
fn correctness_two_entities_accel() {
    let vec_that_wants_to_be_a_kdtree: Vec<MyEntity> =
        vec![MyEntity::new(0, 100, 0, 10, 50), MyEntity::new(50, 0, 1, 10, 500)];

    let test_tree = GravTree::new(vec_that_wants_to_be_a_kdtree, 1, 3, theta()).unwrap();
    let _after_time_step = test_tree.time_step().unwrap().time_step().unwrap().as_vec();
}

/// Given five entities that are overlapping, the tree detects every collision.
#[test]
fn correctness_five_entities_collision() {
    let vec_that_wants_to_be_a_kdtree: Vec<MyEntity> = vec![
        MyEntity::new(0, 0, 0, 10, 5),
        MyEntity::new(0, 1, 0, 10, 5),
        MyEntity::new(1, 0, 0, 10, 5),
        MyEntity::new(1, 1, 1, 10, 5),
        MyEntity::new(0, 1, 1, 10, 5),
    ];

    let test_tree = GravTree::new(vec_that_wants_to_be_a_kdtree, 1, 3, theta()).unwrap();
    let after_time_step = test_tree.time_step().unwrap().as_vec();

    assert_eq!(after_time_step[0].collided_with.len(), 4);
    assert_eq!(after_time_step[1].collided_with.len(), 4);
    assert_eq!(after_time_step[2].collided_with.len(), 4);
    assert_eq!(after_time_step[3].collided_with.len(), 4);
    assert_eq!(after_time_step[4].collided_with.len(), 4);
}

/// The gravitational acceleration of five bodies, checked through their velocities after two
/// steps with a time step of one. The library computes in integers, each pull rounded toward
/// zero, so these velocities are integers; a floating-point simulation of the same bodies
/// gives other values.
#[test]
fn correctness_five_entities_accel() {
    let vec_that_wants_to_be_a_kdtree: Vec<MyEntity> = vec![
        MyEntity::new(0, 100, 0, 10, 50),
        MyEntity::new(50, 0, 1, 10, 500),
        MyEntity::new(50, 20, 1, 10, 500),
        MyEntity::new(10, 20, 1, 10, 500),
        MyEntity::new(50, 100, 1, 10, 500),
    ];

    let test_tree = GravTree::new(vec_that_wants_to_be_a_kdtree, 1, 3, theta()).unwrap();
    let after_time_step = test_tree.time_step().unwrap().time_step().unwrap().as_vec();

    assert_eq!(after_time_step[0].vx, -66);
    assert_eq!(after_time_step[0].vy, -54);
    assert_eq!(after_time_step[0].vz, 0);

    assert_eq!(after_time_step[1].vx, -10);
    assert_eq!(after_time_step[1].vy, -4);
    assert_eq!(after_time_step[1].vz, 0);

    assert_eq!(after_time_step[2].vx, 39);
    assert_eq!(after_time_step[2].vy, 46);
    assert_eq!(after_time_step[2].vz, 0);

    assert_eq!(after_time_step[3].vx, 24);
    assert_eq!(after_time_step[3].vy, 18);
    assert_eq!(after_time_step[3].vz, 0);
}
