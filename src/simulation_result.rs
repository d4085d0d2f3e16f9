use vstd::prelude::*;

verus! {

/// What the traversal found for one body: the bodies it overlaps and the gravitational
/// acceleration that the rest of the tree exerts on it.
pub struct SimulationResult<'a, T> {
    /// The bodies of the tree that overlap the queried body.
    pub collisions: Vec<&'a T>,
    /// The acceleration along x, y and z.
    pub gravitational_acceleration: (i128, i128, i128),
}

/// The bodies found to overlap a queried body.
pub struct CollisionResult<'a, T> {
    /// The bodies that are overlapped.
    pub collisions: Vec<&'a T>,
}

/// Whether a traversal collects collisions or only computes the acceleration.
#[derive(Clone, Copy, Debug, PartialEq, Eq, Structural)]
pub enum CalculateCollisions {
    Yes,
    No,
}

} // verus!
