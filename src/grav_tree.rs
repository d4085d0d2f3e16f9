use vstd::prelude::*;

use crate::aggregates::all_massive;
use crate::dimension::Dimension;
use crate::data_file::{collapse_blanks, data_text, lemma_data_text_push, parse_entities, write_entity_line};
use crate::entity::{AsEntity, Entity};
use crate::gravity::Theta;
use crate::node::Node;
use crate::responsive::Responsive;
use crate::traversal::{node_collisions, node_pull, referents};

verus! {

/// Why a tree could not be built.
#[derive(Clone, Copy, Debug, PartialEq, Eq, Structural)]
pub enum TreeError {
    /// The time step is zero.
    InvalidTimeStep,
    /// The leaf capacity is zero.
    InvalidLeafCapacity,
    /// θ has a zero denominator.
    InvalidTheta,
    /// A body has zero mass.
    InvalidMass,
}

/// The first parameter that a tree over `pts` would reject, checked in the order time step,
/// leaf capacity, θ, masses; `None` when all are valid.
pub open spec fn construction_error<T: AsEntity>(
    pts: Seq<T>,
    time_step: u32,
    max_entities: usize,
    theta: Theta,
) -> Option<TreeError> {
    if time_step == 0 {
        Some(TreeError::InvalidTimeStep)
    } else if max_entities == 0 {
        Some(TreeError::InvalidLeafCapacity)
    } else if !theta.valid() {
        Some(TreeError::InvalidTheta)
    } else if !all_massive(pts) {
        Some(TreeError::InvalidMass)
    } else {
        None
    }
}

/// A k-d tree over gravitational bodies, with the parameters of the simulation.
pub struct GravTree<T> {
    /// The root; absent when the tree holds no body.
    pub root: Option<Node<T>>,
    /// The number of bodies in the tree.
    pub number_of_entities: usize,
    /// How much simulated time one step covers.
    pub time_step: u32,
    /// The most bodies a leaf may hold.
    pub max_entities: usize,
    /// The multipole acceptance threshold.
    pub theta: Theta,
}

impl<T: AsEntity> GravTree<T> {
    /// The bodies of the tree, leaves read from left to right.
    pub open spec fn entities(self) -> Seq<T> {
        match self.root {
            Some(n) => n.entities(),
            None => Seq::empty(),
        }
    }

    /// The parameters are valid, the count is right, and the root is a well-formed tree built by
    /// the median-split rule with the tree's leaf capacity.
    pub open spec fn wf(self) -> bool {
        &&& self.time_step > 0
        &&& self.max_entities >= 1
        &&& self.theta.valid()
        &&& self.number_of_entities == self.entities().len()
        &&& match self.root {
            Some(n) => n.wf() && n.built_by_rule(self.max_entities as nat),
            None => true,
        }
    }

    /// The acceleration that a time step computes for a body `q` of the tree.
    pub open spec fn acceleration_on(self, q: Entity) -> (int, int, int) {
        match self.root {
            Some(n) => (
                2 * node_pull(q, n, self.theta, Dimension::X),
                2 * node_pull(q, n, self.theta, Dimension::Y),
                2 * node_pull(q, n, self.theta, Dimension::Z),
            ),
            None => (0, 0, 0),
        }
    }

    /// The bodies that a time step reports as overlapping a body `q` of the tree.
    pub open spec fn collisions_of(self, q: Entity) -> Seq<T> {
        match self.root {
            Some(n) => node_collisions(q, n, self.theta),
            None => Seq::empty(),
        }
    }

    /// Builds a tree over `pts` with the given time step, leaf capacity and θ. Fails with the
    /// first invalid parameter: a zero time step, a zero leaf capacity, a θ with a zero
    /// denominator, or a body of zero mass. No body yields an empty tree.
    pub fn new(pts: Vec<T>, time_step: u32, max_entities: usize, theta: Theta) -> (r: Result<
        GravTree<T>,
        TreeError,
    >)
        ensures
            r.is_err() <==> construction_error(pts@, time_step, max_entities, theta).is_some(),
            r matches Err(e) ==> construction_error(pts@, time_step, max_entities, theta) == Some(e),
            r matches Ok(t) ==> {
                &&& t.wf()
                &&& t.entities().to_multiset() == pts@.to_multiset()
                &&& t.entities().len() == pts@.len()
                &&& t.time_step == time_step
                &&& t.max_entities == max_entities
                &&& t.theta == theta
            },
    {
        if time_step == 0 {
            return Err(TreeError::InvalidTimeStep);
        }
        if max_entities == 0 {
            return Err(TreeError::InvalidLeafCapacity);
        }
        if theta.denominator == 0 {
            return Err(TreeError::InvalidTheta);
        }
        let n = pts.len();
        let mut i: usize = 0;
        while i < n
            invariant
                n == pts@.len(),
                0 <= i <= n,
                time_step > 0,
                max_entities > 0,
                theta.valid(),
                forall|k: int| 0 <= k < i ==> (#[trigger] pts@[k]).entity().mass > 0,
            decreases n - i,
        {
            if pts[i].as_entity().mass == 0 {
                proof {
                    assert(!((#[trigger] pts@[i as int]).entity().mass > 0));
                    assert(!all_massive(pts@));
                }
                return Err(TreeError::InvalidMass);
            }
            i = i + 1;
        }
        if n == 0 {
            proof {
                assert(pts@ =~= Seq::<T>::empty());
            }
            return Ok(GravTree { root: None, number_of_entities: 0, time_step, max_entities, theta });
        }
        let root = Node::new_root_node(pts, max_entities);
        proof {
            root.entities().to_multiset_ensures();
            pts@.to_multiset_ensures();
        }
        Ok(GravTree { root: Some(root), number_of_entities: n, time_step, max_entities, theta })
    }

    /// Sets θ for the steps to come; the tree is not rebuilt.
    pub fn set_theta(&mut self, theta: Theta)
        requires
            theta.valid(),
        ensures
            final(self).theta == theta,
            final(self).root == old(self).root,
            final(self).number_of_entities == old(self).number_of_entities,
            final(self).time_step == old(self).time_step,
            final(self).max_entities == old(self).max_entities,
    {
        self.theta = theta;
    }

    /// Returns a copy of each body of the tree, leaves read from left to right.
    pub fn as_vec(&self) -> (r: Vec<T>)
        where
            T: Clone,
        ensures
            r@.len() == self.entities().len(),
            forall|i: int| 0 <= i < r@.len() ==> cloned(self.entities()[i], #[trigger] r@[i]),
    {
        let refs = self.entity_refs();
        let n = refs.len();
        let mut out: Vec<T> = Vec::new();
        let mut i: usize = 0;
        while i < n
            invariant
                n == refs@.len(),
                referents(refs@) == self.entities(),
                0 <= i <= n,
                out@.len() == i,
                forall|k: int| 0 <= k < i ==> cloned(self.entities()[k], #[trigger] out@[k]),
            decreases n - i,
        {
            let b: &T = refs[i];
            assert(*b == self.entities()[i as int]);
            out.push(b.clone());
            i = i + 1;
        }
        out
    }

    /// Returns a reference to each body of the tree, leaves read from left to right.
    pub fn entity_refs(&self) -> (r: Vec<&T>)
        ensures
            referents(r@) == self.entities(),
    {
        match &self.root {
            Some(n) => n.traverse_tree_helper(),
            None => {
                let v: Vec<&T> = Vec::new();
                assert(referents(v@) =~= Seq::<T>::empty());
                v
            },
        }
    }

    /// Returns the number of bodies in the tree.
    pub fn get_number_of_entities(&self) -> (r: usize)
        requires
            self.wf(),
        ensures
            r == self.entities().len(),
    {
        self.number_of_entities
    }
}

impl<T: AsEntity + Responsive> GravTree<T> {
    /// The state of each body after one step: what its response gives for the acceleration
    /// and collisions that the traversal finds for it, in the order of `entities`.
    pub open spec fn next_states(self) -> Seq<T> {
        self.entities().map_values(
            |b: T| b.response(self.acceleration_on(b.entity()), self.collisions_of(b.entity()), self.time_step),
        )
    }

    /// Advances the simulation by one step: each body responds to the acceleration and the
    /// collisions that the traversal finds for it, and a new tree with the same parameters is
    /// built over the responses. Fails only if a response has zero mass.
    pub fn time_step(&self) -> (r: Result<GravTree<T>, TreeError>)
        requires
            self.wf(),
        ensures
            r.is_err() <==> !all_massive(self.next_states()),
            r matches Err(e) ==> e == TreeError::InvalidMass,
            r matches Ok(t) ==> {
                &&& t.wf()
                &&& t.entities().to_multiset() == self.next_states().to_multiset()
                &&& t.entities().len() == self.entities().len()
                &&& t.time_step == self.time_step
                &&& t.max_entities == self.max_entities
                &&& t.theta == self.theta
            },
    {
        let refs = self.entity_refs();
        let n = refs.len();
        let mut next: Vec<T> = Vec::new();
        match &self.root {
            Some(root) => {
                let mut i: usize = 0;
                while i < n
                    invariant
                        n == refs@.len(),
                        referents(refs@) == self.entities(),
                        self.root == Some(*root),
                        root.wf(),
                        0 <= i <= n,
                        next@ =~= self.next_states().take(i as int),
                    decreases n - i,
                {
                    let b: &T = refs[i];
                    assert(*b == self.entities()[i as int]);
                    let e = b.as_entity();
                    let found = e.get_acceleration_and_collisions(root, self.theta);
                    let moved = b.respond(found, self.time_step);
                    next.push(moved);
                    i = i + 1;
                }
            },
            None => {
                assert(n == 0);
            },
        }
        assert(next@ =~= self.next_states());
        GravTree::new(next, self.time_step, self.max_entities, self.theta)
    }
}


/// Why a tree could not be read from a stored text.
#[derive(Clone, Copy, Debug, PartialEq, Eq, Structural)]
pub enum DataFileError {
    /// The text is not a sequence of body lines.
    Malformed,
    /// The bodies were read, but a tree over them was refused.
    Tree(TreeError),
}

impl GravTree<Entity> {
    /// Reads the bodies stored in `text` (fields separated by runs of spaces and tabs, as
    /// `parse_entities` reads them) and builds a tree over them with the given parameters,
    /// which the text does not hold.
    pub fn from_data_text(text: &[u8], time_step: u32, max_entities: usize, theta: Theta) -> (r:
        Result<GravTree<Entity>, DataFileError>)
        ensures
            (forall|es: Seq<Entity>| data_text(es) != collapse_blanks(text@)) ==> r == Err::<GravTree<Entity>, DataFileError>(
                DataFileError::Malformed,
            ),
            forall|es: Seq<Entity>|
                #[trigger] data_text(es) == collapse_blanks(text@) ==> match r {
                    Ok(tree) => {
                        &&& construction_error(es, time_step, max_entities, theta).is_none()
                        &&& tree.wf()
                        &&& tree.entities().to_multiset() == es.to_multiset()
                        &&& tree.time_step == time_step
                        &&& tree.max_entities == max_entities
                        &&& tree.theta == theta
                    },
                    Err(DataFileError::Tree(e)) => construction_error(es, time_step, max_entities, theta)
                        == Some(e),
                    Err(DataFileError::Malformed) => false,
                },
    {
        match parse_entities(text) {
            Ok(es) => match GravTree::new(es, time_step, max_entities, theta) {
                Ok(tree) => Ok(tree),
                Err(e) => Err(DataFileError::Tree(e)),
            },
            Err(_) => Err(DataFileError::Malformed),
        }
    }

    /// Returns the stored text of the tree's bodies: one line each, leaves read from left to
    /// right.
    pub fn write_data_text(&self) -> (r: Vec<u8>)
        ensures
            r@ == data_text(self.entities()),
    {
        let refs = self.entity_refs();
        let mut out: Vec<u8> = Vec::new();
        let mut i: usize = 0;
        assert(self.entities().take(0) =~= Seq::<Entity>::empty());
        while i < refs.len()
            invariant
                0 <= i <= refs@.len(),
                referents(refs@) == self.entities(),
                out@ == data_text(self.entities().take(i as int)),
            decreases refs@.len() - i,
        {
            let e: &Entity = refs[i];
            assert(*e == self.entities()[i as int]);
            write_entity_line(&mut out, e);
            proof {
                let s = self.entities();
                assert(s.take(i + 1) =~= s.take(i as int).push(s[i as int]));
                lemma_data_text_push(s.take(i as int), s[i as int]);
            }
            i = i + 1;
        }
        assert(self.entities().take(refs@.len() as int) =~= self.entities());
        out
    }
}

} // verus!
