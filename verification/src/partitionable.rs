use vstd::prelude::*;
use crate::ray::Ray;
use crate::raytracer::Collision;
use crate::nearest::{all_steady, nearest, reached};
use crate::traits::{closest_in, intersect_collection, Drawable};

verus! {

/// A plain scene: drawable elements that are tested one after the other.
pub struct PScene<D> {
    pub elements: Vec<D>,
}

impl<D> PScene<D> {
    pub fn new(elements: Vec<D>) -> (scene: Self)
        ensures
            scene.elements == elements,
    {
        Self { elements }
    }

    /// Whether the scene has enough elements to be worth partitioning: more
    /// than one.
    pub fn worth_partitioning(&self) -> (worth: bool)
        ensures
            worth == (self.elements@.len() > 1),
    {
        self.elements.len() > 1
    }
}

impl<D: Drawable> Drawable for PScene<D> {
    open spec fn hit(&self, ray: Ray) -> Option<Collision> {
        closest_in(self.elements@, ray)
    }

    fn intersect(&self, ray: Ray) -> (c: Option<Collision>)
        ensures
            all_steady(self.elements@) ==> reached(c) == nearest(self.elements@, ray),
    {
        intersect_collection(self.elements.as_slice(), ray)
    }
}

} // verus!
