//! Building a scene: a single trait through which objects and lights of
//! different kinds are added to one collection. The scene's contents —
//! shapes, materials and lights — carry floating-point data, so the
//! collections themselves live in the application layer, which implements
//! this trait for its scene type once per node kind.

use vstd::prelude::*;

verus! {

/// Trait that allows adding an object or light to a scene.
pub trait SceneAdd<T> {
    /// Add an object or light to the scene.
    fn add(&mut self, node: T);
}

} // verus!
