//! The renderer interface over the scene graph: one draw directive per
//! visited node, in traversal order.

use vstd::prelude::*;

use crate::scene::{NodeValue, SceneGraph, traversal, values_of};

verus! {

/// The rendering backend capability consumed by the engine: renders one
/// frame from a scene graph.
pub trait SceneRenderer {
    /// Renders a scene by performing one draw directive per node visited by
    /// the scene traversal of its root, in traversal order.
    fn render_scene(&mut self, scene: &SceneGraph);
}

/// Computes the draw directives of one frame: the renderable value of every
/// node visited by the traversal of `scene`, exactly once each, in traversal
/// order. A backend performs one drawing call per entry.
pub fn draw_directives(scene: &SceneGraph) -> (r: Vec<NodeValue>)
    ensures
        r@ == values_of(traversal(scene@)),
{
    scene.root().traverse_values()
}

} // verus!
