//! Engine-side state shared with the renderer collaborators.

use crate::scene::SceneGraph;
use vstd::prelude::*;

verus! {

/// What the engine hands its modules each frame: the scene graphs queued as
/// render layers for the next present call, and an opaque blob of
/// engine-defined state. Renderer handles themselves live with the embedder,
/// outside this crate.
pub struct State {
    /// One scene graph per logical layer of renderable content, queued for
    /// the next present pass in order.
    pub render_layers: Vec<SceneGraph>,
    /// Opaque engine-defined state.
    pub blob: u64,
}

impl State {
    /// A state with no layers queued.
    pub fn new() -> (s: State)
        ensures
            s.render_layers@ == Seq::<SceneGraph>::empty(),
            s.blob == 0,
    {
        State { render_layers: Vec::new(), blob: 0 }
    }

    /// Enqueues a scene graph as the next render layer.
    pub fn queue_render_layer(&mut self, layer: SceneGraph)
        ensures
            final(self).render_layers@ == old(self).render_layers@.push(layer),
            final(self).blob == old(self).blob,
    {
        self.render_layers.push(layer);
    }

    /// Drops every queued layer.
    pub fn clear_render_layers(&mut self)
        ensures
            final(self).render_layers@ == Seq::<SceneGraph>::empty(),
            final(self).blob == old(self).blob,
    {
        self.render_layers.clear();
    }
}

} // verus!
