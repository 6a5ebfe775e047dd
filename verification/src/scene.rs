//! The model component of a scene entity: where the entity's model stands
//! in the world, and which moves the world still has to be told of.

use std::sync::Arc;
use vstd::prelude::*;
use crate::data::GpuModel;
use crate::math::UVec3;
use crate::world::{ModelMove, World, WorldView};

verus! {

/// The model of an entity and its place in the world, in voxels.
///
/// `dirty` is set whenever the place or the model changes and cleared by
/// [`CompModel::sync`]. A newly chosen model waits in `next_model` until then.
pub struct CompModel {
    pub prev_vox_pos: UVec3,
    pub vox_pos: UVec3,
    pub dirty: bool,
    pub model_ref: Option<Arc<GpuModel>>,
    pub next_model: Option<Arc<GpuModel>>,
}

/// The moves that a component asks of the world when it is synchronised.
pub open spec fn pending_moves(c: CompModel) -> Seq<ModelMove> {
    if !c.dirty {
        Seq::empty()
    } else {
        match (c.next_model, c.model_ref) {
            (Some(next), Some(current)) => seq![
                ModelMove {
                    records: current@,
                    old_pos: c.prev_vox_pos,
                    new_pos: c.vox_pos,
                    remove_only: true,
                },
                ModelMove {
                    records: next@,
                    old_pos: c.prev_vox_pos,
                    new_pos: c.vox_pos,
                    remove_only: false,
                },
            ],
            (Some(next), None) => seq![
                ModelMove {
                    records: next@,
                    old_pos: c.prev_vox_pos,
                    new_pos: c.vox_pos,
                    remove_only: false,
                },
            ],
            (None, Some(current)) => seq![
                ModelMove {
                    records: current@,
                    old_pos: c.prev_vox_pos,
                    new_pos: c.vox_pos,
                    remove_only: false,
                },
            ],
            (None, None) => Seq::empty(),
        }
    }
}

impl CompModel {
    /// A component without a model, at the origin.
    pub fn new() -> (c: CompModel)
        ensures
            c.prev_vox_pos == (UVec3 { x: 0, y: 0, z: 0 }),
            c.vox_pos == (UVec3 { x: 0, y: 0, z: 0 }),
            !c.dirty,
            c.model_ref.is_none(),
            c.next_model.is_none(),
    {
        CompModel {
            prev_vox_pos: UVec3 { x: 0, y: 0, z: 0 },
            vox_pos: UVec3 { x: 0, y: 0, z: 0 },
            dirty: false,
            model_ref: None,
            next_model: None,
        }
    }

    /// Moves the component to `new_vox_pos`. A move to where it already
    /// stands changes nothing; any other move remembers the old place and
    /// marks the component dirty.
    pub fn update_voxel_position(&mut self, new_vox_pos: UVec3)
        ensures
            new_vox_pos == old(self).vox_pos ==> *final(self) == *old(self),
            new_vox_pos != old(self).vox_pos ==> *final(self) == (CompModel {
                prev_vox_pos: old(self).vox_pos,
                vox_pos: new_vox_pos,
                dirty: true,
                ..*old(self)
            }),
    {
        if self.vox_pos == new_vox_pos {
            return ;
        }
        self.prev_vox_pos = self.vox_pos;
        self.vox_pos = new_vox_pos;
        self.dirty = true;
    }

    /// Chooses the model that the component shows from the next
    /// synchronisation on, and marks the component dirty.
    pub fn set_model(&mut self, model: Option<Arc<GpuModel>>)
        ensures
            *final(self) == (CompModel { next_model: model, dirty: true, ..*old(self) }),
    {
        self.next_model = model;
        self.dirty = true;
    }

    /// Makes the waiting model the current one.
    pub fn update_model_ref(&mut self)
        ensures
            *final(self) == (CompModel {
                model_ref: old(self).next_model,
                next_model: None,
                ..*old(self)
            }),
    {
        self.model_ref = self.next_model.take();
    }

    /// Tells the world of the moves that are pending, and clears `dirty`.
    ///
    /// Where a new model waits, the current model is removed at the old
    /// place and the new model moved from the old place to the new; it then
    /// becomes the current model. Otherwise the current model is moved from
    /// the old place to the new.
    pub fn sync(&mut self, world: &mut World)
        requires
            old(world).wf(),
        ensures
            final(world).wf(),
            final(world)@ == (WorldView {
                model_queue: old(world)@.model_queue + pending_moves(*old(self)),
                ..old(world)@
            }),
            !old(self).dirty ==> *final(self) == *old(self),
            old(self).dirty ==> *final(self) == (CompModel {
                dirty: false,
                model_ref: if old(self).next_model.is_some() {
                    old(self).next_model
                } else {
                    old(self).model_ref
                },
                next_model: None,
                ..*old(self)
            }),
    {
        let ghost before = world@;
        if !self.dirty {
            assert(world@ =~~= (WorldView {
                model_queue: before.model_queue + pending_moves(*old(self)),
                ..before
            }));
            return ;
        }
        if self.next_model.is_some() {
            match &self.model_ref {
                Some(current) => {
                    world.update_model(arc_clone(current), self.prev_vox_pos, self.vox_pos, true);
                },
                None => {},
            }
            match &self.next_model {
                Some(next) => {
                    world.update_model(arc_clone(next), self.prev_vox_pos, self.vox_pos, false);
                },
                None => {},
            }
            self.update_model_ref();
        } else {
            match &self.model_ref {
                Some(current) => {
                    world.update_model(arc_clone(current), self.prev_vox_pos, self.vox_pos, false);
                },
                None => {},
            }
        }
        self.dirty = false;
        assert(world@ =~~= (WorldView {
            model_queue: before.model_queue + pending_moves(*old(self)),
            ..before
        }));
    }
}

/// `Arc::clone`: another handle to the same model.
#[verifier::external_body]
fn arc_clone(model: &Arc<GpuModel>) -> (r: Arc<GpuModel>)
    ensures
        r == *model,
{
    Arc::clone(model)
}

} // verus!
