//! Rigid voxel models in the form in which the placement kernel reads them.

use vstd::prelude::*;
use crate::math::{UVec3, UVec4};
use crate::sdvx::{lists, Model};
use crate::voxel::Voxel;

verus! {

/// Added to each axis of a model position when the records are built, so
/// that a model placed at the origin lands at `(1024, 1024, 1024)`.
pub const MODEL_OFFSET: u32 = 1024;

/// A model as a buffer of records, one per voxel that is not empty: `x`,
/// `y`, `z` are the position of the voxel plus [`MODEL_OFFSET`], and `w` is
/// its packed word.
pub struct GpuModel {
    pub vox_buf: Vec<UVec4>,
    pub name: String,
}

/// The record for one voxel of a model.
pub open spec fn model_record(voxel: Voxel, pos: UVec3) -> UVec4 {
    UVec4 {
        x: ((pos.x + 1024) % 0x1_0000_0000) as u32,
        y: ((pos.y + 1024) % 0x1_0000_0000) as u32,
        z: ((pos.z + 1024) % 0x1_0000_0000) as u32,
        w: voxel.0,
    }
}

/// The records for a list of voxels, in the order of the list.
pub open spec fn model_records(voxels: Seq<(Voxel, UVec3)>) -> Seq<UVec4> {
    Seq::new(voxels.len(), |i: int| model_record(voxels[i].0, voxels[i].1))
}

/// The pairs of `voxels` whose voxel is not empty, in their order.
pub open spec fn present(voxels: Seq<(Voxel, UVec3)>) -> Seq<(Voxel, UVec3)> {
    voxels.filter(|e: (Voxel, UVec3)| e.0.0 != 0)
}

/// What one more pair adds to the pairs that are present.
pub proof fn lemma_present_push(voxels: Seq<(Voxel, UVec3)>, e: (Voxel, UVec3))
    ensures
        present(voxels.push(e)) == (if e.0.0 != 0 {
            present(voxels).push(e)
        } else {
            present(voxels)
        }),
{
    reveal(Seq::filter);
    assert(voxels.push(e).drop_last() =~= voxels);
}

/// Of no pairs, none is present.
pub proof fn lemma_present_none()
    ensures
        present(Seq::empty()) == Seq::<(Voxel, UVec3)>::empty(),
{
    reveal(Seq::filter);
}

/// Where no voxel is empty, every pair is present.
pub proof fn lemma_present_all(voxels: Seq<(Voxel, UVec3)>)
    requires
        forall|i: int| 0 <= i < voxels.len() ==> (#[trigger] voxels[i]).0.0 != 0,
    ensures
        present(voxels) == voxels,
    decreases voxels.len(),
{
    reveal(Seq::filter);
    if voxels.len() > 0 {
        lemma_present_all(voxels.drop_last());
        assert(voxels.drop_last().push(voxels.last()) =~= voxels);
    }
}

impl View for GpuModel {
    type V = Seq<UVec4>;

    /// The records of the model.
    open spec fn view(&self) -> Seq<UVec4> {
        self.vox_buf@
    }
}

impl GpuModel {
    /// Builds the records for the voxels of `voxels` that are not empty, in
    /// their order. Positions are offset by [`MODEL_OFFSET`] on each axis,
    /// modulo 2^32.
    pub fn from_voxels(name: String, voxels: &Vec<(Voxel, UVec3)>) -> (m: GpuModel)
        ensures
            m@ == model_records(present(voxels@)),
            m.name == name,
    {
        let mut voxel_data: Vec<UVec4> = Vec::new();
        let mut i: usize = 0;
        proof {
            lemma_present_none();
            assert(voxels@.take(0) =~= Seq::<(Voxel, UVec3)>::empty());
            assert(voxel_data@ =~= model_records(present(voxels@.take(0))));
        }
        while i < voxels.len()
            invariant
                i <= voxels@.len(),
                voxel_data@ == model_records(present(voxels@.take(i as int))),
            decreases voxels@.len() - i,
        {
            let vox = voxels[i].0;
            let pos = voxels[i].1;
            proof {
                lemma_present_push(voxels@.take(i as int), voxels@[i as int]);
                assert(voxels@.take(i as int).push(voxels@[i as int]) =~= voxels@.take(i + 1));
            }
            if vox.0 != 0 {
                voxel_data.push(
                    UVec4 {
                        x: pos.x.wrapping_add(MODEL_OFFSET),
                        y: pos.y.wrapping_add(MODEL_OFFSET),
                        z: pos.z.wrapping_add(MODEL_OFFSET),
                        w: vox.0,
                    },
                );
            }
            i += 1;
            assert(voxel_data@ =~= model_records(present(voxels@.take(i as int))));
        }
        assert(voxels@.take(i as int) =~= voxels@);
        GpuModel { vox_buf: voxel_data, name }
    }

    /// Builds the records for the voxels of `model`, in the order in which
    /// the model lists them.
    pub fn from_model(name: String, model: &Model) -> (m: GpuModel)
        requires
            model.wf(),
        ensures
            m.name == name,
            exists|list: Seq<(Voxel, UVec3)>| lists(*model, list) && m@ == model_records(list),
    {
        let list = model.voxels();
        proof {
            lemma_present_all(list@);
        }
        GpuModel::from_voxels(name, &list)
    }

    /// Number of records.
    pub fn voxel_count(&self) -> (n: usize)
        ensures
            n == self@.len(),
    {
        self.vox_buf.len()
    }

    /// The `i`-th record.
    pub fn record(&self, i: usize) -> (r: UVec4)
        requires
            i < self@.len(),
        ensures
            r == self@[i as int],
    {
        self.vox_buf[i]
    }
}

} // verus!
