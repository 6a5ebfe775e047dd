//! Models as two flat lists, the form in which they are exchanged with
//! serialisers: the voxel words, and per voxel its position and the index of
//! its word.

use vstd::prelude::*;
use crate::container::SdvxError;
use crate::math::UVec3;
use crate::sdvx::{constructed, lists, Model};
use crate::voxel::Voxel;

verus! {

/// A model as flat lists. Each entry of `positions` is `[x, y, z, index]`,
/// where `index` names an entry of `voxels`.
#[derive(Debug)]
pub struct RawModel {
    pub voxels: Vec<u32>,
    pub positions: Vec<[u32; 4]>,
}

/// Whether every position of `raw` names a voxel word that is there.
pub open spec fn raw_valid(raw: RawModel) -> bool {
    forall|i: int|
        0 <= i < raw.positions@.len() ==> (#[trigger] raw.positions@[i])[3] < raw.voxels@.len()
}

/// The voxels of `raw` with their positions, in the order of its positions.
pub open spec fn raw_pairs(raw: RawModel) -> Seq<(Voxel, UVec3)> {
    Seq::new(
        raw.positions@.len(),
        |i: int|
            (
                Voxel(raw.voxels@[raw.positions@[i][3] as int]),
                UVec3 { x: raw.positions@[i][0], y: raw.positions@[i][1], z: raw.positions@[i][2] },
            ),
    )
}

impl Model {
    /// Builds a model from flat lists. Fails with [`SdvxError::Unknown`]
    /// where a position names a voxel word that is not there.
    pub fn from_raw(raw: &RawModel) -> (r: Result<Model, SdvxError>)
        ensures
            match r {
                Ok(m) => raw_valid(*raw) && constructed(m, raw_pairs(*raw)),
                Err(e) => !raw_valid(*raw) && e == SdvxError::Unknown,
            },
    {
        let mut pairs: Vec<(Voxel, UVec3)> = Vec::new();
        let mut i: usize = 0;
        while i < raw.positions.len()
            invariant
                i <= raw.positions@.len(),
                forall|j: int| 0 <= j < i ==> (#[trigger] raw.positions@[j])[3] < raw.voxels@.len(),
                pairs@ == raw_pairs(*raw).take(i as int),
            decreases raw.positions@.len() - i,
        {
            let p = raw.positions[i];
            if p[3] as usize >= raw.voxels.len() {
                return Err(SdvxError::Unknown);
            }
            pairs.push((Voxel(raw.voxels[p[3] as usize]), UVec3 { x: p[0], y: p[1], z: p[2] }));
            i += 1;
            assert(pairs@ =~= raw_pairs(*raw).take(i as int));
        }
        assert(raw_pairs(*raw).take(i as int) =~= raw_pairs(*raw));
        Ok(Model::from_voxels(pairs))
    }

    /// The model as flat lists: one voxel word and one position per voxel.
    /// Models of 2^32 voxels or more have no such form.
    pub fn to_raw(&self) -> (r: Option<RawModel>)
        requires
            self.wf(),
        ensures
            match r {
                Some(raw) => raw_valid(raw) && lists(*self, raw_pairs(raw)),
                None => exists|list: Seq<(Voxel, UVec3)>|
                    lists(*self, list) && list.len() > u32::MAX,
            },
    {
        let list = self.voxels();
        if list.len() > u32::MAX as usize {
            return None;
        }
        let mut voxels: Vec<u32> = Vec::new();
        let mut positions: Vec<[u32; 4]> = Vec::new();
        let mut i: usize = 0;
        while i < list.len()
            invariant
                i <= list@.len() <= u32::MAX,
                voxels@.len() == i,
                positions@.len() == i,
                forall|j: int| 0 <= j < i ==> voxels@[j] == (#[trigger] list@[j]).0.0,
                forall|j: int|
                    0 <= j < i ==> (#[trigger] positions@[j])@ == seq![
                        list@[j].1.x,
                        list@[j].1.y,
                        list@[j].1.z,
                        j as u32,
                    ],
            decreases list@.len() - i,
        {
            let e = list[i];
            voxels.push(e.0.0);
            let entry: [u32; 4] = [e.1.x, e.1.y, e.1.z, i as u32];
            assert(entry@ =~= seq![e.1.x, e.1.y, e.1.z, i as u32]);
            positions.push(entry);
            i += 1;
        }
        let raw = RawModel { voxels, positions };
        proof {
            assert forall|j: int| 0 <= j < raw.positions@.len() implies (#[trigger] raw.positions@[j])[3]
                < raw.voxels@.len() by {
                assert(raw.positions@[j]@[3] == j as u32);
            }
            assert forall|j: int| 0 <= j < list@.len() implies raw_pairs(raw)[j] == list@[j] by {
                assert(raw.positions@[j]@[0] == list@[j].1.x);
                assert(raw.positions@[j]@[1] == list@[j].1.y);
                assert(raw.positions@[j]@[2] == list@[j].1.z);
                assert(raw.positions@[j]@[3] == j as u32);
                assert(raw.voxels@[j] == list@[j].0.0);
            }
            assert(raw_pairs(raw) =~= list@);
        }
        Some(raw)
    }
}

} // verus!
