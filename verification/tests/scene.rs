use std::sync::Arc;
use stardust::container::SdvxError;
use stardust::data::GpuModel;
use stardust::math::uvec3;
use stardust::raw::RawModel;
use stardust::scene::CompModel;
use stardust::sdvx::Model;
use stardust::voxel::Voxel;
use stardust::world::World;

fn dot(word: u32) -> Arc<GpuModel> {
    Arc::new(GpuModel::from_voxels(String::from("dot"), &vec![(Voxel(word), uvec3(0, 0, 0))]))
}

#[test]
fn new_component_has_no_model_and_is_clean() {
    let c = CompModel::new();
    assert_eq!(c.vox_pos, uvec3(0, 0, 0));
    assert_eq!(c.prev_vox_pos, uvec3(0, 0, 0));
    assert!(!c.dirty);
    assert!(c.model_ref.is_none());
    assert!(c.next_model.is_none());
}

#[test]
fn moving_remembers_the_old_place() {
    let mut c = CompModel::new();
    c.update_voxel_position(uvec3(0, 0, 0));
    assert!(!c.dirty);
    c.update_voxel_position(uvec3(5, 6, 7));
    assert!(c.dirty);
    assert_eq!(c.prev_vox_pos, uvec3(0, 0, 0));
    assert_eq!(c.vox_pos, uvec3(5, 6, 7));
    c.dirty = false;
    c.update_voxel_position(uvec3(5, 6, 7));
    assert!(!c.dirty);
    assert_eq!(c.prev_vox_pos, uvec3(0, 0, 0));
    c.update_voxel_position(uvec3(8, 6, 7));
    assert_eq!(c.prev_vox_pos, uvec3(5, 6, 7));
}

#[test]
fn clean_component_asks_nothing_of_the_world() {
    let mut w = World::with_pool_sizes(2, 2);
    let mut c = CompModel::new();
    c.model_ref = Some(dot(7));
    c.sync(&mut w);
    w.process();
    assert_eq!(w.models_queued(), 0);
}

#[test]
fn chosen_model_appears_at_the_component() {
    let mut w = World::with_pool_sizes(2, 4);
    let mut c = CompModel::new();
    c.update_voxel_position(uvec3(10, 0, 0));
    c.set_model(Some(dot(7)));
    assert!(c.dirty);
    c.sync(&mut w);
    assert!(!c.dirty);
    assert!(c.next_model.is_none());
    assert!(c.model_ref.is_some());
    w.process();
    assert_eq!(w.models_queued(), 1);
    assert_eq!(w.voxel_at(uvec3(1034, 1024, 1024)).0, 7);
}

#[test]
fn moved_component_takes_its_model_along() {
    let mut w = World::with_pool_sizes(2, 4);
    let mut c = CompModel::new();
    c.set_model(Some(dot(7)));
    c.sync(&mut w);
    w.process();
    assert_eq!(w.voxel_at(uvec3(1024, 1024, 1024)).0, 7);
    c.update_voxel_position(uvec3(3, 0, 0));
    c.sync(&mut w);
    w.process();
    assert_eq!(w.models_queued(), 1);
    assert_eq!(w.voxel_at(uvec3(1024, 1024, 1024)).0, 0);
    assert_eq!(w.voxel_at(uvec3(1027, 1024, 1024)).0, 7);
}

#[test]
fn new_model_replaces_the_current_one() {
    let mut w = World::with_pool_sizes(2, 4);
    let mut c = CompModel::new();
    c.set_model(Some(dot(7)));
    c.sync(&mut w);
    w.process();
    c.update_voxel_position(uvec3(0, 2, 0));
    c.set_model(Some(dot(9)));
    c.sync(&mut w);
    w.process();
    assert_eq!(w.models_queued(), 2);
    assert_eq!(w.voxel_at(uvec3(1024, 1024, 1024)).0, 0);
    assert_eq!(w.voxel_at(uvec3(1024, 1026, 1024)).0, 9);
    assert_eq!(c.model_ref.as_ref().unwrap().record(0).w, 9);
}

#[test]
fn update_model_ref_moves_the_waiting_model() {
    let mut c = CompModel::new();
    c.next_model = Some(dot(3));
    c.update_model_ref();
    assert!(c.next_model.is_none());
    assert_eq!(c.model_ref.as_ref().unwrap().record(0).w, 3);
    c.update_model_ref();
    assert!(c.model_ref.is_none());
}

#[test]
fn raw_lists_become_a_model() {
    let raw = RawModel {
        voxels: vec![11, 22],
        positions: vec![[1, 2, 3, 1], [4, 5, 6, 0], [7, 8, 9, 1]],
    };
    let m = Model::from_raw(&raw).unwrap();
    let mut got: Vec<(u32, u32, u32, u32)> =
        m.voxels().iter().map(|(v, p)| (p.x, p.y, p.z, v.0)).collect();
    got.sort();
    assert_eq!(got, vec![(1, 2, 3, 22), (4, 5, 6, 11), (7, 8, 9, 22)]);
    assert_eq!(m.palette, vec![22, 11]);
}

#[test]
fn raw_index_beyond_the_words_is_refused() {
    let raw = RawModel { voxels: vec![11, 22], positions: vec![[1, 2, 3, 1], [4, 5, 6, 2]] };
    assert_eq!(Model::from_raw(&raw).err(), Some(SdvxError::Unknown));
    let raw = RawModel { voxels: Vec::new(), positions: vec![[0, 0, 0, 0]] };
    assert_eq!(Model::from_raw(&raw).err(), Some(SdvxError::Unknown));
    let raw = RawModel { voxels: Vec::new(), positions: Vec::new() };
    assert!(Model::from_raw(&raw).unwrap().voxels().is_empty());
}

#[test]
fn model_goes_to_raw_lists_and_back() {
    let voxels = vec![
        (Voxel(5), uvec3(1, 1, 1)),
        (Voxel(6), uvec3(100, 1, 1)),
        (Voxel(5), uvec3(1, 100, 1)),
    ];
    let m = Model::from_voxels(voxels);
    let raw = m.to_raw().unwrap();
    assert_eq!(raw.voxels.len(), 3);
    assert_eq!(raw.positions.len(), 3);
    for (i, p) in raw.positions.iter().enumerate() {
        assert_eq!(p[3] as usize, i);
    }
    let back = Model::from_raw(&raw).unwrap();
    let list = |m: &Model| {
        let mut l: Vec<(u32, u32, u32, u32)> =
            m.voxels().iter().map(|(v, p)| (p.x, p.y, p.z, v.0)).collect();
        l.sort();
        l
    };
    assert_eq!(list(&back), list(&m));
    assert_eq!(list(&m), vec![(1, 1, 1, 5), (1, 100, 1, 5), (100, 1, 1, 6)]);
}
