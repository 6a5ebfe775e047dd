use std::sync::Arc;
use stardust::brickmap::{Kernel, QueueEntry};
use stardust::data::GpuModel;
use stardust::kernels::Brickmap;
use stardust::math::{uvec3, UVec3};
use stardust::voxel::Voxel;
use stardust::world::{Buffer, World, VOXEL_QUEUE_SIZE};

fn red() -> Voxel {
    Voxel::new([255, 0, 0], 0, 0, false, 255)
}

fn bricks_in_use(w: &World, positions: &[UVec3]) -> usize {
    let mut seen: Vec<u32> = Vec::new();
    for p in positions {
        let b = w.layer_entry(*p);
        if b != 0 && !seen.contains(&b) {
            seen.push(b);
        }
    }
    seen.len()
}

#[test]
fn fresh_world_has_full_pools_and_reads_empty() {
    let w = World::with_pool_sizes(3, 5);
    assert_eq!(w.bricks_free(), 5);
    assert_eq!(w.layer0s_free(), 3);
    assert_eq!(w.voxels_queued(), 0);
    assert_eq!(w.models_queued(), 0);
    assert_eq!(w.voxel_chunks(), 0);
    assert_eq!(w.model_chunks(), 0);
    assert_eq!(w.dealloc_dispatches(), 0);
    assert_eq!(w.binding(0), None);
    assert!(w.gpu_models.is_empty());
    assert!(w.voxel_at(uvec3(0, 0, 0)).is_empty());
    assert_eq!(w.root_entry(uvec3(0, 0, 0)), 0);
    assert_eq!(w.layer_entry(uvec3(0, 0, 0)), 0);
}

#[test]
fn default_world_has_full_size_pools() {
    let mut w = World::new();
    assert_eq!(w.bricks_free(), 32768);
    assert_eq!(w.layer0s_free(), 8192);
    w.process();
    assert_eq!(w.dealloc_dispatches(), 8);
    assert_eq!(w.bricks_free(), 32768);
}

#[test]
fn set_voxel_only_queues_until_process() {
    let mut w = World::with_pool_sizes(2, 2);
    w.set_voxel(red(), uvec3(1, 2, 3));
    assert!(w.voxel_at(uvec3(1, 2, 3)).is_empty());
    assert_eq!(w.bricks_free(), 2);
    assert_eq!(w.voxels_queued(), 0);
    w.process();
    assert_eq!(w.voxels_queued(), 1);
    assert_eq!(w.voxel_chunks(), 1);
    assert_eq!(w.voxel_at(uvec3(1, 2, 3)).0, red().0);
    assert_eq!(w.bricks_free(), 1);
    assert_eq!(w.layer0s_free(), 1);
    w.process();
    assert_eq!(w.voxels_queued(), 0);
    assert_eq!(w.voxel_chunks(), 0);
    assert_eq!(w.voxel_at(uvec3(1, 2, 3)).0, red().0);
}

#[test]
fn third_root_cell_is_dropped_when_layer_pool_holds_two() {
    let mut w = World::with_pool_sizes(2, 2);
    w.set_voxel(red(), uvec3(0, 0, 0));
    w.set_voxel(red(), uvec3(4096, 0, 0));
    w.set_voxel(red(), uvec3(8192, 0, 0));
    w.process();
    assert_eq!(w.layer0s_free(), 0);
    let first = w.root_entry(uvec3(0, 0, 0));
    let second = w.root_entry(uvec3(4096, 0, 0));
    assert_ne!(first, 0);
    assert_ne!(second, 0);
    assert_ne!(first, second);
    assert_eq!(w.root_entry(uvec3(8192, 0, 0)), 0);
    assert!(w.voxel_at(uvec3(8192, 0, 0)).is_empty());
    assert_eq!(w.voxel_at(uvec3(0, 0, 0)).0, red().0);
    assert_eq!(w.voxel_at(uvec3(4096, 0, 0)).0, red().0);
    assert_eq!(w.bricks_free(), 0);
}

#[test]
fn write_is_dropped_when_brick_pool_is_exhausted() {
    let mut w = World::with_pool_sizes(4, 1);
    w.set_voxel(red(), uvec3(0, 0, 0));
    w.set_voxel(red(), uvec3(16, 0, 0));
    w.process();
    assert_eq!(w.bricks_free(), 0);
    assert_eq!(w.voxel_at(uvec3(0, 0, 0)).0, red().0);
    assert!(w.voxel_at(uvec3(16, 0, 0)).is_empty());
    assert_eq!(w.layer_entry(uvec3(16, 0, 0)), 0);
    assert_eq!(w.layer0s_free(), 3);
}

#[test]
fn write_outside_the_root_map_is_dropped() {
    let mut w = World::with_pool_sizes(2, 2);
    w.set_voxel(red(), uvec3(16384, 0, 0));
    w.set_voxel(red(), uvec3(0, 16384, 0));
    w.set_voxel(red(), uvec3(0, 0, u32::MAX));
    w.process();
    assert_eq!(w.bricks_free(), 2);
    assert_eq!(w.layer0s_free(), 2);
    assert!(w.voxel_at(uvec3(16384, 0, 0)).is_empty());
    w.set_voxel(red(), uvec3(16383, 16383, 16383));
    w.process();
    assert_eq!(w.voxel_at(uvec3(16383, 16383, 16383)).0, red().0);
}

#[test]
fn placed_model_voxel_is_read_back_exactly() {
    let mut w = World::with_pool_sizes(2, 2);
    let m = Arc::new(GpuModel::from_voxels(
        String::from("dot"),
        &vec![(Voxel(0x01FE_01FF), uvec3(1, 2, 3))],
    ));
    w.register_model(Arc::clone(&m));
    w.update_model(m, uvec3(0, 0, 0), uvec3(0, 0, 0), false);
    w.process();
    assert_eq!(w.models_queued(), 1);
    let p = uvec3(4 * 256 + 1, 4 * 256 + 2, 4 * 256 + 3);
    assert_eq!(p, uvec3(1025, 1026, 1027));
    assert_eq!(w.voxel_at(p).0, 0x01FE_01FF);
    assert_ne!(w.root_entry(uvec3(1024, 1024, 1024)), 0);
    assert_ne!(w.layer_entry(uvec3(1024, 1024, 1024)), 0);
    assert_eq!(w.layer_entry(p), w.layer_entry(uvec3(1024, 1024, 1024)));
    assert_eq!(w.bricks_free(), 1);
    assert_eq!(w.gpu_models.len(), 1);
    assert_eq!(w.gpu_models[0].name, "dot");
}

#[test]
fn one_entry_more_than_a_chunk_takes_two_chunks() {
    let mut w = World::with_pool_sizes(1, 16);
    let mut positions = Vec::new();
    'fill: for z in 0..256u32 {
        for y in 0..16u32 {
            for x in 0..16u32 {
                if positions.len() == VOXEL_QUEUE_SIZE + 1 {
                    break 'fill;
                }
                positions.push(uvec3(x, y, z));
            }
        }
    }
    assert_eq!(positions.len(), 32769);
    for (i, p) in positions.iter().enumerate() {
        w.set_voxel(Voxel(i as u32 + 1), *p);
    }
    w.process();
    assert_eq!(w.voxels_queued(), 32769);
    assert_eq!(w.voxel_chunks(), 2);
    assert_eq!(w.model_chunks(), 0);
    assert_eq!(w.dealloc_dispatches(), 1);
    for (i, p) in positions.iter().enumerate() {
        assert_eq!(w.voxel_at(*p).0, i as u32 + 1);
    }
    assert_eq!(w.bricks_free(), 16 - 9);
}

#[test]
fn chunk_count_is_ceiling_of_queue_length_over_chunk_size() {
    let mut w = World::with_pool_sizes(1, 1);
    w.process();
    assert_eq!(w.voxel_chunks(), 0);
    for _ in 0..VOXEL_QUEUE_SIZE {
        w.set_voxel(red(), uvec3(0, 0, 0));
    }
    w.process();
    assert_eq!(w.voxel_chunks(), 1);
    for _ in 0..2 * VOXEL_QUEUE_SIZE + 1 {
        w.set_voxel(red(), uvec3(0, 0, 0));
    }
    w.process();
    assert_eq!(w.voxel_chunks(), 3);
}

#[test]
fn two_writes_to_one_cell_leave_one_of_them_and_touch_nothing_else() {
    let mut w = World::with_pool_sizes(2, 2);
    let v1 = Voxel::new([255, 0, 0], 0, 0, false, 255);
    let v2 = Voxel::new([0, 255, 0], 0, 0, false, 255);
    let p = uvec3(300, 20, 7);
    w.set_voxel(v1, p);
    w.set_voxel(v2, p);
    w.process();
    let got = w.voxel_at(p).0;
    assert!(got == v1.0 || got == v2.0);
    assert_eq!(got, v2.0);
    for dx in 0..16u32 {
        for dy in 0..16u32 {
            for dz in 0..16u32 {
                let q = uvec3(288 + dx, 16 + dy, dz);
                if q != p {
                    assert!(w.voxel_at(q).is_empty());
                }
            }
        }
    }
    assert_eq!(w.bricks_free(), 1);
}

#[test]
fn emptied_brick_returns_to_the_pool() {
    let mut w = World::with_pool_sizes(2, 3);
    let before = w.bricks_free();
    w.set_voxel(red(), uvec3(5, 5, 5));
    w.process();
    assert_eq!(w.bricks_free(), before - 1);
    let brick = w.layer_entry(uvec3(5, 5, 5));
    assert_ne!(brick, 0);
    for z in 0..16u32 {
        for y in 0..16u32 {
            for x in 0..16u32 {
                w.set_voxel(Voxel::empty(), uvec3(x, y, z));
            }
        }
    }
    w.process();
    w.process();
    assert_eq!(w.bricks_free(), before);
    assert_eq!(w.bricks_free(), (before - 1) + 1);
    assert_eq!(w.layer_entry(uvec3(5, 5, 5)), 0);
    assert!(w.voxel_at(uvec3(5, 5, 5)).is_empty());
    assert_ne!(w.root_entry(uvec3(5, 5, 5)), 0);
    assert_eq!(w.layer0s_free(), 1);
    w.set_voxel(red(), uvec3(100, 0, 0));
    w.process();
    assert_eq!(w.layer_entry(uvec3(100, 0, 0)), brick);
}

#[test]
fn brick_with_one_voxel_left_stays_allocated() {
    let mut w = World::with_pool_sizes(1, 2);
    w.set_voxel(red(), uvec3(0, 0, 0));
    w.set_voxel(red(), uvec3(1, 0, 0));
    w.process();
    w.set_voxel(Voxel::empty(), uvec3(0, 0, 0));
    w.process();
    assert_eq!(w.bricks_free(), 1);
    assert_eq!(w.voxel_at(uvec3(1, 0, 0)).0, red().0);
    assert!(w.voxel_at(uvec3(0, 0, 0)).is_empty());
}

#[test]
fn brick_of_transparent_material_is_not_reclaimed() {
    let mut w = World::with_pool_sizes(1, 1);
    let ghost = Voxel::new([0, 0, 0], 255, 0, false, 0);
    w.set_voxel(ghost, uvec3(3, 3, 3));
    w.process();
    assert_eq!(w.bricks_free(), 0);
    assert_eq!(w.voxel_at(uvec3(3, 3, 3)).0, ghost.0);
}

#[test]
fn free_and_used_bricks_add_up_to_the_pool() {
    let mut w = World::with_pool_sizes(4, 6);
    let positions = vec![
        uvec3(0, 0, 0),
        uvec3(16, 0, 0),
        uvec3(0, 16, 0),
        uvec3(256, 0, 0),
        uvec3(257, 0, 0),
        uvec3(0, 0, 4000),
        uvec3(15, 15, 15),
    ];
    for p in &positions {
        w.set_voxel(red(), *p);
    }
    w.process();
    let used = bricks_in_use(&w, &positions);
    assert_eq!(used, 5);
    assert_eq!(w.bricks_free() as usize + used, 6);
    assert_eq!(w.layer0s_free(), 1);
    w.set_voxel(Voxel::empty(), uvec3(16, 0, 0));
    w.process();
    let used = bricks_in_use(&w, &positions);
    assert_eq!(used, 4);
    assert_eq!(w.bricks_free() as usize + used, 6);
}

#[test]
fn empty_write_to_empty_cell_changes_nothing() {
    let mut w = World::with_pool_sizes(2, 2);
    w.set_voxel(red(), uvec3(0, 0, 0));
    w.process();
    let bricks = w.bricks_free();
    let layers = w.layer0s_free();
    let root = w.root_entry(uvec3(40, 0, 0));
    w.set_voxel(Voxel::empty(), uvec3(40, 0, 0));
    w.set_voxel(Voxel::empty(), uvec3(1, 0, 0));
    w.process();
    assert_eq!(w.bricks_free(), bricks);
    assert_eq!(w.layer0s_free(), layers);
    assert_eq!(w.root_entry(uvec3(40, 0, 0)), root);
    assert_eq!(w.layer_entry(uvec3(40, 0, 0)), 0);
    assert_eq!(w.voxel_at(uvec3(0, 0, 0)).0, red().0);
    assert!(w.voxel_at(uvec3(1, 0, 0)).is_empty());
}

#[test]
fn empty_write_to_a_root_cell_without_layer_node_takes_one() {
    let mut w = World::with_pool_sizes(2, 2);
    w.set_voxel(Voxel::empty(), uvec3(300, 0, 0));
    w.process();
    assert_eq!(w.layer0s_free(), 1);
    assert_eq!(w.bricks_free(), 2);
    assert_ne!(w.root_entry(uvec3(300, 0, 0)), 0);
    assert!(w.voxel_at(uvec3(300, 0, 0)).is_empty());
}

fn cross() -> Vec<(Voxel, UVec3)> {
    vec![
        (Voxel(0x0200_0001), uvec3(0, 0, 0)),
        (Voxel(0x0200_0002), uvec3(1, 0, 0)),
        (Voxel(0x0200_0003), uvec3(0, 1, 0)),
        (Voxel(0x0200_0004), uvec3(0, 0, 1)),
        (Voxel(0x0200_0005), uvec3(20, 0, 0)),
    ]
}

#[test]
fn model_moves_from_old_position_to_new() {
    let mut w = World::with_pool_sizes(4, 8);
    let m = Arc::new(GpuModel::from_voxels(String::from("cross"), &cross()));
    w.update_model(Arc::clone(&m), uvec3(0, 0, 0), uvec3(0, 0, 0), false);
    w.process();
    for (v, p) in cross() {
        assert_eq!(w.voxel_at(uvec3(p.x + 1024, p.y + 1024, p.z + 1024)).0, v.0);
    }
    w.update_model(Arc::clone(&m), uvec3(0, 0, 0), uvec3(100, 0, 0), false);
    w.process();
    for (v, p) in cross() {
        assert_eq!(w.voxel_at(uvec3(p.x + 1124, p.y + 1024, p.z + 1024)).0, v.0);
    }
    assert!(w.voxel_at(uvec3(1024, 1024, 1024)).is_empty());
    assert!(w.voxel_at(uvec3(1025, 1024, 1024)).is_empty());
    assert!(w.voxel_at(uvec3(1044, 1024, 1024)).is_empty());
}

#[test]
fn replacing_model_in_place_leaves_world_unchanged() {
    let mut w = World::with_pool_sizes(4, 8);
    let m = Arc::new(GpuModel::from_voxels(String::from("cross"), &cross()));
    w.set_voxel(red(), uvec3(1030, 1030, 1030));
    w.update_model(Arc::clone(&m), uvec3(7, 0, 0), uvec3(7, 0, 0), false);
    w.process();
    let bricks = w.bricks_free();
    let layers = w.layer0s_free();
    w.update_model(Arc::clone(&m), uvec3(7, 0, 0), uvec3(7, 0, 0), false);
    w.process();
    assert_eq!(w.bricks_free(), bricks);
    assert_eq!(w.layer0s_free(), layers);
    for (v, p) in cross() {
        assert_eq!(w.voxel_at(uvec3(p.x + 1031, p.y + 1024, p.z + 1024)).0, v.0);
    }
    assert_eq!(w.voxel_at(uvec3(1030, 1030, 1030)).0, red().0);
}

#[test]
fn placing_model_over_other_content_changes_the_world() {
    let mut w = World::with_pool_sizes(4, 8);
    let m = Arc::new(GpuModel::from_voxels(String::from("cross"), &cross()));
    w.set_voxel(red(), uvec3(1025, 1024, 1024));
    w.process();
    w.update_model(Arc::clone(&m), uvec3(0, 0, 0), uvec3(0, 0, 0), false);
    w.process();
    assert_eq!(w.voxel_at(uvec3(1025, 1024, 1024)).0, 0x0200_0002);
}

#[test]
fn placing_then_removing_model_restores_cells_it_owned() {
    let mut w = World::with_pool_sizes(4, 8);
    let m = Arc::new(GpuModel::from_voxels(String::from("cross"), &cross()));
    w.set_voxel(red(), uvec3(2000, 1024, 1024));
    w.process();
    let bricks = w.bricks_free();
    w.update_model(Arc::clone(&m), uvec3(0, 0, 0), uvec3(500, 0, 0), false);
    w.update_model(Arc::clone(&m), uvec3(500, 0, 0), uvec3(500, 0, 0), true);
    w.process();
    assert_eq!(w.models_queued(), 2);
    for (_, p) in cross() {
        assert!(w.voxel_at(uvec3(p.x + 1524, p.y + 1024, p.z + 1024)).is_empty());
        assert!(w.voxel_at(uvec3(p.x + 1024, p.y + 1024, p.z + 1024)).is_empty());
    }
    assert_eq!(w.voxel_at(uvec3(2000, 1024, 1024)).0, red().0);
    assert_eq!(w.bricks_free(), bricks);
}

#[test]
fn remove_only_clears_the_model_and_nothing_else() {
    let mut w = World::with_pool_sizes(4, 8);
    let m = Arc::new(GpuModel::from_voxels(String::from("cross"), &cross()));
    w.update_model(Arc::clone(&m), uvec3(0, 0, 0), uvec3(0, 0, 0), false);
    w.set_voxel(red(), uvec3(1026, 1024, 1024));
    w.process();
    w.update_model(Arc::clone(&m), uvec3(0, 0, 0), uvec3(9, 9, 9), true);
    w.process();
    for (_, p) in cross() {
        assert!(w.voxel_at(uvec3(p.x + 1024, p.y + 1024, p.z + 1024)).is_empty());
        assert!(w.voxel_at(uvec3(p.x + 1033, p.y + 1033, p.z + 1033)).is_empty());
    }
    assert_eq!(w.voxel_at(uvec3(1026, 1024, 1024)).0, red().0);
}

#[test]
fn empty_voxel_of_a_model_leaves_the_cell_as_it_was() {
    let mut w = World::with_pool_sizes(2, 2);
    w.set_voxel(red(), uvec3(1030, 1024, 1024));
    w.process();
    let m = Arc::new(GpuModel::from_voxels(
        String::from("gap"),
        &vec![(Voxel::empty(), uvec3(6, 0, 0)), (Voxel(9), uvec3(7, 0, 0))],
    ));
    w.update_model(m, uvec3(0, 0, 0), uvec3(0, 0, 0), false);
    w.process();
    assert_eq!(w.voxel_at(uvec3(1030, 1024, 1024)).0, red().0);
    assert_eq!(w.voxel_at(uvec3(1031, 1024, 1024)).0, 9);
}

#[test]
fn model_positions_wrap_around_like_device_words() {
    let mut w = World::with_pool_sizes(2, 2);
    let m = Arc::new(GpuModel::from_voxels(
        String::from("dot"),
        &vec![(Voxel(7), uvec3(0, 0, 0))],
    ));
    let back = u32::MAX - 1023;
    w.update_model(m, uvec3(0, 0, 0), uvec3(back, back, back), false);
    w.process();
    assert_eq!(w.voxel_at(uvec3(0, 0, 0)).0, 7);
}

#[test]
fn model_of_no_voxels_changes_nothing() {
    let mut w = World::with_pool_sizes(2, 2);
    let m = Arc::new(GpuModel::from_voxels(String::from("none"), &Vec::new()));
    assert_eq!(m.voxel_count(), 0);
    w.update_model(m, uvec3(0, 0, 0), uvec3(1, 1, 1), false);
    w.process();
    assert_eq!(w.models_queued(), 1);
    assert_eq!(w.bricks_free(), 2);
    assert_eq!(w.layer0s_free(), 2);
}

#[test]
fn model_moves_take_one_chunk_per_pass_and_per_chunk_of_records() {
    let mut w = World::with_pool_sizes(1, 2);
    let none = Arc::new(GpuModel::from_voxels(String::from("none"), &Vec::new()));
    let one = Arc::new(GpuModel::from_voxels(String::from("one"), &vec![(Voxel(3), uvec3(0, 0, 0))]));
    let mut many = Vec::new();
    for i in 0..(VOXEL_QUEUE_SIZE as u32 + 1) {
        many.push((Voxel(1 + i), uvec3(i % 16, (i / 16) % 16, 0)));
    }
    let big = Arc::new(GpuModel::from_voxels(String::from("big"), &many));
    w.update_model(none, uvec3(0, 0, 0), uvec3(0, 0, 0), false);
    w.process();
    assert_eq!(w.model_chunks(), 2);
    w.update_model(Arc::clone(&one), uvec3(0, 0, 0), uvec3(0, 0, 0), true);
    w.process();
    assert_eq!(w.model_chunks(), 1);
    w.update_model(Arc::clone(&one), uvec3(0, 0, 0), uvec3(0, 0, 0), false);
    w.update_model(Arc::clone(&big), uvec3(0, 0, 0), uvec3(0, 0, 0), true);
    w.update_model(Arc::clone(&big), uvec3(0, 0, 0), uvec3(0, 0, 0), false);
    w.process();
    assert_eq!(w.model_chunks(), 2 + 2 + 4);
    assert_eq!(w.voxel_chunks(), 0);
    assert_eq!(w.voxel_at(uvec3(1024 + 15, 1024 + 15, 1024)).0, 1 + 32512 + 255);
    w.process();
    assert_eq!(w.model_chunks(), 0);
}

#[test]
fn deallocation_covers_the_pool_in_dispatches_of_4096_bricks() {
    let mut w = World::with_pool_sizes(1, 0);
    w.process();
    assert_eq!(w.dealloc_dispatches(), 0);
    let mut w = World::with_pool_sizes(1, 4096);
    w.process();
    assert_eq!(w.dealloc_dispatches(), 1);
    let mut w = World::with_pool_sizes(1, 4097);
    w.process();
    assert_eq!(w.dealloc_dispatches(), 2);
}

#[test]
fn bind_puts_the_three_buffers_at_their_slots() {
    let mut w = World::with_pool_sizes(1, 1);
    w.set_voxel(red(), uvec3(0, 0, 0));
    w.bind();
    assert_eq!(w.binding(0), Some(Buffer::BrickPool));
    assert_eq!(w.binding(1), Some(Buffer::LayerPool));
    assert_eq!(w.binding(2), Some(Buffer::RootMap));
    assert_eq!(w.binding(3), None);
    assert_eq!(w.binding(usize::MAX), None);
    assert!(w.voxel_at(uvec3(0, 0, 0)).is_empty());
    w.unbind();
    assert_eq!(w.binding(0), None);
    assert_eq!(w.binding(1), None);
    assert_eq!(w.binding(2), None);
}

#[test]
fn process_leaves_no_slot_bound() {
    let mut w = World::with_pool_sizes(1, 1);
    w.set_voxel(red(), uvec3(0, 0, 0));
    w.bind();
    w.process();
    assert_eq!(w.binding(0), None);
    assert_eq!(w.binding(1), None);
    assert_eq!(w.binding(2), None);
    assert_eq!(w.voxel_at(uvec3(0, 0, 0)).0, red().0);
}

#[test]
fn kernels_run_one_after_the_other_over_the_staging_records() {
    let mut m = Brickmap::new(2, 2);
    let staging = vec![
        QueueEntry { pos: uvec3(0, 0, 0), word: 5 },
        QueueEntry { pos: uvec3(17, 0, 0), word: 6 },
        QueueEntry { pos: uvec3(33, 0, 0), word: 7 },
    ];
    m.dispatch(Kernel::WriteVoxels, &staging, 3);
    assert_eq!(m.voxel_at(uvec3(0, 0, 0)).0, 0);
    m.dispatch(Kernel::AllocBricks, &staging, 3);
    assert_eq!(m.bricks_free(), 2);
    m.dispatch(Kernel::AllocLayers, &staging, 3);
    assert_eq!(m.layers_free(), 1);
    assert_eq!(m.root_entry(uvec3(0, 0, 0)), 2);
    m.dispatch(Kernel::AllocBricks, &staging, 2);
    assert_eq!(m.bricks_free(), 0);
    assert_eq!(m.layer_entry(uvec3(0, 0, 0)), 2);
    assert_eq!(m.layer_entry(uvec3(17, 0, 0)), 1);
    m.dispatch(Kernel::WriteVoxels, &staging, 3);
    assert_eq!(m.voxel_at(uvec3(0, 0, 0)).0, 5);
    assert_eq!(m.voxel_at(uvec3(17, 0, 0)).0, 6);
    assert_eq!(m.voxel_at(uvec3(33, 0, 0)).0, 0);
    assert_eq!(m.brick_capacity(), 2);
}

#[test]
fn deallocation_kernel_inspects_only_its_range() {
    let mut m = Brickmap::new(1, 2);
    let fill = vec![
        QueueEntry { pos: uvec3(0, 0, 0), word: 5 },
        QueueEntry { pos: uvec3(16, 0, 0), word: 6 },
    ];
    m.dispatch(Kernel::AllocLayers, &fill, 2);
    m.dispatch(Kernel::AllocBricks, &fill, 2);
    m.dispatch(Kernel::WriteVoxels, &fill, 2);
    let clear = vec![
        QueueEntry { pos: uvec3(0, 0, 0), word: 0 },
        QueueEntry { pos: uvec3(16, 0, 0), word: 0 },
    ];
    m.dispatch(Kernel::WriteVoxels, &clear, 2);
    assert_eq!(m.layer_entry(uvec3(0, 0, 0)), 2);
    assert_eq!(m.layer_entry(uvec3(16, 0, 0)), 1);
    m.dealloc_bricks(0, 1);
    assert_eq!(m.bricks_free(), 1);
    assert_eq!(m.layer_entry(uvec3(16, 0, 0)), 0);
    assert_eq!(m.layer_entry(uvec3(0, 0, 0)), 2);
    m.dealloc_bricks(1, 1);
    assert_eq!(m.bricks_free(), 2);
    assert_eq!(m.layer_entry(uvec3(0, 0, 0)), 0);
}
