use stardust::brick::Brick;
use stardust::layer0::Layer0;
use stardust::math::uvec3;
use stardust::usage_flags::UsageFlags;
use stardust::voxel::Voxel;

#[test]
fn empty_brick_holds_only_empty_voxels() {
    let b = Brick::empty();
    assert!(b.is_empty());
    assert!(b.is_blank());
    assert!(b.0.iter().all(|v| v.0 == 0));
    assert_eq!(b.0.len(), 4096);
}

#[test]
fn full_brick_holds_opaque_white() {
    let b = Brick::full();
    assert!(!b.is_empty());
    assert!(!b.is_blank());
    assert!(b.0.iter().all(|v| v.0 == 0xFE0F_FFFF));
}

#[test]
fn set_voxel_stores_at_x_plus_16y_plus_256z() {
    let mut b = Brick::empty();
    let v = Voxel::new([255, 0, 0], 0, 0, false, 255);
    b.set_voxel(v, uvec3(1, 2, 3));
    assert_eq!(b.0[1 + 16 * 2 + 256 * 3].0, v.0);
    assert_eq!(b.get_voxel(uvec3(1, 2, 3)).0, v.0);
    assert_eq!(b.get_voxel(uvec3(3, 2, 1)).0, 0);
    assert_eq!(b.0.iter().filter(|v| v.0 != 0).count(), 1);
    b.set_voxel(v, uvec3(15, 15, 15));
    assert_eq!(b.0[4095].0, v.0);
}

#[test]
fn brick_with_transparent_material_is_empty_but_not_blank() {
    let mut b = Brick::empty();
    b.set_voxel(Voxel::new([255, 255, 255], 255, 0, true, 0), uvec3(0, 0, 0));
    assert!(b.is_empty());
    assert!(!b.is_blank());
    b.set_voxel(Voxel::new([0, 0, 0], 0, 0, false, 2), uvec3(15, 0, 0));
    assert!(!b.is_empty());
}

#[test]
fn func_asks_for_every_cell_by_its_coordinates() {
    let b = Brick::func(|x, y, z| Voxel((x + 16 * y + 256 * z) as u32));
    for i in 0..4096usize {
        assert_eq!(b.0[i].0, i as u32);
    }
    let c = Brick::func(|x, _y, _z| if x == 5 { Voxel(9) } else { Voxel(0) });
    assert_eq!(c.get_voxel(uvec3(5, 7, 9)).0, 9);
    assert_eq!(c.get_voxel(uvec3(7, 5, 9)).0, 0);
}

#[test]
fn empty_layer_node_references_no_brick() {
    let l = Layer0::empty();
    assert_eq!(l.brick_indices.len(), 4096);
    assert!(l.brick_indices.iter().all(|i| *i == 0));
}

#[test]
fn usage_flags_set_and_clear_independently() {
    let mut f = UsageFlags::empty();
    assert!(!f.dirty());
    assert!(!f.in_use());
    f.set_dirty(true);
    assert!(f.dirty());
    assert!(!f.in_use());
    assert_eq!(f.0, 1);
    f.set_in_use(true);
    assert!(f.dirty());
    assert!(f.in_use());
    assert_eq!(f.0, 3);
    f.set_dirty(false);
    assert!(!f.dirty());
    assert!(f.in_use());
    assert_eq!(f.0, 2);
    f.set_in_use(false);
    assert_eq!(f.0, 0);
}

#[test]
fn usage_flags_reach_every_bit() {
    let mut f = UsageFlags::empty();
    for bit in 0..8u8 {
        f.set_bit(bit, true);
        assert!(f.get_bit(bit));
    }
    assert_eq!(f.0, 0xFF);
    f.set_bit(7, false);
    assert_eq!(f.0, 0x7F);
    assert!(!f.get_bit(7));
    assert!(f.get_bit(6));
}
