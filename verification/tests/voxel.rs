use stardust::math::{uvec3, UVec4};
use stardust::voxel::{Voxel, VoxelWithPos};

#[test]
fn red_opaque_voxel_packs_to_expected_word() {
    let v = Voxel::new([255, 0, 0], 0, 0, false, 255);
    assert_eq!(v.0, 0xFE00_001F);
    assert_eq!(v.as_u32(), 0xFE00_001F);
}

#[test]
fn every_field_lands_in_its_bits() {
    assert_eq!(Voxel::new([8, 0, 0], 0, 0, false, 0).0, 0x0000_0001);
    assert_eq!(Voxel::new([0, 4, 0], 0, 0, false, 0).0, 0x0000_0020);
    assert_eq!(Voxel::new([0, 0, 8], 0, 0, false, 0).0, 0x0000_0800);
    assert_eq!(Voxel::new([0, 0, 0], 16, 0, false, 0).0, 0x0001_0000);
    assert_eq!(Voxel::new([0, 0, 0], 0, 16, false, 0).0, 0x0010_0000);
    assert_eq!(Voxel::new([0, 0, 0], 0, 0, true, 0).0, 0x0100_0000);
    assert_eq!(Voxel::new([0, 0, 0], 0, 0, false, 2).0, 0x0200_0000);
    assert_eq!(Voxel::new([255, 255, 255], 255, 255, true, 255).0, 0xFFFF_FFFF);
}

#[test]
fn accessors_return_quantised_channels() {
    let v = Voxel::new([203, 117, 94], 200, 77, true, 129);
    assert_eq!(v.rgb(), [200, 116, 88]);
    assert_eq!(v.roughness(), 192);
    assert_eq!(v.emissive(), 64);
    assert!(v.metallic());
    assert!(v.metalic());
    assert_eq!(v.opacity(), 128);
}

#[test]
fn round_trip_holds_for_every_value_of_each_channel() {
    for x in 0..=255u8 {
        let v = Voxel::new([x, 255 - x, x / 2], x, 255 - x, x % 2 == 0, x);
        assert_eq!(v.rgb(), [x & 0xF8, (255 - x) & 0xFC, (x / 2) & 0xF8]);
        assert_eq!(v.roughness(), x & 0xF0);
        assert_eq!(v.emissive(), (255 - x) & 0xF0);
        assert_eq!(v.metallic(), x % 2 == 0);
        assert_eq!(v.opacity(), x & 0xFE);
    }
}

#[test]
fn empty_voxel_is_empty() {
    assert!(Voxel::empty().is_empty());
    assert_eq!(Voxel::empty().0, 0);
    assert_eq!(Voxel::empty().rgb(), [0, 0, 0]);
    assert_eq!(Voxel::empty().opacity(), 0);
    assert!(!Voxel::empty().metallic());
}

#[test]
fn transparent_voxel_with_material_is_not_empty() {
    assert!(!Voxel::new([0, 0, 0], 16, 0, false, 0).is_empty());
    assert!(!Voxel::new([0, 0, 0], 0, 16, false, 0).is_empty());
    assert!(!Voxel::new([0, 0, 0], 255, 255, false, 0).is_empty());
    assert!(!Voxel::new([0, 0, 0], 0, 0, true, 0).is_empty());
}

#[test]
fn channels_below_one_step_quantise_to_the_empty_voxel() {
    assert!(Voxel::new([7, 3, 7], 15, 15, false, 1).is_empty());
    assert!(Voxel::new([0, 0, 0], 1, 0, false, 0).is_empty());
}

#[test]
fn voxel_with_pos_pads_position_with_zero() {
    let v = Voxel::new([255, 255, 255], 0, 0, false, 255);
    let r = VoxelWithPos::from_voxel(v, uvec3(3, 4, 5));
    assert_eq!(r.0 .0, UVec4 { x: 3, y: 4, z: 5, w: 0 });
    assert_eq!(r.0 .1 .0, v.0);
}
