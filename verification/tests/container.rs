use stardust::container::SdvxError;
use stardust::data::GpuModel;
use stardust::math::{uvec3, UVec3, UVec4};
use stardust::sdvx::Model;
use stardust::voxel::Voxel;

fn sorted(mut v: Vec<(Voxel, UVec3)>) -> Vec<(u32, u32, u32, u32)> {
    let mut out: Vec<(u32, u32, u32, u32)> =
        v.drain(..).map(|(v, p)| (p.x, p.y, p.z, v.0)).collect();
    out.sort();
    out
}

fn sample() -> Vec<(Voxel, UVec3)> {
    vec![
        (Voxel(0xFE00_001F), uvec3(0, 0, 0)),
        (Voxel(0xFE00_07E0), uvec3(7, 7, 7)),
        (Voxel(0xFE00_001F), uvec3(8, 0, 0)),
        (Voxel(0x0001_0000), uvec3(100, 200, 300)),
        (Voxel(0xFE00_F800), uvec3(524287, 524287, 524287)),
    ]
}

#[test]
fn empty_model_encodes_to_the_bare_header() {
    let m = Model::from_voxels(Vec::new());
    let bytes = m.to_bytes().unwrap();
    assert_eq!(
        bytes,
        vec![0x00, 0x00, 0x01, 0x00, 0x08, 0x00, 0x00, 0x00, 0x00, 0x00, 0x00, 0x00, 0x00, 0x00, 0x00, 0x00]
    );
}

#[test]
fn one_voxel_model_has_the_documented_layout() {
    let m = Model::from_voxels(vec![(Voxel(0x0403_0201), uvec3(9, 18, 27))]);
    let bytes = m.to_bytes().unwrap();
    assert_eq!(bytes.len(), 16 + 4 + 2056);
    assert_eq!(&bytes[0..6], &[0, 0, 1, 0, 8, 0]);
    assert_eq!(&bytes[6..14], &[1, 0, 0, 0, 0, 0, 0, 0]);
    assert_eq!(&bytes[14..16], &[0, 0]);
    assert_eq!(&bytes[16..20], &[0x01, 0x02, 0x03, 0x04]);
    assert_eq!(&bytes[20..28], &[1, 0, 2, 0, 3, 0, 0, 0]);
    let cell = 1 + 8 * 2 + 64 * 3;
    for k in 0..512usize {
        let at = 28 + 4 * k;
        let expected: [u8; 4] = if k == cell { [1, 0, 0, 0] } else { [0, 0, 0, 0] };
        assert_eq!(&bytes[at..at + 4], &expected);
    }
}

#[test]
fn equal_words_share_one_palette_entry() {
    let m = Model::from_voxels(sample());
    assert_eq!(m.palette, vec![0xFE00_001F, 0xFE00_07E0, 0x0001_0000, 0xFE00_F800]);
    assert_eq!(m.bricks.len(), 4);
    assert_eq!((m.bricks[0].x, m.bricks[0].y, m.bricks[0].z), (0, 0, 0));
    assert_eq!((m.bricks[1].x, m.bricks[1].y, m.bricks[1].z), (1, 0, 0));
    assert_eq!((m.bricks[2].x, m.bricks[2].y, m.bricks[2].z), (12, 25, 37));
    assert_eq!(m.bricks[0].cells[0], 1);
    assert_eq!(m.bricks[0].cells[511], 2);
    assert_eq!(m.bricks[2].cells[4 + 8 * 0 + 64 * 4], 3);
}

#[test]
fn voxels_lists_what_the_model_was_built_from() {
    let m = Model::from_voxels(sample());
    assert_eq!(sorted(m.voxels()), sorted(sample()));
}

#[test]
fn later_voxel_at_a_position_replaces_the_earlier() {
    let m = Model::from_voxels(vec![
        (Voxel(1), uvec3(5, 5, 5)),
        (Voxel(2), uvec3(6, 5, 5)),
        (Voxel(3), uvec3(5, 5, 5)),
    ]);
    assert_eq!(sorted(m.voxels()), vec![(5, 5, 5, 3), (6, 5, 5, 2)]);
}

#[test]
fn empty_voxels_are_not_listed() {
    let m = Model::from_voxels(vec![
        (Voxel(1), uvec3(5, 5, 5)),
        (Voxel(0), uvec3(40, 40, 40)),
        (Voxel(0), uvec3(5, 5, 5)),
        (Voxel(9), uvec3(1, 1, 1)),
    ]);
    assert_eq!(sorted(m.voxels()), vec![(1, 1, 1, 9)]);
    assert_eq!(m.bricks.len(), 1);
}

#[test]
fn container_round_trip_keeps_the_voxels() {
    let m = Model::from_voxels(sample());
    let bytes = m.to_bytes().unwrap();
    assert_eq!(bytes.len(), 16 + 4 * 4 + 4 * 2056);
    let d = Model::from_bytes(&bytes).unwrap();
    assert_eq!(sorted(d.voxels()), sorted(sample()));
    assert_eq!(d.palette, m.palette);
    assert_eq!(d.to_bytes().unwrap(), bytes);
}

#[test]
fn container_round_trip_of_a_dense_block() {
    let mut voxels = Vec::new();
    for x in 0..20u32 {
        for y in 0..9u32 {
            for z in 0..3u32 {
                voxels.push((Voxel(1 + (x * 31 + y * 7 + z) % 50), uvec3(x + 3, y + 60, z + 7)));
            }
        }
    }
    let m = Model::from_voxels(voxels.clone());
    assert_eq!(m.palette.len(), 50);
    let d = Model::from_bytes(&m.to_bytes().unwrap()).unwrap();
    assert_eq!(sorted(d.voxels()), sorted(voxels));
}

#[test]
fn brick_coordinate_beyond_16_bits_cannot_be_written() {
    let m = Model::from_voxels(vec![(Voxel(1), uvec3(524288, 0, 0))]);
    assert_eq!(m.to_bytes(), Err(SdvxError::OutOfRange));
    let m = Model::from_voxels(vec![(Voxel(1), uvec3(0, 0, u32::MAX))]);
    assert_eq!(m.to_bytes(), Err(SdvxError::OutOfRange));
    assert_eq!(sorted(m.voxels()), vec![(0, 0, u32::MAX, 1)]);
}

#[test]
fn short_input_is_unexpected_end_of_file() {
    assert_eq!(Model::from_bytes(&[]).err(), Some(SdvxError::UnexpectedEof));
    assert_eq!(Model::from_bytes(&[0u8; 15]).err(), Some(SdvxError::UnexpectedEof));
    let bytes = Model::from_voxels(sample()).to_bytes().unwrap();
    assert_eq!(Model::from_bytes(&bytes[..bytes.len() - 1]).err(), Some(SdvxError::UnexpectedEof));
    assert_eq!(Model::from_bytes(&bytes[..17]).err(), Some(SdvxError::UnexpectedEof));
    let mut header = vec![0, 0, 1, 0, 8, 0, 0xFF, 0xFF, 0xFF, 0xFF, 0xFF, 0xFF, 0xFF, 0xFF, 0, 0];
    assert_eq!(Model::from_bytes(&header).err(), Some(SdvxError::UnexpectedEof));
    header[6..14].copy_from_slice(&[1, 0, 0, 0, 0, 0, 0, 0]);
    assert_eq!(Model::from_bytes(&header).err(), Some(SdvxError::UnexpectedEof));
}

#[test]
fn foreign_header_is_unknown_parsing_error() {
    let good = Model::from_voxels(sample()).to_bytes().unwrap();
    for (at, value) in [(0usize, 1u8), (1, 1), (2, 0), (2, 2), (3, 1), (4, 16), (5, 1)] {
        let mut bytes = good.clone();
        bytes[at] = value;
        assert_eq!(Model::from_bytes(&bytes).err(), Some(SdvxError::Unknown));
    }
    assert_eq!(Model::from_bytes(&[0xFFu8; 16]).err(), Some(SdvxError::Unknown));
}

#[test]
fn padding_bytes_are_not_read() {
    let mut bytes = Model::from_voxels(sample()).to_bytes().unwrap();
    bytes[14] = 0xAA;
    bytes[15] = 0xBB;
    bytes[16 + 16 + 6] = 0xCC;
    bytes[16 + 16 + 7] = 0xDD;
    let d = Model::from_bytes(&bytes).unwrap();
    assert_eq!(sorted(d.voxels()), sorted(sample()));
}

#[test]
fn cell_beyond_the_palette_is_unknown_parsing_error() {
    let mut bytes = Model::from_voxels(vec![(Voxel(5), uvec3(0, 0, 0))]).to_bytes().unwrap();
    bytes[28] = 2;
    assert_eq!(Model::from_bytes(&bytes).err(), Some(SdvxError::Unknown));
    bytes[28] = 1;
    assert!(Model::from_bytes(&bytes).is_ok());
    bytes[28 + 4 * 511 + 3] = 1;
    assert_eq!(Model::from_bytes(&bytes).err(), Some(SdvxError::Unknown));
}

#[test]
fn two_bricks_at_one_place_are_unknown_parsing_error() {
    let bytes = Model::from_voxels(vec![(Voxel(5), uvec3(0, 0, 0))]).to_bytes().unwrap();
    let mut twice = bytes.clone();
    twice.extend_from_slice(&bytes[20..]);
    assert_eq!(twice.len(), 16 + 4 + 2 * 2056);
    assert_eq!(Model::from_bytes(&twice).err(), Some(SdvxError::Unknown));
    twice[20 + 2056] = 1;
    let d = Model::from_bytes(&twice).unwrap();
    assert_eq!(sorted(d.voxels()), vec![(0, 0, 0, 5), (8, 0, 0, 5)]);
}

#[test]
fn errors_have_their_messages() {
    assert_eq!(SdvxError::UnexpectedEof.message(), "unexpected end of file");
    assert_eq!(SdvxError::Unknown.message(), "unknown parsing error");
    assert_eq!(SdvxError::OutOfRange.message(), "brick coordinate out of range");
}

#[test]
fn gpu_model_offsets_positions_by_1024() {
    let g = GpuModel::from_voxels(
        String::from("pair"),
        &vec![(Voxel(7), uvec3(1, 2, 3)), (Voxel(9), uvec3(u32::MAX, 0, 0))],
    );
    assert_eq!(g.name, "pair");
    assert_eq!(g.voxel_count(), 2);
    assert_eq!(g.record(0), UVec4 { x: 1025, y: 1026, z: 1027, w: 7 });
    assert_eq!(g.record(1), UVec4 { x: 1023, y: 1024, z: 1024, w: 9 });
    assert_eq!(g.vox_buf.len(), 2);
}

#[test]
fn gpu_model_has_no_record_for_an_empty_voxel() {
    let g = GpuModel::from_voxels(
        String::from("gaps"),
        &vec![
            (Voxel(0), uvec3(9, 9, 9)),
            (Voxel(7), uvec3(1, 2, 3)),
            (Voxel::empty(), uvec3(1, 2, 3)),
            (Voxel(8), uvec3(4, 5, 6)),
            (Voxel(0), uvec3(0, 0, 0)),
        ],
    );
    assert_eq!(g.voxel_count(), 2);
    assert_eq!(g.record(0), UVec4 { x: 1025, y: 1026, z: 1027, w: 7 });
    assert_eq!(g.record(1), UVec4 { x: 1028, y: 1029, z: 1030, w: 8 });
    let none = GpuModel::from_voxels(String::from("none"), &vec![(Voxel(0), uvec3(0, 0, 0))]);
    assert_eq!(none.voxel_count(), 0);
}

#[test]
fn two_equal_words_in_one_brick_make_the_smallest_container() {
    let m = Model::from_voxels(vec![(Voxel(7), uvec3(0, 0, 0)), (Voxel(7), uvec3(1, 0, 0))]);
    let bytes = m.to_bytes().unwrap();
    assert_eq!(bytes.len(), 2076);
    assert_eq!(&bytes[6..14], &1u64.to_le_bytes());
    assert_eq!(&bytes[16..20], &7u32.to_le_bytes());
    assert_eq!(m.palette, vec![7]);
    assert_eq!(m.bricks.len(), 1);
}

#[test]
fn well_formedness_can_be_tested() {
    let mut m = Model::from_voxels(sample());
    assert!(m.is_wf());
    assert!(Model::from_voxels(Vec::new()).is_wf());
    m.bricks[0].cells[5] = 5;
    assert!(!m.is_wf());
    m.bricks[0].cells[5] = 4;
    assert!(m.is_wf());
    m.bricks[1].cells.pop();
    assert!(!m.is_wf());
    m.bricks[1].cells.push(0);
    assert!(m.is_wf());
    m.bricks[1].x = 0;
    assert!(!m.is_wf());
    m.bricks[1].x = 0x2000_0000;
    assert!(!m.is_wf());
    m.bricks[1].x = 0x1FFF_FFFF;
    assert!(m.is_wf());
    m.palette.pop();
    assert!(!m.is_wf());
}

#[test]
fn gpu_model_from_model_holds_each_voxel_once() {
    let m = Model::from_voxels(sample());
    let g = GpuModel::from_model(String::from("sample"), &m);
    assert_eq!(g.voxel_count(), 5);
    let mut records: Vec<(u32, u32, u32, u32)> =
        g.vox_buf.iter().map(|r| (r.x.wrapping_sub(1024), r.y.wrapping_sub(1024), r.z.wrapping_sub(1024), r.w)).collect();
    records.sort();
    assert_eq!(records, sorted(sample()));
}
