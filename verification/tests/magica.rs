use stardust::magica_voxel::{
    nesting_within, MagicaVoxelError, MagicaVoxelModel, VoxNode, VoxScene,
};
use stardust::math::{ivec3, uvec3, IVec3};
use stardust::voxel::Voxel;

fn palette() -> Vec<[u8; 4]> {
    vec![[255, 0, 0, 255], [0, 255, 0, 255], [0, 0, 255, 128]]
}

fn one_shape(position: IVec3) -> VoxScene {
    VoxScene {
        models: vec![vec![[0, 0, 0, 0], [1, 2, 3, 1], [4, 0, 9, 2]]],
        palette: palette(),
        nodes: vec![
            VoxNode::Transform { frames: vec![Some(position)], child: 1 },
            VoxNode::Shape { models: vec![0] },
        ],
    }
}

fn sorted(m: &stardust::sdvx::Model) -> Vec<(u32, u32, u32, u32)> {
    let mut out: Vec<(u32, u32, u32, u32)> =
        m.voxels().iter().map(|(v, p)| (p.x, p.y, p.z, v.0)).collect();
    out.sort();
    out
}

#[test]
fn shape_below_transform_is_moved_by_its_position() {
    let m = MagicaVoxelModel::from_scene(&one_shape(ivec3(10, 20, 30))).unwrap();
    assert_eq!(
        m.voxels,
        vec![(ivec3(10, 20, 30), 0), (ivec3(11, 22, 33), 1), (ivec3(14, 20, 39), 2)]
    );
    assert_eq!(m.voxel_bounds(), (ivec3(0, 0, 0), ivec3(14, 22, 39)));
    assert_eq!(m.palette.len(), 3);
    assert_eq!(m.palette[2].rgb, [0, 0, 255]);
    assert_eq!(m.palette[2].opacity, 128);
}

#[test]
fn bounds_reach_below_the_origin() {
    let m = MagicaVoxelModel::from_scene(&one_shape(ivec3(-5, 1, -20))).unwrap();
    assert_eq!(m.voxel_bounds(), (ivec3(-5, 0, -20), ivec3(0, 3, 0)));
}

#[test]
fn import_becomes_a_model_with_axes_exchanged() {
    let m = MagicaVoxelModel::from_scene(&one_shape(ivec3(10, 20, 30))).unwrap();
    let model = m.to_sdvx();
    let red = Voxel::new([255, 0, 0], 255, 0, false, 255).0;
    let green = Voxel::new([0, 255, 0], 255, 0, false, 255).0;
    let blue = Voxel::new([0, 0, 255], 255, 0, false, 255).0;
    assert_eq!(red, 0xFE0F_001F);
    assert_eq!(
        sorted(&model),
        vec![(10, 30, 20, red), (11, 33, 22, green), (14, 39, 20, blue)]
    );
}

#[test]
fn lower_corner_is_added_to_each_position() {
    let m = MagicaVoxelModel::from_scene(&one_shape(ivec3(-1, 5, 7))).unwrap();
    assert_eq!(m.voxel_bounds().0, ivec3(-1, 0, 0));
    let model = m.to_sdvx();
    let positions: Vec<(u32, u32, u32)> = sorted(&model).iter().map(|v| (v.0, v.1, v.2)).collect();
    assert_eq!(positions, vec![(2, 16, 5), (u32::MAX - 1, 7, 5), (u32::MAX, 10, 7)]);
    assert_eq!(uvec3(2, 16, 5), uvec3((4 - 1 - 1) as u32, 16, 5));
}

#[test]
fn shape_below_a_group_is_collected_once_per_transform_above() {
    let scene = VoxScene {
        models: vec![vec![[1, 1, 1, 0]]],
        palette: palette(),
        nodes: vec![
            VoxNode::Transform { frames: vec![Some(ivec3(100, 0, 0))], child: 1 },
            VoxNode::Group { children: vec![2] },
            VoxNode::Transform { frames: vec![Some(ivec3(0, 5, 0))], child: 3 },
            VoxNode::Shape { models: vec![0, 0] },
        ],
    };
    let m = MagicaVoxelModel::from_scene(&scene).unwrap();
    assert_eq!(m.voxels, vec![(ivec3(1, 6, 1), 0); 4]);
}

#[test]
fn scene_without_nodes_is_empty() {
    let scene = VoxScene { models: Vec::new(), palette: Vec::new(), nodes: Vec::new() };
    let m = MagicaVoxelModel::from_scene(&scene).unwrap();
    assert!(m.voxels.is_empty());
    assert_eq!(m.voxel_bounds(), (ivec3(0, 0, 0), ivec3(0, 0, 0)));
    assert!(m.to_sdvx().voxels().is_empty());
}

#[test]
fn malformed_scenes_are_refused() {
    let mut scene = one_shape(ivec3(0, 0, 0));
    scene.nodes[0] = VoxNode::Transform { frames: vec![Some(ivec3(0, 0, 0))], child: 2 };
    assert_eq!(MagicaVoxelModel::from_scene(&scene).err(), Some(MagicaVoxelError::Malformed));

    let mut scene = one_shape(ivec3(0, 0, 0));
    scene.nodes[1] = VoxNode::Shape { models: vec![1] };
    assert_eq!(MagicaVoxelModel::from_scene(&scene).err(), Some(MagicaVoxelError::Malformed));

    let mut scene = one_shape(ivec3(0, 0, 0));
    scene.nodes[1] = VoxNode::Transform { frames: vec![Some(ivec3(0, 0, 0))], child: 0 };
    assert_eq!(MagicaVoxelModel::from_scene(&scene).err(), Some(MagicaVoxelError::Malformed));

    let mut scene = one_shape(ivec3(0, 0, 0));
    scene.nodes[1] = VoxNode::Group { children: vec![0] };
    assert_eq!(MagicaVoxelModel::from_scene(&scene).err(), Some(MagicaVoxelError::Malformed));

    let mut scene = one_shape(ivec3(0, 0, 0));
    scene.nodes[1] = VoxNode::Group { children: vec![7] };
    assert_eq!(MagicaVoxelModel::from_scene(&scene).err(), Some(MagicaVoxelError::Malformed));

    let mut scene = one_shape(ivec3(0, 0, 0));
    scene.palette.pop();
    assert_eq!(MagicaVoxelModel::from_scene(&scene).err(), Some(MagicaVoxelError::Malformed));
}

#[test]
fn transform_moves_by_its_first_frame_only() {
    let mut scene = one_shape(ivec3(0, 0, 0));
    scene.nodes[0] = VoxNode::Transform {
        frames: vec![Some(ivec3(1, 1, 1)), Some(ivec3(50, 50, 50))],
        child: 1,
    };
    let m = MagicaVoxelModel::from_scene(&scene).unwrap();
    assert_eq!(m.voxels[0].0, ivec3(1, 1, 1));
    assert_eq!(m.voxels[2].0, ivec3(5, 1, 10));
}

#[test]
fn transform_without_translation_moves_nothing() {
    let mut scene = one_shape(ivec3(0, 0, 0));
    scene.nodes[0] = VoxNode::Transform { frames: Vec::new(), child: 1 };
    let m = MagicaVoxelModel::from_scene(&scene).unwrap();
    assert_eq!(m.voxels[1].0, ivec3(1, 2, 3));
    scene.nodes[0] = VoxNode::Transform { frames: vec![None, Some(ivec3(9, 9, 9))], child: 1 };
    let m = MagicaVoxelModel::from_scene(&scene).unwrap();
    assert_eq!(m.voxels[1].0, ivec3(1, 2, 3));
}

fn chain(chunks: usize) -> Vec<u8> {
    let mut bytes = Vec::new();
    bytes.extend_from_slice(b"VOX ");
    bytes.extend_from_slice(&150u32.to_le_bytes());
    for level in 0..chunks {
        let inner = (12 * (chunks - 1 - level)) as u32;
        bytes.extend_from_slice(b"MAIN");
        bytes.extend_from_slice(&0u32.to_le_bytes());
        bytes.extend_from_slice(&inner.to_le_bytes());
    }
    bytes
}

#[test]
fn chunks_may_nest_64_levels_and_no_deeper() {
    assert!(nesting_within(&chain(1), 0));
    assert!(!nesting_within(&chain(2), 0));
    assert!(nesting_within(&chain(2), 1));
    assert!(nesting_within(&chain(65), 64));
    assert!(!nesting_within(&chain(66), 64));
    let m = MagicaVoxelModel::from_bytes(&chain(65)).unwrap();
    assert!(m.voxels.is_empty());
    assert_eq!(MagicaVoxelModel::from_bytes(&chain(66)).err(), Some(MagicaVoxelError::TooDeep));
    assert_eq!(
        MagicaVoxelModel::from_bytes(&chain(100_000)).err(),
        Some(MagicaVoxelError::TooDeep)
    );
}

#[test]
fn nesting_is_counted_over_every_chunk_of_a_level() {
    let mut bytes = Vec::new();
    bytes.extend_from_slice(b"VOX ");
    bytes.extend_from_slice(&150u32.to_le_bytes());
    bytes.extend_from_slice(b"MAIN");
    bytes.extend_from_slice(&0u32.to_le_bytes());
    bytes.extend_from_slice(&(16 + 24 + 12u32).to_le_bytes());
    bytes.extend_from_slice(b"SIZE");
    bytes.extend_from_slice(&4u32.to_le_bytes());
    bytes.extend_from_slice(&0u32.to_le_bytes());
    bytes.extend_from_slice(&[0, 0, 0, 0]);
    bytes.extend_from_slice(b"ABCD");
    bytes.extend_from_slice(&0u32.to_le_bytes());
    bytes.extend_from_slice(&12u32.to_le_bytes());
    bytes.extend_from_slice(b"EFGH");
    bytes.extend_from_slice(&0u32.to_le_bytes());
    bytes.extend_from_slice(&0u32.to_le_bytes());
    bytes.extend_from_slice(b"IJKL");
    bytes.extend_from_slice(&0u32.to_le_bytes());
    bytes.extend_from_slice(&0u32.to_le_bytes());
    assert!(!nesting_within(&bytes, 1));
    assert!(nesting_within(&bytes, 2));
    assert!(nesting_within(&bytes[..bytes.len() - 1], 2));
    assert!(nesting_within(&bytes[..19], 0));
    assert!(nesting_within(&[], 0));
    assert!(nesting_within(&vox_file(), 1));
    assert!(!nesting_within(&vox_file(), 0));
}

#[test]
fn positions_wrap_around_in_32_bits() {
    let m = MagicaVoxelModel::from_scene(&one_shape(ivec3(i32::MAX, 0, 0))).unwrap();
    assert_eq!(m.voxels[1].0, ivec3(i32::MIN, 2, 3));
}

fn frame(t: &str) -> dot_vox::Frame {
    let mut attributes = dot_vox::Dict::new();
    attributes.insert(String::from("_t"), String::from(t));
    dot_vox::Frame::new(attributes)
}

fn vox_file() -> Vec<u8> {
    let data = dot_vox::DotVoxData {
        version: 150,
        index_map: dot_vox::DEFAULT_INDEX_MAP.to_vec(),
        models: vec![dot_vox::Model {
            size: dot_vox::Size { x: 4, y: 4, z: 4 },
            voxels: vec![
                dot_vox::Voxel { x: 0, y: 1, z: 2, i: 0 },
                dot_vox::Voxel { x: 3, y: 3, z: 3, i: 1 },
            ],
        }],
        palette: vec![
            dot_vox::Color { r: 10, g: 20, b: 30, a: 255 },
            dot_vox::Color { r: 200, g: 100, b: 50, a: 7 },
        ],
        materials: Vec::new(),
        scenes: vec![
            dot_vox::SceneNode::Transform {
                attributes: dot_vox::Dict::new(),
                frames: vec![frame("5 -6 7")],
                child: 1,
                layer_id: 0,
            },
            dot_vox::SceneNode::Shape {
                attributes: dot_vox::Dict::new(),
                models: vec![dot_vox::ShapeModel { model_id: 0, attributes: dot_vox::Dict::new() }],
            },
            dot_vox::SceneNode::Transform {
                attributes: dot_vox::Dict::new(),
                frames: Vec::new(),
                child: 1,
                layer_id: 0,
            },
        ],
        layers: Vec::new(),
    };
    let mut bytes = Vec::new();
    data.write_vox(&mut bytes).unwrap();
    bytes
}

#[test]
fn file_is_imported_through_the_parser() {
    let m = MagicaVoxelModel::from_bytes(&vox_file()).unwrap();
    assert_eq!(
        m.voxels,
        vec![
            (ivec3(5, -5, 9), 0),
            (ivec3(8, -3, 10), 1),
            (ivec3(0, 1, 2), 0),
            (ivec3(3, 3, 3), 1)
        ]
    );
    assert_eq!(m.voxel_bounds(), (ivec3(0, -5, 0), ivec3(8, 3, 10)));
    assert_eq!(m.palette.len(), 2);
    assert_eq!(m.palette[0].rgb, [10, 20, 30]);
    assert_eq!(m.palette[1].rgb, [200, 100, 50]);
    assert_eq!(m.palette[1].opacity, 7);
    let model = m.to_sdvx();
    assert_eq!(model.voxels().len(), 4);
}

#[test]
fn bytes_that_are_no_vox_file_are_invalid() {
    assert_eq!(MagicaVoxelModel::from_bytes(&[]).err(), Some(MagicaVoxelError::Invalid));
    assert_eq!(MagicaVoxelModel::from_bytes(b"VOY \x96\0\0\0").err(), Some(MagicaVoxelError::Invalid));
    let mut bytes = vox_file();
    bytes[0] = b'X';
    assert_eq!(MagicaVoxelModel::from_bytes(&bytes).err(), Some(MagicaVoxelError::Invalid));
}

#[test]
fn import_errors_have_their_messages() {
    assert_eq!(MagicaVoxelError::Invalid.message(), "Not a valid MagicaVoxel .vox file");
    assert_eq!(MagicaVoxelError::Malformed.message(), "Malformed MagicaVoxel scene");
    assert_eq!(MagicaVoxelError::TooDeep.message(), "MagicaVoxel chunks nest too deep");
}
