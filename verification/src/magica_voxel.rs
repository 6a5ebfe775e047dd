//! Import of MagicaVoxel scenes.
//!
//! A scene is a list of nodes. A transform node moves what its child
//! holds; the child is a shape, which names models, or a group, which names
//! further transform nodes. Every node of the list is visited as a root, so
//! the voxels of a shape below a group are collected once for each transform
//! above it.

use vstd::prelude::*;
use crate::container::{rd32, read_u32};
use crate::math::{IVec3, UVec3};
use crate::sdvx::{constructed, Model};
use crate::voxel::{packed_word, Voxel};

verus! {

/// One node of a scene.
pub enum VoxNode {
    /// Moves its child by the translation of its first frame. `frames`
    /// holds, per frame, its translation where it has one.
    Transform { frames: Vec<Option<IVec3>>, child: u32 },
    /// Names the nodes below it.
    Group { children: Vec<u32> },
    /// Names the models that it shows.
    Shape { models: Vec<u32> },
}

/// A scene as plain values: per model its voxels as `[x, y, z, colour
/// index]`, the palette as `[r, g, b, a]`, and the nodes.
pub struct VoxScene {
    pub models: Vec<Vec<[u8; 4]>>,
    pub palette: Vec<[u8; 4]>,
    pub nodes: Vec<VoxNode>,
}

/// Why a scene could not be imported.
#[derive(Clone, Copy, Debug, PartialEq, Eq, Structural)]
pub enum MagicaVoxelError {
    /// The bytes are not a MagicaVoxel file.
    Invalid,
    /// A node names a node, a model or a colour that is not there, a
    /// transform sits directly below a transform, or groups nest deeper than
    /// the scene has nodes.
    Malformed,
    /// The chunks of the file nest deeper than [`MAX_CHUNK_NESTING`].
    TooDeep,
}

/// One palette entry of an imported scene.
#[derive(Clone, Copy, Debug)]
pub struct MagicaVoxelMaterial {
    pub rgb: [u8; 3],
    pub opacity: u8,
}

/// An imported scene: its voxels with their colour indices, the corners of
/// the box around them and the origin, and the palette.
pub struct MagicaVoxelModel {
    pub voxels: Vec<(IVec3, u8)>,
    pub min: IVec3,
    pub max: IVec3,
    pub palette: Vec<MagicaVoxelMaterial>,
}

/// Levels of chunks within chunks that a file may have.
pub const MAX_CHUNK_NESTING: usize = 64;

/// Whether a chunk starts at `at` and ends at or before `end`: twelve bytes
/// of header, of which the last eight give the lengths of its content and of
/// its children, and then that many bytes.
pub open spec fn chunk_fits(bytes: Seq<u8>, at: int, end: int) -> bool {
    &&& 0 <= at
    &&& at + 12 <= end <= bytes.len()
    &&& at + 12 + rd32(bytes, at + 4) + rd32(bytes, at + 8) <= end
}

/// Where the children of the chunk at `at` start.
pub open spec fn children_start(bytes: Seq<u8>, at: int) -> int {
    at + 12 + rd32(bytes, at + 4)
}

/// Where the chunk at `at` ends.
pub open spec fn chunk_end(bytes: Seq<u8>, at: int) -> int {
    children_start(bytes, at) + rd32(bytes, at + 8)
}

/// How deep chunks with children nest among the chunks that lie one after
/// the other between `at` and `end`: 0 where none announces children.
pub open spec fn region_nesting(bytes: Seq<u8>, at: int, end: int) -> nat
    decreases end - at,
{
    if !chunk_fits(bytes, at, end) {
        0
    } else {
        let own = if rd32(bytes, at + 8) == 0 {
            0
        } else {
            1 + region_nesting(bytes, children_start(bytes, at), chunk_end(bytes, at))
        };
        let rest = region_nesting(bytes, chunk_end(bytes, at), end);
        if own >= rest {
            own
        } else {
            rest
        }
    }
}

/// How deep the chunks of a file nest below its one outer chunk, which
/// follows the eight bytes of magic number and version.
pub open spec fn file_nesting(bytes: Seq<u8>) -> nat {
    if !chunk_fits(bytes, 8, bytes.len() as int) || rd32(bytes, 16) == 0 {
        0
    } else {
        1 + region_nesting(bytes, children_start(bytes, 8), chunk_end(bytes, 8))
    }
}

/// The translation that a transform applies: that of its first frame, and
/// none where it has no frame or the frame no translation.
pub open spec fn transform_position(frames: Seq<Option<IVec3>>) -> IVec3 {
    if frames.len() > 0 && frames[0].is_some() {
        frames[0].unwrap()
    } else {
        IVec3 { x: 0, y: 0, z: 0 }
    }
}

/// The translation that a transform applies.
fn first_position(frames: &Vec<Option<IVec3>>) -> (p: IVec3)
    ensures
        p == transform_position(frames@),
{
    if frames.len() > 0 {
        match frames[0] {
            Some(p) => p,
            None => IVec3 { x: 0, y: 0, z: 0 },
        }
    } else {
        IVec3 { x: 0, y: 0, z: 0 }
    }
}

/// Whether the chunks between `at` and `end` nest no deeper than `budget`.
fn region_within(bytes: &[u8], at: usize, end: usize, budget: usize) -> (ok: bool)
    requires
        at <= end <= bytes.len(),
    ensures
        ok == (region_nesting(bytes@, at as int, end as int) <= budget),
    decreases budget,
{
    let mut pos = at;
    loop
        invariant
            at <= pos <= end <= bytes.len(),
            (region_nesting(bytes@, at as int, end as int) <= budget) == (region_nesting(
                bytes@,
                pos as int,
                end as int,
            ) <= budget),
        decreases end - pos,
    {
        if end - pos < 12 {
            return true;
        }
        let content = read_u32(bytes, pos + 4) as usize;
        let children = read_u32(bytes, pos + 8) as usize;
        let room = end - pos - 12;
        if content > room || children > room - content {
            return true;
        }
        let inner = pos + 12 + content;
        let next = inner + children;
        assert(chunk_fits(bytes@, pos as int, end as int));
        assert(inner == children_start(bytes@, pos as int));
        assert(next == chunk_end(bytes@, pos as int));
        if children != 0 {
            if budget == 0 {
                return false;
            }
            if !region_within(bytes, inner, next, budget - 1) {
                return false;
            }
        }
        pos = next;
    }
}

/// Whether the chunks of a file nest no deeper than `budget`.
pub fn nesting_within(bytes: &[u8], budget: usize) -> (ok: bool)
    ensures
        ok == (file_nesting(bytes@) <= budget),
{
    let end = bytes.len();
    if end < 20 {
        return true;
    }
    let content = read_u32(bytes, 12) as usize;
    let children = read_u32(bytes, 16) as usize;
    let room = end - 20;
    if content > room || children > room - content {
        return true;
    }
    if children == 0 {
        return true;
    }
    if budget == 0 {
        return false;
    }
    region_within(bytes, 20 + content, 20 + content + children, budget - 1)
}

/// A parsed MagicaVoxel file, as `dot_vox` holds it.
#[verifier::external_type_specification]
#[verifier::external_body]
pub struct ExDotVoxData(dot_vox::DotVoxData);

/// What `dot_vox::load_bytes` makes of `bytes`: `None` where it rejects them.
pub uninterp spec fn vox_data(bytes: Seq<u8>) -> Option<dot_vox::DotVoxData>;

/// The models, the palette and the scene nodes of a parsed file, as plain values.
pub uninterp spec fn vox_scene(data: dot_vox::DotVoxData) -> VoxScene;

/// `dot_vox::load_bytes`: parses a MagicaVoxel file, or rejects the bytes.
/// The parser descends one level for every chunk that announces children,
/// so the input must not nest deeper than [`MAX_CHUNK_NESTING`] by its
/// chunk headers.
#[verifier::external_body]
fn load_vox(bytes: &[u8]) -> (r: Option<dot_vox::DotVoxData>)
    requires
        file_nesting(bytes@) <= MAX_CHUNK_NESTING,
    ensures
        r == vox_data(bytes@),
{
    dot_vox::load_bytes(bytes).ok()
}

/// The scene nodes of a parsed file, each copied with its kind and the
/// nodes or models that it names. For each frame of a transform,
/// `dot_vox::Frame::position` gives its translation, if it has one.
#[verifier::external_body]
fn scene_nodes(data: &dot_vox::DotVoxData) -> (r: Vec<VoxNode>)
    ensures
        r == vox_scene(*data).nodes,
{
    let at = |f: &dot_vox::Frame| f.position().map(|p| IVec3 { x: p.x, y: p.y, z: p.z });
    data.scenes.iter().map(|n| match n {
        dot_vox::SceneNode::Transform { frames, child, .. } => VoxNode::Transform { frames: frames.iter().map(at).collect(), child: *child },
        dot_vox::SceneNode::Group { children, .. } => VoxNode::Group { children: children.clone() },
        dot_vox::SceneNode::Shape { models, .. } => VoxNode::Shape { models: models.iter().map(|m| m.model_id).collect() },
    }).collect()
}

/// The models of a parsed file, each as its voxels `[x, y, z, colour index]`.
#[verifier::external_body]
fn scene_models(data: &dot_vox::DotVoxData) -> (r: Vec<Vec<[u8; 4]>>)
    ensures
        r == vox_scene(*data).models,
{
    data.models.iter().map(|m| m.voxels.iter().map(|v| [v.x, v.y, v.z, v.i]).collect()).collect()
}

/// The palette of a parsed file, each colour as `[r, g, b, a]`.
#[verifier::external_body]
fn scene_palette(data: &dot_vox::DotVoxData) -> (r: Vec<[u8; 4]>)
    ensures
        r == vox_scene(*data).palette,
{
    data.palette.iter().map(|c| [c.r, c.g, c.b, c.a]).collect()
}

/// The voxels of one model, moved by `pos`.
pub open spec fn model_voxels(voxels: Seq<[u8; 4]>, pos: IVec3) -> Seq<(IVec3, u8)> {
    Seq::new(
        voxels.len(),
        |i: int|
            (
                pos.spec_wrapping_add(
                    IVec3 { x: voxels[i][0] as i32, y: voxels[i][1] as i32, z: voxels[i][2] as i32 },
                ),
                voxels[i][3],
            ),
    )
}

/// The voxels of the models of a shape, moved by `pos`; `None` where a
/// model is named that the scene does not have.
pub open spec fn shape_voxels(scene: VoxScene, models: Seq<u32>, pos: IVec3) -> Option<
    Seq<(IVec3, u8)>,
>
    decreases models.len(),
{
    if models.len() == 0 {
        Some(Seq::empty())
    } else {
        match shape_voxels(scene, models.drop_last(), pos) {
            None => None,
            Some(before) => if models.last() >= scene.models@.len() {
                None
            } else {
                Some(before + model_voxels(scene.models@[models.last() as int]@, pos))
            },
        }
    }
}

/// The voxels that a visit of node `node` collects, with `fuel` levels of
/// groups to go; `None` where the scene is malformed on the way.
pub open spec fn node_voxels(scene: VoxScene, node: int, fuel: nat) -> Option<Seq<(IVec3, u8)>>
    decreases fuel, 0nat, 0nat,
{
    match scene.nodes@[node] {
        VoxNode::Transform { frames, child } => {
            if child >= scene.nodes@.len() {
                None
            } else {
                match scene.nodes@[child as int] {
                    VoxNode::Shape { models } => shape_voxels(
                        scene,
                        models@,
                        transform_position(frames@),
                    ),
                    VoxNode::Group { children } => if fuel == 0 {
                        None
                    } else {
                        group_voxels(scene, children@, (fuel - 1) as nat)
                    },
                    VoxNode::Transform { .. } => None,
                }
            }
        },
        _ => Some(Seq::empty()),
    }
}

/// The voxels that visits of the nodes `children` collect, in their order.
pub open spec fn group_voxels(scene: VoxScene, children: Seq<u32>, fuel: nat) -> Option<
    Seq<(IVec3, u8)>,
>
    decreases fuel, 1nat, children.len(),
{
    if children.len() == 0 {
        Some(Seq::empty())
    } else {
        match group_voxels(scene, children.drop_last(), fuel) {
            None => None,
            Some(before) => if children.last() >= scene.nodes@.len() {
                None
            } else {
                match node_voxels(scene, children.last() as int, fuel) {
                    None => None,
                    Some(found) => Some(before + found),
                }
            },
        }
    }
}

/// The voxels that visits of the first `upto` nodes collect, each node
/// taken as a root.
pub open spec fn scene_voxels(scene: VoxScene, upto: int) -> Option<Seq<(IVec3, u8)>>
    decreases upto,
{
    if upto <= 0 {
        Some(Seq::empty())
    } else {
        match scene_voxels(scene, upto - 1) {
            None => None,
            Some(before) => match node_voxels(scene, upto - 1, scene.nodes@.len()) {
                None => None,
                Some(found) => Some(before + found),
            },
        }
    }
}

/// The lower corner of the box around the origin and `voxels`.
pub open spec fn lower_corner(voxels: Seq<(IVec3, u8)>) -> IVec3
    decreases voxels.len(),
{
    if voxels.len() == 0 {
        IVec3 { x: 0, y: 0, z: 0 }
    } else {
        lower_corner(voxels.drop_last()).spec_min(voxels.last().0)
    }
}

/// The upper corner of the box around the origin and `voxels`.
pub open spec fn upper_corner(voxels: Seq<(IVec3, u8)>) -> IVec3
    decreases voxels.len(),
{
    if voxels.len() == 0 {
        IVec3 { x: 0, y: 0, z: 0 }
    } else {
        upper_corner(voxels.drop_last()).spec_max(voxels.last().0)
    }
}

/// Whether every colour index of `voxels` is below `colours`.
pub open spec fn colours_known(voxels: Seq<(IVec3, u8)>, colours: nat) -> bool {
    forall|i: int| 0 <= i < voxels.len() ==> (#[trigger] voxels[i]).1 < colours
}

/// Whether `m` is the import of `scene`.
pub open spec fn imported(scene: VoxScene, m: MagicaVoxelModel) -> bool {
    &&& scene_voxels(scene, scene.nodes@.len() as int) == Some(m.voxels@)
    &&& m.min == lower_corner(m.voxels@)
    &&& m.max == upper_corner(m.voxels@)
    &&& m.palette@.len() == scene.palette@.len()
    &&& forall|i: int|
        0 <= i < m.palette@.len() ==> (#[trigger] m.palette@[i]).rgb@ == seq![
            scene.palette@[i][0],
            scene.palette@[i][1],
            scene.palette@[i][2],
        ] && m.palette@[i].opacity == scene.palette@[i][3]
    &&& colours_known(m.voxels@, m.palette@.len())
}

/// Whether the import of `scene` fails: the scene is malformed, or a voxel
/// names a colour that the palette does not have.
pub open spec fn import_fails(scene: VoxScene) -> bool {
    match scene_voxels(scene, scene.nodes@.len() as int) {
        None => true,
        Some(voxels) => !colours_known(voxels, scene.palette@.len()),
    }
}

/// The position in a model of an imported voxel: moved by the lower corner,
/// the second and third axis exchanged, each component taken as an
/// unsigned word.
pub open spec fn model_position(v: IVec3, min: IVec3) -> UVec3 {
    let moved = v.spec_wrapping_add(min);
    UVec3 { x: moved.x as u32, y: moved.z as u32, z: moved.y as u32 }
}

/// The voxel of a model for a material: its colour, fully rough and opaque.
pub open spec fn material_word(m: MagicaVoxelMaterial) -> u32 {
    packed_word(m.rgb[0], m.rgb[1], m.rgb[2], 255, 0, false, 255) as u32
}

/// The voxels of a model for an imported scene, in the order of the import.
pub open spec fn converted(m: MagicaVoxelModel) -> Seq<(Voxel, UVec3)> {
    Seq::new(
        m.voxels@.len(),
        |i: int|
            (
                Voxel(material_word(m.palette@[m.voxels@[i].1 as int])),
                model_position(m.voxels@[i].0, m.min),
            ),
    )
}

/// Appends the voxels of the models of a shape, moved by `pos`.
fn collect_shape(scene: &VoxScene, models: &Vec<u32>, pos: IVec3, out: &mut Vec<(IVec3, u8)>) -> (ok:
    bool)
    ensures
        match shape_voxels(*scene, models@, pos) {
            Some(found) => ok && final(out)@ == old(out)@ + found,
            None => !ok,
        },
{
    let mut i: usize = 0;
    assert(models@.take(0) =~= Seq::<u32>::empty());
    assert(out@ =~= old(out)@ + Seq::<(IVec3, u8)>::empty());
    while i < models.len()
        invariant
            i <= models@.len(),
            shape_voxels(*scene, models@.take(i as int), pos) matches Some(found) && out@ == old(
                out,
            )@ + found,
        decreases models@.len() - i,
    {
        let ghost before = shape_voxels(*scene, models@.take(i as int), pos).unwrap();
        let id = models[i] as usize;
        proof {
            let next = models@.take(i + 1);
            assert(next.drop_last() =~= models@.take(i as int));
            assert(next.last() == models@[i as int]);
        }
        if id >= scene.models.len() {
            proof {
                lemma_shape_fails(*scene, models@, pos, i + 1);
            }
            return false;
        }
        let voxels = &scene.models[id];
        let ghost start = out@;
        let mut k: usize = 0;
        while k < voxels.len()
            invariant
                k <= voxels@.len(),
                out@ == start + model_voxels(voxels@, pos).take(k as int),
            decreases voxels@.len() - k,
        {
            let v = voxels[k];
            let at = pos.wrapping_add(IVec3 { x: v[0] as i32, y: v[1] as i32, z: v[2] as i32 });
            out.push((at, v[3]));
            k += 1;
            assert(out@ =~= start + model_voxels(voxels@, pos).take(k as int));
        }
        assert(model_voxels(voxels@, pos).take(k as int) =~= model_voxels(voxels@, pos));
        assert(out@ =~= old(out)@ + (before + model_voxels(voxels@, pos)));
        i += 1;
    }
    assert(models@.take(i as int) =~= models@);
    true
}

/// A shape that fails on a prefix of its models fails as a whole.
proof fn lemma_shape_fails(scene: VoxScene, models: Seq<u32>, pos: IVec3, n: int)
    requires
        0 <= n <= models.len(),
        shape_voxels(scene, models.take(n), pos).is_none(),
    ensures
        shape_voxels(scene, models, pos).is_none(),
    decreases models.len() - n,
{
    if n < models.len() {
        let next = models.take(n + 1);
        assert(next.drop_last() =~= models.take(n));
        lemma_shape_fails(scene, models, pos, n + 1);
    } else {
        assert(models.take(n) =~= models);
    }
}

/// A group that fails on a prefix of its children fails as a whole.
proof fn lemma_group_fails(scene: VoxScene, children: Seq<u32>, fuel: nat, n: int)
    requires
        0 <= n <= children.len(),
        group_voxels(scene, children.take(n), fuel).is_none(),
    ensures
        group_voxels(scene, children, fuel).is_none(),
    decreases children.len() - n,
{
    if n < children.len() {
        let next = children.take(n + 1);
        assert(next.drop_last() =~= children.take(n));
        lemma_group_fails(scene, children, fuel, n + 1);
    } else {
        assert(children.take(n) =~= children);
    }
}

/// A scene that fails on a prefix of its nodes fails as a whole.
proof fn lemma_scene_fails(scene: VoxScene, n: int, upto: int)
    requires
        0 <= n <= upto,
        scene_voxels(scene, n).is_none(),
    ensures
        scene_voxels(scene, upto).is_none(),
    decreases upto - n,
{
    if n < upto {
        lemma_scene_fails(scene, n + 1, upto);
    }
}

/// Appends the voxels that a visit of node `node` collects.
fn collect_node(scene: &VoxScene, node: usize, fuel: usize, out: &mut Vec<(IVec3, u8)>) -> (ok:
    bool)
    requires
        node < scene.nodes@.len(),
    ensures
        match node_voxels(*scene, node as int, fuel as nat) {
            Some(found) => ok && final(out)@ == old(out)@ + found,
            None => !ok,
        },
    decreases fuel, 0nat, 0nat,
{
    match &scene.nodes[node] {
        VoxNode::Transform { frames, child } => {
            let position = first_position(frames);
            let c = *child as usize;
            if c >= scene.nodes.len() {
                return false;
            }
            match &scene.nodes[c] {
                VoxNode::Shape { models } => collect_shape(scene, models, position, out),
                VoxNode::Group { children } => {
                    if fuel == 0 {
                        return false;
                    }
                    collect_group(scene, children, fuel - 1, out)
                },
                VoxNode::Transform { .. } => false,
            }
        },
        _ => {
            assert(out@ =~= old(out)@ + Seq::<(IVec3, u8)>::empty());
            true
        },
    }
}

/// Appends the voxels that visits of the nodes `children` collect.
fn collect_group(scene: &VoxScene, children: &Vec<u32>, fuel: usize, out: &mut Vec<(IVec3, u8)>) -> (ok:
    bool)
    ensures
        match group_voxels(*scene, children@, fuel as nat) {
            Some(found) => ok && final(out)@ == old(out)@ + found,
            None => !ok,
        },
    decreases fuel, 1nat, children@.len(),
{
    let mut i: usize = 0;
    assert(children@.take(0) =~= Seq::<u32>::empty());
    assert(out@ =~= old(out)@ + Seq::<(IVec3, u8)>::empty());
    while i < children.len()
        invariant
            i <= children@.len(),
            group_voxels(*scene, children@.take(i as int), fuel as nat) matches Some(found)
                && out@ == old(out)@ + found,
        decreases children@.len() - i,
    {
        let ghost before = group_voxels(*scene, children@.take(i as int), fuel as nat).unwrap();
        let ghost start = out@;
        let c = children[i] as usize;
        proof {
            let next = children@.take(i + 1);
            assert(next.drop_last() =~= children@.take(i as int));
            assert(next.last() == children@[i as int]);
        }
        if c >= scene.nodes.len() || !collect_node(scene, c, fuel, out) {
            proof {
                lemma_group_fails(*scene, children@, fuel as nat, i + 1);
            }
            return false;
        }
        proof {
            let found = node_voxels(*scene, c as int, fuel as nat).unwrap();
            assert(out@ =~= old(out)@ + (before + found));
        }
        i += 1;
    }
    assert(children@.take(i as int) =~= children@);
    true
}

impl MagicaVoxelError {
    /// The error in words.
    pub fn message(&self) -> (s: String)
        ensures
            s@ == (match *self {
                MagicaVoxelError::Invalid => "Not a valid MagicaVoxel .vox file"@,
                MagicaVoxelError::Malformed => "Malformed MagicaVoxel scene"@,
                MagicaVoxelError::TooDeep => "MagicaVoxel chunks nest too deep"@,
            }),
    {
        match self {
            MagicaVoxelError::Invalid => "Not a valid MagicaVoxel .vox file".to_owned(),
            MagicaVoxelError::Malformed => "Malformed MagicaVoxel scene".to_owned(),
            MagicaVoxelError::TooDeep => "MagicaVoxel chunks nest too deep".to_owned(),
        }
    }
}

impl MagicaVoxelModel {
    /// Every voxel names a colour of the palette.
    pub open spec fn wf(&self) -> bool {
        colours_known(self.voxels@, self.palette@.len())
    }

    /// Imports a scene: collects the voxels below every node, the box
    /// around them and the palette.
    pub fn from_scene(scene: &VoxScene) -> (r: Result<MagicaVoxelModel, MagicaVoxelError>)
        ensures
            match r {
                Ok(m) => imported(*scene, m) && m.wf() && !import_fails(*scene),
                Err(e) => e == MagicaVoxelError::Malformed && import_fails(*scene),
            },
    {
        let n = scene.nodes.len();
        let mut voxels: Vec<(IVec3, u8)> = Vec::new();
        let mut i: usize = 0;
        while i < n
            invariant
                i <= n,
                n == scene.nodes@.len(),
                scene_voxels(*scene, i as int) == Some(voxels@),
            decreases n - i,
        {
            let ghost before = voxels@;
            if !collect_node(scene, i, n, &mut voxels) {
                proof {
                    lemma_scene_fails(*scene, i + 1, n as int);
                }
                return Err(MagicaVoxelError::Malformed);
            }
            i += 1;
        }
        let mut min = IVec3 { x: 0, y: 0, z: 0 };
        let mut max = IVec3 { x: 0, y: 0, z: 0 };
        let mut k: usize = 0;
        while k < voxels.len()
            invariant
                k <= voxels@.len(),
                scene_voxels(*scene, scene.nodes@.len() as int) == Some(voxels@),
                min == lower_corner(voxels@.take(k as int)),
                max == upper_corner(voxels@.take(k as int)),
                forall|j: int| 0 <= j < k ==> (#[trigger] voxels@[j]).1 < scene.palette@.len(),
            decreases voxels@.len() - k,
        {
            let v = voxels[k];
            proof {
                let next = voxels@.take(k + 1);
                assert(next.drop_last() =~= voxels@.take(k as int));
                assert(next.last() == voxels@[k as int]);
            }
            if v.1 as usize >= scene.palette.len() {
                return Err(MagicaVoxelError::Malformed);
            }
            min = min.min(v.0);
            max = max.max(v.0);
            k += 1;
        }
        assert(voxels@.take(k as int) =~= voxels@);
        let mut palette: Vec<MagicaVoxelMaterial> = Vec::new();
        let mut c: usize = 0;
        while c < scene.palette.len()
            invariant
                c <= scene.palette@.len(),
                palette@.len() == c,
                forall|j: int|
                    0 <= j < c ==> (#[trigger] palette@[j]).rgb@ == seq![
                        scene.palette@[j][0],
                        scene.palette@[j][1],
                        scene.palette@[j][2],
                    ] && palette@[j].opacity == scene.palette@[j][3],
            decreases scene.palette@.len() - c,
        {
            let colour = scene.palette[c];
            let material = MagicaVoxelMaterial {
                rgb: [colour[0], colour[1], colour[2]],
                opacity: colour[3],
            };
            assert(material.rgb@ =~= seq![colour[0], colour[1], colour[2]]);
            palette.push(material);
            c += 1;
        }
        Ok(MagicaVoxelModel { voxels, min, max, palette })
    }

    /// Imports a MagicaVoxel file. A file whose chunks nest deeper than
    /// [`MAX_CHUNK_NESTING`] is refused before it is parsed.
    pub fn from_bytes(bytes: &[u8]) -> (r: Result<MagicaVoxelModel, MagicaVoxelError>)
        ensures
            match r {
                Ok(m) => {
                    &&& file_nesting(bytes@) <= MAX_CHUNK_NESTING
                    &&& vox_data(bytes@) matches Some(data) && imported(vox_scene(data), m)
                        && m.wf()
                },
                Err(MagicaVoxelError::TooDeep) => file_nesting(bytes@) > MAX_CHUNK_NESTING,
                Err(MagicaVoxelError::Invalid) => file_nesting(bytes@) <= MAX_CHUNK_NESTING
                    && vox_data(bytes@).is_none(),
                Err(MagicaVoxelError::Malformed) => {
                    &&& file_nesting(bytes@) <= MAX_CHUNK_NESTING
                    &&& vox_data(bytes@) matches Some(data) && import_fails(vox_scene(data))
                },
            },
    {
        if !nesting_within(bytes, MAX_CHUNK_NESTING) {
            return Err(MagicaVoxelError::TooDeep);
        }
        match load_vox(bytes) {
            None => Err(MagicaVoxelError::Invalid),
            Some(data) => {
                let scene = VoxScene {
                    models: scene_models(&data),
                    palette: scene_palette(&data),
                    nodes: scene_nodes(&data),
                };
                MagicaVoxelModel::from_scene(&scene)
            },
        }
    }

    /// The lower and the upper corner of the box around the voxels and the origin.
    pub fn voxel_bounds(&self) -> (b: (IVec3, IVec3))
        ensures
            b == (self.min, self.max),
    {
        (self.min, self.max)
    }

    /// Turns the import into a model: each voxel gets the colour of its
    /// palette entry, fully rough and opaque, at its position moved by the
    /// lower corner with the second and third axis exchanged.
    pub fn to_sdvx(self) -> (m: Model)
        requires
            self.wf(),
        ensures
            constructed(m, converted(self)),
    {
        let mut list: Vec<(Voxel, UVec3)> = Vec::new();
        let mut i: usize = 0;
        while i < self.voxels.len()
            invariant
                i <= self.voxels@.len(),
                self.wf(),
                list@ == converted(self).take(i as int),
            decreases self.voxels@.len() - i,
        {
            let v = self.voxels[i];
            let moved = v.0.wrapping_add(self.min);
            let pos = UVec3 {
                x: #[verifier::truncate] (moved.x as u32),
                y: #[verifier::truncate] (moved.z as u32),
                z: #[verifier::truncate] (moved.y as u32),
            };
            let rgb = self.palette[v.1 as usize].rgb;
            let voxel = Voxel::new(rgb, 255, 0, false, 255);
            list.push((voxel, pos));
            i += 1;
            assert(list@ =~= converted(self).take(i as int));
        }
        assert(converted(self).take(i as int) =~= converted(self));
        Model::from_voxels(list)
    }
}

} // verus!
