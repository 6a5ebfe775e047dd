//! The world: the sparse tree behind two write queues.
//!
//! Producers append single voxel writes and model moves to the queues.
//! [`World::process`] drains both in chunks of [`VOXEL_QUEUE_SIZE`] through
//! the write pipeline and ends with a deallocation pass over the brick pool.

use std::sync::Arc;
use vstd::prelude::*;
use crate::brickmap::{Kernel, MapView, QueueEntry};
use crate::data::GpuModel;
use crate::kernels::Brickmap;
use crate::math::{UVec3, UVec4};
use crate::voxel::Voxel;

verus! {

/// Bricks in the brick pool of [`World::new`].
pub const BRICK_POOL_SIZE: usize = 32768;

/// Layer nodes in the layer pool of [`World::new`].
pub const LAYER0_POOL_SIZE: usize = 8192;

/// Entries that the staging buffer holds: the size of one chunk.
pub const VOXEL_QUEUE_SIZE: usize = 32768;

/// Bricks that one dispatch of the deallocation kernel inspects.
pub const DEALLOC_QUEUE_SIZE: usize = 4096;

/// The buffers of the tree that a consumer binds.
#[derive(Clone, Copy, Debug, PartialEq, Eq, Structural)]
pub enum Buffer {
    BrickPool,
    LayerPool,
    RootMap,
}

/// The binding slots with the tree bound for a consumer: the brick pool at
/// slot 0, the layer pool at slot 1, the root map at slot 2.
pub open spec fn bound_slots() -> Seq<Option<Buffer>> {
    seq![Some(Buffer::BrickPool), Some(Buffer::LayerPool), Some(Buffer::RootMap)]
}

/// The binding slots with nothing bound.
pub open spec fn unbound_slots() -> Seq<Option<Buffer>> {
    seq![None, None, None]
}

/// A queued move of a model: clear it at `old_pos`, then, unless
/// `remove_only`, write it at `new_pos`.
pub struct ModelMove {
    pub records: Seq<UVec4>,
    pub old_pos: UVec3,
    pub new_pos: UVec3,
    pub remove_only: bool,
}

/// What a world holds: the tree, the staging buffer, both queues in the
/// order of arrival, the registered models and the figures recorded by the
/// last `process`.
#[verifier::ext_equal]
pub struct WorldView {
    pub map: MapView,
    pub staging: Seq<QueueEntry>,
    pub voxel_queue: Seq<QueueEntry>,
    pub model_queue: Seq<ModelMove>,
    pub gpu_models: Seq<Arc<GpuModel>>,
    pub voxels_queued: nat,
    pub models_queued: nat,
    pub model_chunks: nat,
    pub voxel_chunks: nat,
    pub dealloc_dispatches: nat,
    pub bindings: Seq<Option<Buffer>>,
}

/// The staging record for a queued voxel write.
pub open spec fn queue_entry(w: (Voxel, UVec3)) -> QueueEntry {
    QueueEntry { pos: w.1, word: w.0.0 }
}

/// The staging record that the placement kernel derives from one model
/// record: the position moved by `pos` modulo 2^32, and the model's word if
/// `keep`, else the empty voxel.
pub open spec fn placed_entry(record: UVec4, pos: UVec3, keep: bool) -> QueueEntry {
    QueueEntry {
        pos: (UVec3 { x: record.x, y: record.y, z: record.z }).spec_wrapping_add(pos),
        word: if keep {
            record.w
        } else {
            0
        },
    }
}

/// The staging records for a whole model.
pub open spec fn placed(records: Seq<UVec4>, pos: UVec3, keep: bool) -> Seq<QueueEntry> {
    Seq::new(records.len(), |i: int| placed_entry(records[i], pos, keep))
}

/// Number of chunks that `n` queued writes make.
pub open spec fn chunk_count(n: nat) -> nat {
    ((n + VOXEL_QUEUE_SIZE - 1) / (VOXEL_QUEUE_SIZE as int)) as nat
}

/// Number of chunks that one pass over a model of `n` records makes: a model
/// without records still takes one, of no entries.
pub open spec fn pass_chunks(n: nat) -> nat {
    if n == 0 {
        1
    } else {
        chunk_count(n)
    }
}

/// Number of chunks that a model move makes: one pass to clear and, unless
/// the move only removes, one to write.
pub open spec fn move_chunks(m: ModelMove) -> nat {
    if m.remove_only {
        pass_chunks(m.records.len())
    } else {
        2 * pass_chunks(m.records.len())
    }
}

/// Number of chunks that the queued model moves make together.
pub open spec fn moves_chunks(moves: Seq<ModelMove>) -> nat
    decreases moves.len(),
{
    if moves.len() == 0 {
        0
    } else {
        moves_chunks(moves.drop_last()) + move_chunks(moves.last())
    }
}

/// `n`, or the largest `usize` where `n` is beyond it.
pub open spec fn saturated(n: nat) -> nat {
    if n > usize::MAX {
        usize::MAX as nat
    } else {
        n
    }
}

/// Number of dispatches in which the deallocation kernel covers a pool of
/// `bricks` bricks.
pub open spec fn dealloc_dispatch_count(bricks: nat) -> nat {
    ((bricks + DEALLOC_QUEUE_SIZE - 1) / (DEALLOC_QUEUE_SIZE as int)) as nat
}

/// The write pipeline over `entries`, one chunk of at most
/// [`VOXEL_QUEUE_SIZE`] entries after the other.
pub open spec fn write_chunks(s: MapView, entries: Seq<QueueEntry>) -> MapView
    decreases entries.len(),
{
    if entries.len() <= VOXEL_QUEUE_SIZE {
        s.write_chunk(entries)
    } else {
        write_chunks(
            s.write_chunk(entries.take(VOXEL_QUEUE_SIZE as int)),
            entries.skip(VOXEL_QUEUE_SIZE as int),
        )
    }
}

/// One model move: the pass that clears, then the pass that writes.
pub open spec fn move_model(s: MapView, m: ModelMove) -> MapView {
    let cleared = write_chunks(s, placed(m.records, m.old_pos, false));
    if m.remove_only {
        cleared
    } else {
        write_chunks(cleared, placed(m.records, m.new_pos, true))
    }
}

/// The queued model moves, in the order of arrival.
pub open spec fn move_models(s: MapView, moves: Seq<ModelMove>) -> MapView
    decreases moves.len(),
{
    if moves.len() == 0 {
        s
    } else {
        move_model(move_models(s, moves.drop_last()), moves.last())
    }
}

/// What `process` makes of the tree: model moves, then voxel writes, then
/// the deallocation pass.
pub open spec fn process_map(
    s: MapView,
    moves: Seq<ModelMove>,
    writes: Seq<QueueEntry>,
) -> MapView {
    write_chunks(move_models(s, moves), writes).dealloc_pass()
}

/// The world.
pub struct World {
    map: Brickmap,
    staging: Vec<QueueEntry>,
    voxel_queue: Vec<(Voxel, UVec3)>,
    model_queue: Vec<(Arc<GpuModel>, UVec3, UVec3, bool)>,
    pub gpu_models: Vec<Arc<GpuModel>>,
    voxels_queued: usize,
    models_queued: usize,
    model_chunks: usize,
    voxel_chunks: usize,
    dealloc_dispatches: usize,
    bindings: [Option<Buffer>; 3],
}

/// The queued voxel writes as staging records.
pub open spec fn queue_entries(q: Seq<(Voxel, UVec3)>) -> Seq<QueueEntry> {
    Seq::new(q.len(), |i: int| queue_entry(q[i]))
}

/// The queued model moves.
pub open spec fn queue_moves(q: Seq<(Arc<GpuModel>, UVec3, UVec3, bool)>) -> Seq<ModelMove> {
    Seq::new(
        q.len(),
        |i: int|
            ModelMove { records: q[i].0@, old_pos: q[i].1, new_pos: q[i].2, remove_only: q[i].3 },
    )
}

impl View for World {
    type V = WorldView;

    closed spec fn view(&self) -> WorldView {
        WorldView {
            map: self.map@,
            staging: self.staging@,
            voxel_queue: queue_entries(self.voxel_queue@),
            model_queue: queue_moves(self.model_queue@),
            gpu_models: self.gpu_models@,
            voxels_queued: self.voxels_queued as nat,
            models_queued: self.models_queued as nat,
            model_chunks: self.model_chunks as nat,
            voxel_chunks: self.voxel_chunks as nat,
            dealloc_dispatches: self.dealloc_dispatches as nat,
            bindings: self.bindings@,
        }
    }
}

/// A dispatch over no entries changes nothing.
pub proof fn lemma_write_chunk_empty(s: MapView)
    ensures
        s.write_chunk(Seq::<QueueEntry>::empty()) == s,
        write_chunks(s, Seq::<QueueEntry>::empty()) == s,
{
    let none = Seq::<QueueEntry>::empty();
    assert(s.run(Kernel::AllocLayers, none) == s);
    assert(s.run(Kernel::AllocBricks, none) == s);
    assert(s.run(Kernel::WriteVoxels, none) == s);
}

/// The deallocation kernel leaves the size of the brick pool as it is.
pub proof fn lemma_dealloc_range_len(s: MapView, lo: int, hi: int)
    ensures
        s.dealloc_range(lo, hi).bricks.len() == s.bricks.len(),
    decreases hi - lo,
{
    if lo < hi {
        lemma_dealloc_range_len(s, lo, hi - 1);
    }
}

/// Two dispatches of the deallocation kernel over adjoining ranges amount
/// to one over both.
pub proof fn lemma_dealloc_range_join(s: MapView, lo: int, mid: int, hi: int)
    requires
        lo <= mid <= hi,
    ensures
        s.dealloc_range(lo, mid).dealloc_range(mid, hi) == s.dealloc_range(lo, hi),
    decreases hi - mid,
{
    if mid < hi {
        lemma_dealloc_range_join(s, lo, mid, hi - 1);
    }
}

impl World {
    /// The tree satisfies its invariant and is settled: between two calls of
    /// `process` no brick in use holds only empty voxels.
    pub closed spec fn wf(&self) -> bool {
        &&& self.map.wf()
        &&& self.map@.settled()
    }

    /// A well-formed world has a well-formed, settled tree.
    pub proof fn lemma_view_wf(&self)
        requires
            self.wf(),
        ensures
            self@.map.wf(),
            self@.map.settled(),
    {
        self.map.lemma_view_wf();
    }

    /// An empty world over pools of `layers` layer nodes and `bricks` bricks.
    pub fn with_pool_sizes(layers: u32, bricks: u32) -> (w: World)
        requires
            layers < u32::MAX,
            bricks < u32::MAX,
        ensures
            w.wf(),
            w@ == (WorldView {
                map: MapView::fresh(layers as nat, bricks as nat),
                staging: Seq::empty(),
                voxel_queue: Seq::empty(),
                model_queue: Seq::empty(),
                gpu_models: Seq::empty(),
                voxels_queued: 0,
                models_queued: 0,
                model_chunks: 0,
                voxel_chunks: 0,
                dealloc_dispatches: 0,
                bindings: unbound_slots(),
            }),
    {
        let w = World {
            map: Brickmap::new(layers, bricks),
            staging: Vec::new(),
            voxel_queue: Vec::new(),
            model_queue: Vec::new(),
            gpu_models: Vec::new(),
            voxels_queued: 0,
            models_queued: 0,
            model_chunks: 0,
            voxel_chunks: 0,
            dealloc_dispatches: 0,
            bindings: [None, None, None],
        };
        assert(w.bindings@ =~= unbound_slots());
        assert(w@ =~~= (WorldView {
            map: MapView::fresh(layers as nat, bricks as nat),
            staging: Seq::empty(),
            voxel_queue: Seq::empty(),
            model_queue: Seq::empty(),
            gpu_models: Seq::empty(),
            voxels_queued: 0,
            models_queued: 0,
            model_chunks: 0,
            voxel_chunks: 0,
            dealloc_dispatches: 0,
            bindings: unbound_slots(),
        }));
        w
    }

    /// An empty world over pools of [`LAYER0_POOL_SIZE`] layer nodes and
    /// [`BRICK_POOL_SIZE`] bricks.
    pub fn new() -> (w: World)
        ensures
            w.wf(),
            w@ == (WorldView {
                map: MapView::fresh(LAYER0_POOL_SIZE as nat, BRICK_POOL_SIZE as nat),
                staging: Seq::empty(),
                voxel_queue: Seq::empty(),
                model_queue: Seq::empty(),
                gpu_models: Seq::empty(),
                voxels_queued: 0,
                models_queued: 0,
                model_chunks: 0,
                voxel_chunks: 0,
                dealloc_dispatches: 0,
                bindings: unbound_slots(),
            }),
    {
        World::with_pool_sizes(LAYER0_POOL_SIZE as u32, BRICK_POOL_SIZE as u32)
    }

    /// Number of voxel writes that the last `process` found queued.
    pub fn voxels_queued(&self) -> (n: usize)
        ensures
            n == self@.voxels_queued,
    {
        self.voxels_queued
    }

    /// Number of model moves that the last `process` found queued.
    pub fn models_queued(&self) -> (n: usize)
        ensures
            n == self@.models_queued,
    {
        self.models_queued
    }

    /// Number of chunks in which the last `process` ran the model moves:
    /// the number of dispatches of the placement kernel. Stops at the
    /// largest `usize`.
    pub fn model_chunks(&self) -> (n: usize)
        ensures
            n == self@.model_chunks,
    {
        self.model_chunks
    }

    /// Number of dispatches of the deallocation kernel in the last `process`.
    pub fn dealloc_dispatches(&self) -> (n: usize)
        ensures
            n == self@.dealloc_dispatches,
    {
        self.dealloc_dispatches
    }

    /// Number of chunks in which the last `process` wrote the voxel queue.
    /// Each chunk, of the voxel queue or of a model move, is one dispatch of
    /// each of the three kernels of the write pipeline.
    pub fn voxel_chunks(&self) -> (n: usize)
        ensures
            n == self@.voxel_chunks,
    {
        self.voxel_chunks
    }

    /// Number of free bricks.
    pub fn bricks_free(&self) -> (n: u32)
        requires
            self.wf(),
        ensures
            n == self@.map.free_bricks.len(),
    {
        self.map.bricks_free()
    }

    /// Number of free layer nodes.
    pub fn layer0s_free(&self) -> (n: u32)
        requires
            self.wf(),
        ensures
            n == self@.map.free_layers.len(),
    {
        self.map.layers_free()
    }

    /// The voxel that the tree holds for `world_pos`.
    pub fn voxel_at(&self, world_pos: UVec3) -> (v: Voxel)
        requires
            self.wf(),
        ensures
            v.0 == self@.map.voxel_at(world_pos),
    {
        self.map.voxel_at(world_pos)
    }

    /// The root slot that covers `world_pos`; 0 outside the root map.
    pub fn root_entry(&self, world_pos: UVec3) -> (r: u32)
        requires
            self.wf(),
        ensures
            r == (if crate::brickmap::in_bounds(world_pos) {
                self@.map.root[crate::brickmap::root_slot(world_pos)]
            } else {
                0
            }),
    {
        self.map.root_entry(world_pos)
    }

    /// The layer slot that covers `world_pos`; 0 where the root slot is absent.
    pub fn layer_entry(&self, world_pos: UVec3) -> (b: u32)
        requires
            self.wf(),
        ensures
            b == (if crate::brickmap::in_bounds(world_pos) && self@.map.root[crate::brickmap::root_slot(
                world_pos,
            )] != 0 {
                self@.map.layers[self@.map.root[crate::brickmap::root_slot(world_pos)]
                    - 1][crate::brickmap::layer_slot(world_pos)]
            } else {
                0
            }),
    {
        self.map.layer_entry(world_pos)
    }

    /// Queues a voxel write. Writes of one chunk are applied in the order of
    /// arrival, so the last write to a cell is the one that stays.
    pub fn set_voxel(&mut self, voxel: Voxel, world_pos: UVec3)
        requires
            old(self).wf(),
        ensures
            final(self).wf(),
            final(self)@ == (WorldView {
                voxel_queue: old(self)@.voxel_queue.push(queue_entry((voxel, world_pos))),
                ..old(self)@
            }),
    {
        self.voxel_queue.push((voxel, world_pos));
        assert(self@ =~~= (WorldView {
            voxel_queue: old(self)@.voxel_queue.push(queue_entry((voxel, world_pos))),
            ..old(self)@
        }));
    }

    /// Queues a model move.
    pub fn update_model(
        &mut self,
        model: Arc<GpuModel>,
        old_pos: UVec3,
        new_pos: UVec3,
        remove_only: bool,
    )
        requires
            old(self).wf(),
        ensures
            final(self).wf(),
            final(self)@ == (WorldView {
                model_queue: old(self)@.model_queue.push(
                    ModelMove { records: model@, old_pos, new_pos, remove_only },
                ),
                ..old(self)@
            }),
    {
        self.model_queue.push((model, old_pos, new_pos, remove_only));
        assert(self@ =~~= (WorldView {
            model_queue: old(self)@.model_queue.push(
                ModelMove { records: model@, old_pos, new_pos, remove_only },
            ),
            ..old(self)@
        }));
    }

    /// Adds a model to the registry.
    pub fn register_model(&mut self, model: Arc<GpuModel>)
        requires
            old(self).wf(),
        ensures
            final(self).wf(),
            final(self)@ == (WorldView {
                gpu_models: old(self)@.gpu_models.push(model),
                ..old(self)@
            }),
    {
        self.gpu_models.push(model);
    }

    /// Binds the three buffers of the tree for a consumer: the brick pool at
    /// slot 0, the layer pool at slot 1 and the root map at slot 2.
    pub fn bind(&mut self)
        requires
            old(self).wf(),
        ensures
            final(self).wf(),
            final(self)@ == (WorldView { bindings: bound_slots(), ..old(self)@ }),
    {
        self.bindings = [Some(Buffer::BrickPool), Some(Buffer::LayerPool), Some(Buffer::RootMap)];
        assert(self.bindings@ =~= bound_slots());
    }

    /// Releases the three binding slots.
    pub fn unbind(&mut self)
        requires
            old(self).wf(),
        ensures
            final(self).wf(),
            final(self)@ == (WorldView { bindings: unbound_slots(), ..old(self)@ }),
    {
        self.bindings = [None, None, None];
        assert(self.bindings@ =~= unbound_slots());
    }

    /// The buffer bound at `slot`, if any; slots from 3 on are never bound.
    pub fn binding(&self, slot: usize) -> (b: Option<Buffer>)
        ensures
            b == (if slot < 3 {
                self@.bindings[slot as int]
            } else {
                None
            }),
    {
        if slot < 3 {
            self.bindings[slot]
        } else {
            None
        }
    }

    /// Copies `size` queued writes, from `offset` on, to the staging buffer.
    fn write_queue_to_gpu(
        staging: &mut Vec<QueueEntry>,
        queue: &Vec<(Voxel, UVec3)>,
        offset: usize,
        size: usize,
    )
        requires
            offset + size <= queue.len(),
        ensures
            final(staging)@ == queue_entries(queue@).subrange(offset as int, offset + size),
    {
        staging.clear();
        let mut i: usize = 0;
        while i < size
            invariant
                i <= size,
                offset + size <= queue.len(),
                staging@ == queue_entries(queue@).subrange(offset as int, offset + i),
            decreases size - i,
        {
            let w = queue[offset + i];
            staging.push(QueueEntry { pos: w.1, word: w.0.0 });
            i += 1;
            assert(staging@ =~= queue_entries(queue@).subrange(offset as int, offset + i));
        }
    }

    /// The placement kernel: derives `size` staging records from the records
    /// of `model`, from `offset` on.
    fn place_model(
        staging: &mut Vec<QueueEntry>,
        model: &GpuModel,
        offset: usize,
        size: usize,
        pos: UVec3,
        keep: bool,
    )
        requires
            offset + size <= model.vox_buf.len(),
        ensures
            final(staging)@ == placed(model@, pos, keep).subrange(offset as int, offset + size),
    {
        staging.clear();
        let mut i: usize = 0;
        while i < size
            invariant
                i <= size,
                offset + size <= model.vox_buf.len(),
                staging@ == placed(model@, pos, keep).subrange(offset as int, offset + i),
            decreases size - i,
        {
            let r = model.record(offset + i);
            let at = (UVec3 { x: r.x, y: r.y, z: r.z }).wrapping_add(pos);
            let word = if keep {
                r.w
            } else {
                0
            };
            staging.push(QueueEntry { pos: at, word });
            i += 1;
            assert(staging@ =~= placed(model@, pos, keep).subrange(offset as int, offset + i));
        }
    }

    /// The write pipeline over the first `size` staging records: allocate
    /// layer nodes, allocate bricks, write voxels.
    fn process_internal(map: &mut Brickmap, staging: &Vec<QueueEntry>, size: usize)
        requires
            old(map).wf(),
            size <= staging@.len(),
        ensures
            final(map).wf(),
            final(map)@ == old(map)@.write_chunk(staging@.take(size as int)),
    {
        map.dispatch(Kernel::AllocLayers, staging, size);
        map.dispatch(Kernel::AllocBricks, staging, size);
        map.dispatch(Kernel::WriteVoxels, staging, size);
    }

    /// The deallocation pass: the kernel over the whole brick pool, at most
    /// [`DEALLOC_QUEUE_SIZE`] bricks per dispatch.
    fn process_dealloc(map: &mut Brickmap) -> (dispatches: usize)
        requires
            old(map).wf(),
        ensures
            final(map).wf(),
            final(map)@ == old(map)@.dealloc_pass(),
            dispatches == dealloc_dispatch_count(old(map)@.bricks.len()),
    {
        let total = map.brick_capacity();
        let mut first: u32 = 0;
        let mut dispatches: usize = 0;
        while first < total
            invariant
                first <= total,
                total == old(map)@.bricks.len(),
                map.wf(),
                map@.bricks.len() == total,
                map@ == old(map)@.dealloc_range(0, first as int),
                first == dispatches * DEALLOC_QUEUE_SIZE || first == total,
                dispatches == dealloc_dispatch_count(first as nat),
            decreases total - first,
        {
            let count = if total - first < DEALLOC_QUEUE_SIZE as u32 {
                total - first
            } else {
                DEALLOC_QUEUE_SIZE as u32
            };
            proof {
                lemma_dealloc_range_join(old(map)@, 0, first as int, first + count);
                lemma_dealloc_range_len(old(map)@, 0, first + count);
            }
            map.dealloc_bricks(first, count);
            first += count;
            dispatches += 1;
        }
        dispatches
    }

    /// One pass over a model: its records go through the placement kernel
    /// and the write pipeline, chunk by chunk.
    fn place_pass(
        map: &mut Brickmap,
        staging: &mut Vec<QueueEntry>,
        model: &GpuModel,
        pos: UVec3,
        keep: bool,
    ) -> (chunks: usize)
        requires
            old(map).wf(),
        ensures
            final(map).wf(),
            final(map)@ == write_chunks(old(map)@, placed(model@, pos, keep)),
            chunks == pass_chunks(model@.len()),
    {
        let count = model.voxel_count();
        let ghost all = placed(model@, pos, keep);
        let mut offset: usize = 0;
        let mut chunks: usize = 0;
        assert(all.skip(0) =~= all);
        loop
            invariant_except_break
                offset <= count,
                offset == 0 || offset < count,
                offset == chunks * VOXEL_QUEUE_SIZE,
                write_chunks(map@, all.skip(offset as int)) == write_chunks(old(map)@, all),
            invariant
                count == model@.len(),
                all == placed(model@, pos, keep),
                map.wf(),
            ensures
                map@ == write_chunks(old(map)@, all),
                chunks == pass_chunks(count as nat),
            decreases count - offset,
        {
            let size = if count - offset < VOXEL_QUEUE_SIZE {
                count - offset
            } else {
                VOXEL_QUEUE_SIZE
            };
            World::place_model(staging, model, offset, size, pos, keep);
            World::process_internal(map, staging, size);
            proof {
                let rest = all.skip(offset as int);
                assert(staging@.take(size as int) =~= rest.take(size as int));
                if rest.len() > VOXEL_QUEUE_SIZE {
                    assert(rest.skip(VOXEL_QUEUE_SIZE as int) =~= all.skip(offset + VOXEL_QUEUE_SIZE));
                } else {
                    assert(rest.take(size as int) =~= rest);
                }
            }
            if count - offset <= VOXEL_QUEUE_SIZE {
                chunks += 1;
                break ;
            }
            offset += VOXEL_QUEUE_SIZE;
            chunks += 1;
        }
        chunks
    }

    /// Writes the queued voxels, chunk by chunk, and returns the number of chunks.
    fn write_queue(
        map: &mut Brickmap,
        staging: &mut Vec<QueueEntry>,
        queue: &Vec<(Voxel, UVec3)>,
    ) -> (chunks: usize)
        requires
            old(map).wf(),
        ensures
            final(map).wf(),
            final(map)@ == write_chunks(old(map)@, queue_entries(queue@)),
            chunks == chunk_count(queue@.len()),
    {
        let count = queue.len();
        let ghost all = queue_entries(queue@);
        let mut offset: usize = 0;
        let mut chunks: usize = 0;
        assert(all.skip(0) =~= all);
        while offset < count
            invariant
                offset <= count,
                count == queue@.len(),
                all == queue_entries(queue@),
                map.wf(),
                write_chunks(map@, all.skip(offset as int)) == write_chunks(old(map)@, all),
                offset == chunks * VOXEL_QUEUE_SIZE || offset == count,
                chunks == chunk_count(offset as nat),
            decreases count - offset,
        {
            let size = if count - offset < VOXEL_QUEUE_SIZE {
                count - offset
            } else {
                VOXEL_QUEUE_SIZE
            };
            World::write_queue_to_gpu(staging, queue, offset, size);
            World::process_internal(map, staging, size);
            proof {
                let rest = all.skip(offset as int);
                assert(staging@.take(size as int) =~= rest.take(size as int));
                if rest.len() > VOXEL_QUEUE_SIZE {
                    assert(rest.skip(VOXEL_QUEUE_SIZE as int) =~= all.skip(offset + VOXEL_QUEUE_SIZE));
                } else {
                    assert(rest.take(size as int) =~= rest);
                    assert(all.skip(offset + size) =~= Seq::<QueueEntry>::empty());
                    lemma_write_chunk_empty(map@);
                }
            }
            offset += size;
            chunks += 1;
        }
        proof {
            assert(all.skip(offset as int) =~= Seq::<QueueEntry>::empty());
            lemma_write_chunk_empty(map@);
        }
        chunks
    }

    /// Drains both queues into the tree and reclaims the bricks that hold
    /// only empty voxels: model moves first, then voxel writes, then the
    /// deallocation pass. The staging buffer is cleared at the end. The
    /// passes bind and release the buffers as they go, so no slot is bound
    /// afterwards.
    pub fn process(&mut self)
        requires
            old(self).wf(),
        ensures
            final(self).wf(),
            final(self)@ == (WorldView {
                map: process_map(old(self)@.map, old(self)@.model_queue, old(self)@.voxel_queue),
                staging: Seq::empty(),
                voxel_queue: Seq::empty(),
                model_queue: Seq::empty(),
                voxels_queued: old(self)@.voxel_queue.len(),
                models_queued: old(self)@.model_queue.len(),
                model_chunks: saturated(moves_chunks(old(self)@.model_queue)),
                voxel_chunks: chunk_count(old(self)@.voxel_queue.len()),
                dealloc_dispatches: dealloc_dispatch_count(old(self)@.map.bricks.len()),
                bindings: unbound_slots(),
                ..old(self)@
            }),
    {
        proof {
            self.map.lemma_view_wf();
        }
        self.voxels_queued = self.voxel_queue.len();
        self.models_queued = self.model_queue.len();

        let mut models: Vec<(Arc<GpuModel>, UVec3, UVec3, bool)> = Vec::new();
        core::mem::swap(&mut models, &mut self.model_queue);
        let ghost moves = queue_moves(models@);
        let mut i: usize = 0;
        let mut model_chunks: usize = 0;
        assert(moves.take(0) =~= Seq::<ModelMove>::empty());
        while i < models.len()
            invariant
                i <= models@.len(),
                moves == queue_moves(models@),
                model_chunks == saturated(moves_chunks(moves.take(i as int))),
                old(self).map@.wf(),
                self.map@.bricks.len() == old(self).map@.bricks.len(),
                self.voxel_queue == old(self).voxel_queue,
                self.model_queue@.len() == 0,
                self.gpu_models == old(self).gpu_models,
                self.voxels_queued == old(self).voxel_queue@.len(),
                self.models_queued == old(self).model_queue@.len(),
                self.map.wf(),
                self.map@ == move_models(old(self).map@, moves.take(i as int)),
            decreases models@.len() - i,
        {
            let entry = &models[i];
            proof {
                let next = moves.take(i + 1);
                assert(next.drop_last() =~= moves.take(i as int));
                assert(next.last() == moves[i as int]);
            }
            let cleared = World::place_pass(
                &mut self.map,
                &mut self.staging,
                &entry.0,
                entry.1,
                false,
            );
            model_chunks = model_chunks.saturating_add(cleared);
            if !entry.3 {
                let written = World::place_pass(
                    &mut self.map,
                    &mut self.staging,
                    &entry.0,
                    entry.2,
                    true,
                );
                model_chunks = model_chunks.saturating_add(written);
            }
            proof {
                crate::laws::content::lemma_move_models_len(old(self).map@, moves.take(i + 1));
            }
            i += 1;
        }
        self.model_chunks = model_chunks;
        assert(moves.take(i as int) =~= moves);

        let mut voxels: Vec<(Voxel, UVec3)> = Vec::new();
        core::mem::swap(&mut voxels, &mut self.voxel_queue);
        self.voxel_chunks = World::write_queue(&mut self.map, &mut self.staging, &voxels);

        proof {
            crate::laws::content::lemma_move_models_len(old(self).map@, moves);
            crate::laws::content::lemma_write_chunks_len(
                move_models(old(self).map@, moves),
                queue_entries(voxels@),
            );
        }
        let ghost written = self.map@;
        proof {
            self.map.lemma_view_wf();
        }
        self.dealloc_dispatches = World::process_dealloc(&mut self.map);
        proof {
            crate::laws::reclaim::lemma_dealloc_pass_settles(written);
        }
        self.staging.clear();
        self.bindings = [None, None, None];
        assert(self.bindings@ =~= unbound_slots());

        assert(self@ =~~= (WorldView {
            map: process_map(old(self)@.map, old(self)@.model_queue, old(self)@.voxel_queue),
            staging: Seq::empty(),
            voxel_queue: Seq::empty(),
            model_queue: Seq::empty(),
            voxels_queued: old(self)@.voxel_queue.len(),
            models_queued: old(self)@.model_queue.len(),
            model_chunks: saturated(moves_chunks(old(self)@.model_queue)),
            voxel_chunks: chunk_count(old(self)@.voxel_queue.len()),
            dealloc_dispatches: dealloc_dispatch_count(old(self)@.map.bricks.len()),
            bindings: unbound_slots(),
            ..old(self)@
        }));
    }
}

} // verus!
