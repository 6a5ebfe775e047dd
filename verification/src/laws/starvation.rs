//! Dropped writes: a position whose pool is exhausted stays without a brick,
//! and any other targeted position holds what was written.

use vstd::prelude::*;
use crate::brickmap::{in_bounds, lemma_slot_bounds, root_slot, Kernel, MapView, QueueEntry};
use crate::math::UVec3;
use crate::world::{write_chunks, VOXEL_QUEUE_SIZE};
use crate::laws::content::{
    consistent,
    last_write,
    lemma_last_write_none,
    lemma_run_content,
    lemma_step_content,
    lemma_write_chunk_content,
    lemma_write_chunks_frame,
    resolves,
    targets,
};

verus! {

/// A position that can no longer get a brick: it has none, and the pool
/// that would have to provide its missing node is exhausted.
pub open spec fn starved(s: MapView, p: UVec3) -> bool {
    &&& in_bounds(p)
    &&& !resolves(s, p)
    &&& if s.root[root_slot(p)] == 0 {
        s.free_layers.len() == 0
    } else {
        s.free_bricks.len() == 0
    }
}

/// No kernel of the write pipeline gives a brick to a starved position.
pub proof fn lemma_step_starved(s: MapView, kernel: Kernel, e: QueueEntry, p: UVec3)
    requires
        s.wf(),
        starved(s, p),
    ensures
        starved(s.step(kernel, e), p),
{
    lemma_slot_bounds(e.pos);
    lemma_slot_bounds(p);
    lemma_step_content(s, kernel, e, p);
    match kernel {
        Kernel::AllocLayers => {},
        Kernel::AllocBricks => {},
        Kernel::WriteVoxels => {},
    }
}

/// No dispatch of the write pipeline gives a brick to a starved position.
pub proof fn lemma_run_starved(s: MapView, kernel: Kernel, entries: Seq<QueueEntry>, p: UVec3)
    requires
        s.wf(),
        starved(s, p),
    ensures
        starved(s.run(kernel, entries), p),
    decreases entries.len(),
{
    if entries.len() > 0 {
        lemma_run_starved(s, kernel, entries.drop_last(), p);
        lemma_run_content(s, kernel, entries.drop_last(), p);
        lemma_step_starved(s.run(kernel, entries.drop_last()), kernel, entries.last(), p);
    }
}

/// After the layer allocation kernel has run over entries of which one
/// targets `p`, the root slot of `p` is set or no layer node is free.
pub(crate) proof fn lemma_alloc_layers_serves(s: MapView, entries: Seq<QueueEntry>, p: UVec3)
    requires
        s.wf(),
        in_bounds(p),
        targets(entries, p),
    ensures
        s.run(Kernel::AllocLayers, entries).root[root_slot(p)] != 0 || s.run(
            Kernel::AllocLayers,
            entries,
        ).free_layers.len() == 0,
    decreases entries.len(),
{
    lemma_slot_bounds(p);
    let init = entries.drop_last();
    let before = s.run(Kernel::AllocLayers, init);
    lemma_run_content(s, Kernel::AllocLayers, init, p);
    lemma_slot_bounds(entries.last().pos);
    if entries.last().pos != p {
        let i = choose|i: int| 0 <= i < entries.len() && (#[trigger] entries[i]).pos == p;
        assert(init[i].pos == p);
        lemma_alloc_layers_serves(s, init, p);
    }
}

/// After the brick allocation kernel has run over entries of which one
/// targets `p` with a voxel, `p` has a brick, or its root slot is absent, or
/// no brick is free.
pub(crate) proof fn lemma_alloc_bricks_serves(s: MapView, entries: Seq<QueueEntry>, p: UVec3)
    requires
        s.wf(),
        in_bounds(p),
        exists|i: int| 0 <= i < entries.len() && (#[trigger] entries[i]).pos == p && entries[i].word != 0,
    ensures
        ({
            let t = s.run(Kernel::AllocBricks, entries);
            resolves(t, p) || t.root[root_slot(p)] == 0 || t.free_bricks.len() == 0
        }),
    decreases entries.len(),
{
    lemma_slot_bounds(p);
    let init = entries.drop_last();
    let before = s.run(Kernel::AllocBricks, init);
    lemma_run_content(s, Kernel::AllocBricks, init, p);
    lemma_slot_bounds(entries.last().pos);
    if !(entries.last().pos == p && entries.last().word != 0) {
        let i = choose|i: int|
            0 <= i < entries.len() && (#[trigger] entries[i]).pos == p && entries[i].word != 0;
        assert(init[i].pos == p && init[i].word != 0);
        lemma_alloc_bricks_serves(s, init, p);
        lemma_step_content(before, Kernel::AllocBricks, entries.last(), p);
    }
}

/// The allocation kernels leave the root map and the layer stack to the
/// brick allocation kernel as they are.
pub(crate) proof fn lemma_alloc_bricks_keeps_layers(s: MapView, entries: Seq<QueueEntry>)
    ensures
        s.run(Kernel::AllocBricks, entries).root == s.root,
        s.run(Kernel::AllocBricks, entries).free_layers == s.free_layers,
    decreases entries.len(),
{
    if entries.len() > 0 {
        lemma_alloc_bricks_keeps_layers(s, entries.drop_last());
    }
}

/// A chunk serves every voxel it carries or leaves its position starved: a
/// position that an entry targets with a voxel has a brick after the chunk,
/// unless the pool of the node that it lacks is exhausted.
pub proof fn lemma_write_chunk_serves(s: MapView, entries: Seq<QueueEntry>, p: UVec3)
    requires
        s.wf(),
        in_bounds(p),
        exists|i: int| 0 <= i < entries.len() && (#[trigger] entries[i]).pos == p && entries[i].word != 0,
    ensures
        resolves(s.write_chunk(entries), p) || starved(s.write_chunk(entries), p),
{
    let a = s.run(Kernel::AllocLayers, entries);
    let b = a.run(Kernel::AllocBricks, entries);
    let t = b.run(Kernel::WriteVoxels, entries);
    let i = choose|i: int|
        0 <= i < entries.len() && (#[trigger] entries[i]).pos == p && entries[i].word != 0;
    assert(entries[i].pos == p);
    lemma_run_content(s, Kernel::AllocLayers, entries, p);
    lemma_alloc_layers_serves(s, entries, p);
    lemma_run_content(a, Kernel::AllocBricks, entries, p);
    lemma_alloc_bricks_serves(a, entries, p);
    lemma_alloc_bricks_keeps_layers(a, entries);
    lemma_run_content(b, Kernel::WriteVoxels, entries, p);
    if !resolves(b, p) {
        assert(starved(b, p));
        lemma_run_starved(b, Kernel::WriteVoxels, entries, p);
    }
}

/// No number of chunks gives a brick to a starved position.
pub proof fn lemma_write_chunks_starved(s: MapView, entries: Seq<QueueEntry>, p: UVec3)
    requires
        s.wf(),
        starved(s, p),
    ensures
        starved(write_chunks(s, entries), p),
    decreases entries.len(),
{
    if entries.len() <= VOXEL_QUEUE_SIZE {
        lemma_chunk_starved(s, entries, p);
    } else {
        let head = entries.take(VOXEL_QUEUE_SIZE as int);
        lemma_chunk_starved(s, head, p);
        lemma_write_chunk_content(s, head, p);
        lemma_write_chunks_starved(s.write_chunk(head), entries.skip(VOXEL_QUEUE_SIZE as int), p);
    }
}

pub(crate) proof fn lemma_chunk_starved(s: MapView, entries: Seq<QueueEntry>, p: UVec3)
    requires
        s.wf(),
        starved(s, p),
    ensures
        starved(s.write_chunk(entries), p),
{
    let a = s.run(Kernel::AllocLayers, entries);
    let b = a.run(Kernel::AllocBricks, entries);
    lemma_run_starved(s, Kernel::AllocLayers, entries, p);
    lemma_run_content(s, Kernel::AllocLayers, entries, p);
    lemma_run_starved(a, Kernel::AllocBricks, entries, p);
    lemma_run_content(a, Kernel::AllocBricks, entries, p);
    lemma_run_starved(b, Kernel::WriteVoxels, entries, p);
}

/// Writes that land. Where the entries are consistent, a position that an
/// entry targets and that has a brick after all chunks holds the word that
/// its entries carry.
pub proof fn lemma_write_chunks_landed(s: MapView, entries: Seq<QueueEntry>, p: UVec3)
    requires
        s.wf(),
        consistent(entries),
        resolves(write_chunks(s, entries), p),
    ensures
        forall|i: int|
            0 <= i < entries.len() && (#[trigger] entries[i]).pos == p ==> write_chunks(
                s,
                entries,
            ).voxel_at(p) == entries[i].word,
    decreases entries.len(),
{
    let t = write_chunks(s, entries);
    assert forall|i: int| 0 <= i < entries.len() && (#[trigger] entries[i]).pos == p implies t.voxel_at(
        p,
    ) == entries[i].word by {
        if entries.len() <= VOXEL_QUEUE_SIZE {
            lemma_write_chunk_content(s, entries, p);
            lemma_last_write_none(entries, p);
            let w = last_write(entries, p).unwrap();
            let j = choose|j: int|
                0 <= j < entries.len() && (#[trigger] entries[j]).pos == p && entries[j].word == w;
            assert(entries[i].word == entries[j].word);
        } else {
            let head = entries.take(VOXEL_QUEUE_SIZE as int);
            let tail = entries.skip(VOXEL_QUEUE_SIZE as int);
            let m = s.write_chunk(head);
            lemma_write_chunk_content(s, head, p);
            lemma_last_write_none(head, p);
            assert(consistent(tail)) by {
                assert forall|a: int, b: int|
                    0 <= a < tail.len() && 0 <= b < tail.len() && (#[trigger] tail[a]).pos == (
                    #[trigger] tail[b]).pos implies tail[a].word == tail[b].word by {
                    assert(tail[a] == entries[a + VOXEL_QUEUE_SIZE]);
                    assert(tail[b] == entries[b + VOXEL_QUEUE_SIZE]);
                }
            }
            lemma_write_chunks_landed(m, tail, p);
            lemma_write_chunks_frame(m, tail, p);
            if targets(tail, p) {
                let j = choose|j: int| 0 <= j < tail.len() && (#[trigger] tail[j]).pos == p;
                assert(tail[j] == entries[j + VOXEL_QUEUE_SIZE]);
                assert(entries[i].word == entries[j + VOXEL_QUEUE_SIZE].word);
            } else {
                assert(i < VOXEL_QUEUE_SIZE) by {
                    if i >= VOXEL_QUEUE_SIZE {
                        assert(tail[i - VOXEL_QUEUE_SIZE] == entries[i]);
                    }
                }
                assert(head[i] == entries[i]);
                let w = last_write(head, p).unwrap();
                let j = choose|j: int|
                    0 <= j < head.len() && (#[trigger] head[j]).pos == p && head[j].word == w;
                assert(head[j] == entries[j]);
                assert(entries[i].word == entries[j].word);
                if !resolves(m, p) && entries[i].word != 0 {
                    assert(head[i].pos == p && head[i].word != 0);
                    lemma_write_chunk_serves(s, head, p);
                    lemma_write_chunks_starved(m, tail, p);
                }
            }
        }
    }
}

/// Any number of chunks serves every voxel it carries or leaves its
/// position starved.
pub proof fn lemma_write_chunks_serve(s: MapView, entries: Seq<QueueEntry>, i: int)
    requires
        s.wf(),
        0 <= i < entries.len(),
        entries[i].word != 0,
        in_bounds(entries[i].pos),
    ensures
        resolves(write_chunks(s, entries), entries[i].pos) || starved(
            write_chunks(s, entries),
            entries[i].pos,
        ),
    decreases entries.len(),
{
    let p = entries[i].pos;
    if entries.len() <= VOXEL_QUEUE_SIZE {
        lemma_write_chunk_serves(s, entries, p);
    } else {
        let head = entries.take(VOXEL_QUEUE_SIZE as int);
        let tail = entries.skip(VOXEL_QUEUE_SIZE as int);
        let m = s.write_chunk(head);
        lemma_write_chunk_content(s, head, p);
        if i < VOXEL_QUEUE_SIZE {
            assert(head[i] == entries[i]);
            lemma_write_chunk_serves(s, head, p);
            if resolves(m, p) {
                lemma_write_chunks_frame(m, tail, p);
            } else {
                lemma_write_chunks_starved(m, tail, p);
            }
        } else {
            assert(tail[i - VOXEL_QUEUE_SIZE] == entries[i]);
            lemma_write_chunks_serve(m, tail, i - VOXEL_QUEUE_SIZE);
        }
    }
}

/// Dropped writes. Where the entries are consistent, a voxel written to a
/// position inside the root map is stored there once all chunks are through,
/// unless the position is starved: it lacks a layer node and none is free, or
/// it lacks a brick and none is free. Then the write was dropped, and the
/// free count of the exhausted pool reads 0.
pub proof fn lemma_write_lands_or_starves(s: MapView, entries: Seq<QueueEntry>, i: int)
    requires
        s.wf(),
        consistent(entries),
        0 <= i < entries.len(),
        entries[i].word != 0,
        in_bounds(entries[i].pos),
    ensures
        write_chunks(s, entries).voxel_at(entries[i].pos) == entries[i].word || starved(
            write_chunks(s, entries),
            entries[i].pos,
        ),
{
    lemma_write_chunks_serve(s, entries, i);
    lemma_write_chunks_frame(s, entries, entries[i].pos);
    if resolves(write_chunks(s, entries), entries[i].pos) {
        lemma_write_chunks_landed(s, entries, entries[i].pos);
    }
}

} // verus!
