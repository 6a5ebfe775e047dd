//! Which stored voxels the write pipeline can change, and to what.

use vstd::prelude::*;
use crate::brick::all_zero;
use crate::brickmap::{
    brick_slot,
    in_bounds,
    layer_slot,
    lemma_slot_bounds,
    lemma_step_wf,
    root_slot,
    Kernel,
    MapView,
    QueueEntry,
};
use crate::math::UVec3;
use crate::world::{move_models, placed, write_chunks, ModelMove, VOXEL_QUEUE_SIZE};

verus! {

/// Whether the tree has a brick for `p`: the position is inside the root
/// map and both its root slot and its layer slot are set.
pub open spec fn resolves(s: MapView, p: UVec3) -> bool {
    in_bounds(p) && s.root[root_slot(p)] != 0 && s.layers[s.root[root_slot(p)] - 1][layer_slot(
        p,
    )] != 0
}

/// The word of the last entry of `entries` that targets `p`, if any does.
pub open spec fn last_write(entries: Seq<QueueEntry>, p: UVec3) -> Option<u32>
    decreases entries.len(),
{
    if entries.len() == 0 {
        None
    } else if entries.last().pos == p {
        Some(entries.last().word)
    } else {
        last_write(entries.drop_last(), p)
    }
}

pub(crate) proof fn lemma_axis_unique(x: u32, y: u32)
    by (bit_vector)
    requires
        x / 256 == y / 256,
        (x / 16) % 16 == (y / 16) % 16,
        x % 16 == y % 16,
    ensures
        x == y,
{
}

pub(crate) proof fn lemma_cell_unique(a: int, b: int, c: int, a2: int, b2: int, c2: int, n: int)
    requires
        n > 0,
        0 <= a < n,
        0 <= b < n,
        0 <= c < n,
        0 <= a2 < n,
        0 <= b2 < n,
        0 <= c2 < n,
        a + n * b + n * n * c == a2 + n * b2 + n * n * c2,
    ensures
        a == a2,
        b == b2,
        c == c2,
{
    assert(c == c2) by (nonlinear_arith)
        requires
            n > 0,
            0 <= a < n,
            0 <= b < n,
            0 <= c,
            0 <= a2 < n,
            0 <= b2 < n,
            0 <= c2,
            a + n * b + n * n * c == a2 + n * b2 + n * n * c2,
    {
        if c < c2 {
            assert(n * n * c2 >= n * n * c + n * n);
            assert(a + n * b <= n - 1 + n * (n - 1));
        } else if c2 < c {
            assert(n * n * c >= n * n * c2 + n * n);
            assert(a2 + n * b2 <= n - 1 + n * (n - 1));
        }
    }
    assert(b == b2) by (nonlinear_arith)
        requires
            n > 0,
            0 <= a < n,
            0 <= a2 < n,
            a + n * b == a2 + n * b2,
    {
        if b < b2 {
            assert(n * b2 >= n * b + n);
        } else if b2 < b {
            assert(n * b >= n * b2 + n);
        }
    }
}

/// Two positions inside the root map with the same three slots are the same position.
pub proof fn lemma_slots_determine_position(p: UVec3, q: UVec3)
    requires
        in_bounds(p),
        in_bounds(q),
        root_slot(p) == root_slot(q),
        layer_slot(p) == layer_slot(q),
        brick_slot(p) == brick_slot(q),
    ensures
        p == q,
{
    lemma_cell_unique(
        (p.x / 256) as int,
        (p.y / 256) as int,
        (p.z / 256) as int,
        (q.x / 256) as int,
        (q.y / 256) as int,
        (q.z / 256) as int,
        64,
    );
    lemma_cell_unique(
        ((p.x / 16) % 16) as int,
        ((p.y / 16) % 16) as int,
        ((p.z / 16) % 16) as int,
        ((q.x / 16) % 16) as int,
        ((q.y / 16) % 16) as int,
        ((q.z / 16) % 16) as int,
        16,
    );
    lemma_cell_unique(
        (p.x % 16) as int,
        (p.y % 16) as int,
        (p.z % 16) as int,
        (q.x % 16) as int,
        (q.y % 16) as int,
        (q.z % 16) as int,
        16,
    );
    lemma_axis_unique(p.x, q.x);
    lemma_axis_unique(p.y, q.y);
    lemma_axis_unique(p.z, q.z);
}

/// What one invocation of a kernel does to the voxel stored for `p`: the
/// write kernel stores its word at its own position if the tree has a brick
/// there, and nothing else changes for any position.
pub proof fn lemma_step_content(s: MapView, kernel: Kernel, e: QueueEntry, p: UVec3)
    requires
        s.wf(),
    ensures
        s.step(kernel, e).voxel_at(p) == (if kernel == Kernel::WriteVoxels && e.pos == p
            && resolves(s, p) {
            e.word
        } else {
            s.voxel_at(p)
        }),
        kernel == Kernel::WriteVoxels ==> resolves(s.step(kernel, e), p) == resolves(s, p),
        resolves(s, p) ==> resolves(s.step(kernel, e), p),
{
    lemma_slot_bounds(e.pos);
    lemma_slot_bounds(p);
    match kernel {
        Kernel::AllocLayers => lemma_alloc_layer_content(s, e, p),
        Kernel::AllocBricks => lemma_alloc_brick_content(s, e, p),
        Kernel::WriteVoxels => lemma_write_voxel_content(s, e, p),
    }
}

pub(crate) proof fn lemma_alloc_layer_content(s: MapView, e: QueueEntry, p: UVec3)
    requires
        s.wf(),
    ensures
        s.alloc_layer(e).voxel_at(p) == s.voxel_at(p),
        resolves(s, p) ==> resolves(s.alloc_layer(e), p),
{
    lemma_slot_bounds(e.pos);
    lemma_slot_bounds(p);
    let ri = root_slot(e.pos);
    if in_bounds(e.pos) && s.root[ri] == 0 && s.free_layers.len() > 0 && in_bounds(p) {
        let top = s.free_layers.len() - 1;
        let idx = s.free_layers[top];
        assert(all_zero(s.layers[idx - 1]));
    }
}

pub(crate) proof fn lemma_alloc_brick_content(s: MapView, e: QueueEntry, p: UVec3)
    requires
        s.wf(),
    ensures
        s.alloc_brick(e).voxel_at(p) == s.voxel_at(p),
        resolves(s, p) ==> resolves(s.alloc_brick(e), p),
{
    lemma_slot_bounds(e.pos);
    lemma_slot_bounds(p);
    let r = s.root[root_slot(e.pos)];
    let k = layer_slot(e.pos);
    if in_bounds(e.pos) && e.word != 0 && r != 0 && s.layers[r - 1][k] == 0
        && s.free_bricks.len() > 0 && in_bounds(p) {
        let top = s.free_bricks.len() - 1;
        let idx = s.free_bricks[top];
        assert(s.free_bricks.contains(idx));
        assert(s.owner_ok(idx - 1));
        assert(all_zero(s.bricks[idx - 1]));
        let rp = s.root[root_slot(p)];
        if rp != 0 {
            assert(s.slot_ok(rp - 1, layer_slot(p)));
        }
    }
}

pub(crate) proof fn lemma_write_voxel_content(s: MapView, e: QueueEntry, p: UVec3)
    requires
        s.wf(),
    ensures
        s.write_voxel(e).voxel_at(p) == (if e.pos == p && resolves(s, p) {
            e.word
        } else {
            s.voxel_at(p)
        }),
        resolves(s.write_voxel(e), p) == resolves(s, p),
{
    lemma_slot_bounds(e.pos);
    lemma_slot_bounds(p);
    if resolves(s, e.pos) && in_bounds(p) {
        let r = s.root[root_slot(e.pos)];
        let k = layer_slot(e.pos);
        assert(s.slot_ok(r - 1, k));
        let rp = s.root[root_slot(p)];
        if rp != 0 {
            assert(s.slot_ok(rp - 1, layer_slot(p)));
            if s.layers[rp - 1][layer_slot(p)] == s.layers[r - 1][k] && brick_slot(p)
                == brick_slot(e.pos) {
                lemma_slots_determine_position(p, e.pos);
            }
        }
    }
}

/// No entry targets `p` exactly when `p` has no last write.
pub proof fn lemma_last_write_none(entries: Seq<QueueEntry>, p: UVec3)
    ensures
        last_write(entries, p).is_none() <==> (forall|i: int|
            0 <= i < entries.len() ==> (#[trigger] entries[i]).pos != p),
        last_write(entries, p) matches Some(w) ==> exists|i: int|
            0 <= i < entries.len() && (#[trigger] entries[i]).pos == p && entries[i].word == w,
    decreases entries.len(),
{
    if entries.len() > 0 {
        let rest = entries.drop_last();
        lemma_last_write_none(rest, p);
        let n = entries.len() - 1;
        if entries.last().pos == p {
            assert(entries[n].pos == p && entries[n].word == entries.last().word);
        } else {
            if last_write(rest, p).is_none() {
                assert forall|i: int| 0 <= i < entries.len() implies (#[trigger] entries[i]).pos
                    != p by {
                    if i < n {
                        assert(rest[i].pos != p);
                    }
                }
            } else {
                let w = last_write(rest, p).unwrap();
                let i = choose|i: int|
                    0 <= i < rest.len() && (#[trigger] rest[i]).pos == p && rest[i].word == w;
                assert(entries[i].pos == p && entries[i].word == w);
            }
        }
    }
}

/// What one dispatch does to the voxel stored for `p`. The allocation
/// kernels change no stored voxel. The write kernel leaves `p` with the word
/// of the last entry that targets it, provided the tree has a brick for `p`;
/// a position that no entry targets, or that has no brick, keeps its voxel.
pub proof fn lemma_run_content(s: MapView, kernel: Kernel, entries: Seq<QueueEntry>, p: UVec3)
    requires
        s.wf(),
    ensures
        s.run(kernel, entries).wf(),
        s.run(kernel, entries).voxel_at(p) == (if kernel == Kernel::WriteVoxels && resolves(s, p) {
            match last_write(entries, p) {
                Some(w) => w,
                None => s.voxel_at(p),
            }
        } else {
            s.voxel_at(p)
        }),
        kernel == Kernel::WriteVoxels ==> resolves(s.run(kernel, entries), p) == resolves(s, p),
        resolves(s, p) ==> resolves(s.run(kernel, entries), p),
    decreases entries.len(),
{
    if entries.len() > 0 {
        let before = s.run(kernel, entries.drop_last());
        lemma_run_content(s, kernel, entries.drop_last(), p);
        lemma_step_wf(before, kernel, entries.last());
        lemma_step_content(before, kernel, entries.last(), p);
    }
}

/// What the write pipeline does, for one chunk, to the voxel stored for `p`.
/// A position that no entry targets keeps its voxel. A targeted position ends
/// with the word of the last entry that targets it if the tree has a brick
/// for it once the allocation kernels have run; if it has none, the write was
/// dropped and the position reads as empty, as it did before.
pub proof fn lemma_write_chunk_content(s: MapView, entries: Seq<QueueEntry>, p: UVec3)
    requires
        s.wf(),
    ensures
        s.write_chunk(entries).wf(),
        resolves(s, p) ==> resolves(s.write_chunk(entries), p),
        s.write_chunk(entries).voxel_at(p) == (match last_write(entries, p) {
            Some(w) => if resolves(s.write_chunk(entries), p) {
                w
            } else {
                0
            },
            None => s.voxel_at(p),
        }),
        !resolves(s.write_chunk(entries), p) ==> s.voxel_at(p) == 0,
{
    let a = s.run(Kernel::AllocLayers, entries);
    lemma_run_content(s, Kernel::AllocLayers, entries, p);
    let b = a.run(Kernel::AllocBricks, entries);
    lemma_run_content(a, Kernel::AllocBricks, entries, p);
    lemma_run_content(b, Kernel::WriteVoxels, entries, p);
}

/// Whether some entry of `entries` targets `p`.
pub open spec fn targets(entries: Seq<QueueEntry>, p: UVec3) -> bool {
    exists|i: int| 0 <= i < entries.len() && (#[trigger] entries[i]).pos == p
}

/// Entries that target the same position carry the same word.
pub open spec fn consistent(entries: Seq<QueueEntry>) -> bool {
    forall|i: int, j: int|
        0 <= i < entries.len() && 0 <= j < entries.len() && (#[trigger] entries[i]).pos == (
        #[trigger] entries[j]).pos ==> entries[i].word == entries[j].word
}

/// Every entry that carries a voxel targets a position for which `s` has a brick.
pub open spec fn lands(s: MapView, entries: Seq<QueueEntry>) -> bool {
    forall|i: int|
        0 <= i < entries.len() && (#[trigger] entries[i]).word != 0 ==> resolves(
            s,
            entries[i].pos,
        )
}

/// The write pipeline over any number of chunks keeps the invariant, never
/// takes a brick away from a position, and leaves every position that no
/// entry targets with the voxel it had.
pub proof fn lemma_write_chunks_frame(s: MapView, entries: Seq<QueueEntry>, p: UVec3)
    requires
        s.wf(),
    ensures
        write_chunks(s, entries).wf(),
        resolves(s, p) ==> resolves(write_chunks(s, entries), p),
        !targets(entries, p) ==> write_chunks(s, entries).voxel_at(p) == s.voxel_at(p),
    decreases entries.len(),
{
    if entries.len() <= VOXEL_QUEUE_SIZE {
        lemma_write_chunk_content(s, entries, p);
        lemma_last_write_none(entries, p);
    } else {
        let head = entries.take(VOXEL_QUEUE_SIZE as int);
        let tail = entries.skip(VOXEL_QUEUE_SIZE as int);
        let m = s.write_chunk(head);
        lemma_write_chunk_content(s, head, p);
        lemma_last_write_none(head, p);
        lemma_write_chunks_frame(m, tail, p);
        if !targets(entries, p) {
            assert forall|i: int| 0 <= i < head.len() implies (#[trigger] head[i]).pos != p by {
                assert(head[i] == entries[i]);
            }
            assert forall|i: int| 0 <= i < tail.len() implies (#[trigger] tail[i]).pos != p by {
                assert(tail[i] == entries[i + VOXEL_QUEUE_SIZE]);
            }
        }
    }
}

/// Where the entries are consistent and every entry that carries a voxel
/// finds a brick, the write pipeline leaves each targeted position with the
/// word that its entries carry. In particular, entries that all carry the
/// empty voxel leave every targeted position empty, whatever the pools hold.
pub proof fn lemma_write_chunks_consistent(s: MapView, entries: Seq<QueueEntry>, p: UVec3)
    requires
        s.wf(),
        consistent(entries),
        lands(s, entries),
    ensures
        forall|i: int|
            0 <= i < entries.len() && (#[trigger] entries[i]).pos == p ==> write_chunks(
                s,
                entries,
            ).voxel_at(p) == entries[i].word,
    decreases entries.len(),
{
    let t = write_chunks(s, entries);
    assert forall|i: int| 0 <= i < entries.len() && (#[trigger] entries[i]).pos == p implies t.voxel_at(
        p,
    ) == entries[i].word by {
        if entries.len() <= VOXEL_QUEUE_SIZE {
            lemma_write_chunk_content(s, entries, p);
            lemma_last_write_none(entries, p);
            let w = last_write(entries, p).unwrap();
            let j = choose|j: int|
                0 <= j < entries.len() && (#[trigger] entries[j]).pos == p && entries[j].word == w;
            assert(entries[i].word == entries[j].word);
        } else {
            let head = entries.take(VOXEL_QUEUE_SIZE as int);
            let tail = entries.skip(VOXEL_QUEUE_SIZE as int);
            let m = s.write_chunk(head);
            lemma_write_chunk_content(s, head, p);
            lemma_last_write_none(head, p);
            assert(consistent(tail)) by {
                assert forall|a: int, b: int|
                    0 <= a < tail.len() && 0 <= b < tail.len() && (#[trigger] tail[a]).pos == (
                    #[trigger] tail[b]).pos implies tail[a].word == tail[b].word by {
                    assert(tail[a] == entries[a + VOXEL_QUEUE_SIZE]);
                    assert(tail[b] == entries[b + VOXEL_QUEUE_SIZE]);
                }
            }
            assert(lands(m, tail)) by {
                assert forall|a: int| 0 <= a < tail.len() && (#[trigger] tail[a]).word
                    != 0 implies resolves(m, tail[a].pos) by {
                    assert(tail[a] == entries[a + VOXEL_QUEUE_SIZE]);
                    lemma_write_chunk_content(s, head, tail[a].pos);
                }
            }
            lemma_write_chunks_consistent(m, tail, p);
            lemma_write_chunks_frame(m, tail, p);
            if targets(tail, p) {
                let j = choose|j: int| 0 <= j < tail.len() && (#[trigger] tail[j]).pos == p;
                assert(tail[j] == entries[j + VOXEL_QUEUE_SIZE]);
                assert(entries[i].word == entries[j + VOXEL_QUEUE_SIZE].word);
            } else {
                assert(i < VOXEL_QUEUE_SIZE) by {
                    if i >= VOXEL_QUEUE_SIZE {
                        assert(tail[i - VOXEL_QUEUE_SIZE] == entries[i]);
                    }
                }
                assert(head[i] == entries[i]);
                let w = last_write(head, p).unwrap();
                let j = choose|j: int|
                    0 <= j < head.len() && (#[trigger] head[j]).pos == p && head[j].word == w;
                assert(head[j] == entries[j]);
                assert(entries[i].word == entries[j].word);
                if !resolves(m, p) {
                    if entries[i].word != 0 {
                        assert(resolves(s, entries[i].pos));
                    }
                }
            }
        }
    }
}

/// The queued model moves keep the invariant of the tree.
pub proof fn lemma_move_models_wf(s: MapView, moves: Seq<ModelMove>)
    requires
        s.wf(),
    ensures
        move_models(s, moves).wf(),
    decreases moves.len(),
{
    if moves.len() > 0 {
        lemma_move_models_wf(s, moves.drop_last());
        let before = move_models(s, moves.drop_last());
        let m = moves.last();
        let p = UVec3 { x: 0, y: 0, z: 0 };
        let cleared = write_chunks(before, placed(m.records, m.old_pos, false));
        lemma_write_chunks_frame(before, placed(m.records, m.old_pos, false), p);
        lemma_write_chunks_frame(cleared, placed(m.records, m.new_pos, true), p);
    }
}

/// The write pipeline leaves the size of the brick pool as it is.
pub(crate) proof fn lemma_run_len(s: MapView, kernel: Kernel, entries: Seq<QueueEntry>)
    requires
        s.wf(),
    ensures
        s.run(kernel, entries).wf(),
        s.run(kernel, entries).bricks.len() == s.bricks.len(),
    decreases entries.len(),
{
    if entries.len() > 0 {
        let before = s.run(kernel, entries.drop_last());
        let e = entries.last();
        lemma_run_len(s, kernel, entries.drop_last());
        lemma_step_wf(before, kernel, e);
        lemma_slot_bounds(e.pos);
        if kernel == Kernel::WriteVoxels && resolves(before, e.pos) {
            assert(before.slot_ok(before.root[root_slot(e.pos)] - 1, layer_slot(e.pos)));
        }
    }
}

pub(crate) proof fn lemma_write_chunk_len(s: MapView, entries: Seq<QueueEntry>)
    requires
        s.wf(),
    ensures
        s.write_chunk(entries).wf(),
        s.write_chunk(entries).bricks.len() == s.bricks.len(),
{
    let a = s.run(Kernel::AllocLayers, entries);
    let b = a.run(Kernel::AllocBricks, entries);
    lemma_run_len(s, Kernel::AllocLayers, entries);
    lemma_run_len(a, Kernel::AllocBricks, entries);
    lemma_run_len(b, Kernel::WriteVoxels, entries);
}

pub proof fn lemma_write_chunks_len(s: MapView, entries: Seq<QueueEntry>)
    requires
        s.wf(),
    ensures
        write_chunks(s, entries).wf(),
        write_chunks(s, entries).bricks.len() == s.bricks.len(),
    decreases entries.len(),
{
    if entries.len() <= VOXEL_QUEUE_SIZE {
        lemma_write_chunk_len(s, entries);
    } else {
        let head = entries.take(VOXEL_QUEUE_SIZE as int);
        lemma_write_chunk_len(s, head);
        lemma_write_chunks_len(s.write_chunk(head), entries.skip(VOXEL_QUEUE_SIZE as int));
    }
}

pub proof fn lemma_move_models_len(s: MapView, moves: Seq<ModelMove>)
    requires
        s.wf(),
    ensures
        move_models(s, moves).wf(),
        move_models(s, moves).bricks.len() == s.bricks.len(),
    decreases moves.len(),
{
    if moves.len() > 0 {
        lemma_move_models_len(s, moves.drop_last());
        let before = move_models(s, moves.drop_last());
        let m = moves.last();
        lemma_write_chunks_len(before, placed(m.records, m.old_pos, false));
        lemma_write_chunks_len(
            write_chunks(before, placed(m.records, m.old_pos, false)),
            placed(m.records, m.new_pos, true),
        );
    }
}

pub(crate) proof fn lemma_bricks_len(s: MapView, moves: Seq<ModelMove>, writes: Seq<QueueEntry>)
    requires
        s.wf(),
    ensures
        write_chunks(move_models(s, moves), writes).bricks.len() == s.bricks.len(),
{
    lemma_move_models_len(s, moves);
    lemma_write_chunks_len(move_models(s, moves), writes);
}

/// The brick that the tree has for `p`, as the one-based index in its layer slot.
pub open spec fn brick_of(s: MapView, p: UVec3) -> u32 {
    s.layers[s.root[root_slot(p)] - 1][layer_slot(p)]
}

/// Whether `p` and `q` lie in the same brick-sized region of the world.
pub open spec fn same_region(p: UVec3, q: UVec3) -> bool {
    p.x / 16 == q.x / 16 && p.y / 16 == q.y / 16 && p.z / 16 == q.z / 16
}

/// No kernel of the write pipeline takes a brick from a position or gives
/// it another.
pub(crate) proof fn lemma_step_keeps_brick(s: MapView, kernel: Kernel, e: QueueEntry, p: UVec3)
    requires
        s.wf(),
        resolves(s, p),
    ensures
        resolves(s.step(kernel, e), p),
        brick_of(s.step(kernel, e), p) == brick_of(s, p),
        s.step(kernel, e).root[root_slot(p)] == s.root[root_slot(p)],
{
    lemma_slot_bounds(e.pos);
    lemma_slot_bounds(p);
    lemma_step_content(s, kernel, e, p);
}

/// No dispatch of the write pipeline takes a brick from a position or gives
/// it another.
pub(crate) proof fn lemma_run_keeps_brick(s: MapView, kernel: Kernel, entries: Seq<QueueEntry>, p: UVec3)
    requires
        s.wf(),
        resolves(s, p),
    ensures
        s.run(kernel, entries).wf(),
        resolves(s.run(kernel, entries), p),
        brick_of(s.run(kernel, entries), p) == brick_of(s, p),
        s.run(kernel, entries).root[root_slot(p)] == s.root[root_slot(p)],
    decreases entries.len(),
{
    if entries.len() > 0 {
        lemma_run_keeps_brick(s, kernel, entries.drop_last(), p);
        lemma_step_wf(s.run(kernel, entries.drop_last()), kernel, entries.last());
        lemma_step_keeps_brick(s.run(kernel, entries.drop_last()), kernel, entries.last(), p);
    }
}

/// The write pipeline, over any number of chunks, leaves a position that
/// has a brick with that brick.
pub proof fn lemma_write_chunks_keep_brick(s: MapView, entries: Seq<QueueEntry>, p: UVec3)
    requires
        s.wf(),
        resolves(s, p),
    ensures
        write_chunks(s, entries).wf(),
        resolves(write_chunks(s, entries), p),
        brick_of(write_chunks(s, entries), p) == brick_of(s, p),
        write_chunks(s, entries).root[root_slot(p)] == s.root[root_slot(p)],
    decreases entries.len(),
{
    if entries.len() <= VOXEL_QUEUE_SIZE {
        lemma_chunk_keeps_brick(s, entries, p);
    } else {
        let head = entries.take(VOXEL_QUEUE_SIZE as int);
        lemma_chunk_keeps_brick(s, head, p);
        lemma_write_chunks_keep_brick(s.write_chunk(head), entries.skip(VOXEL_QUEUE_SIZE as int), p);
    }
}

pub(crate) proof fn lemma_chunk_keeps_brick(s: MapView, entries: Seq<QueueEntry>, p: UVec3)
    requires
        s.wf(),
        resolves(s, p),
    ensures
        s.write_chunk(entries).wf(),
        resolves(s.write_chunk(entries), p),
        brick_of(s.write_chunk(entries), p) == brick_of(s, p),
        s.write_chunk(entries).root[root_slot(p)] == s.root[root_slot(p)],
{
    let a = s.run(Kernel::AllocLayers, entries);
    let b = a.run(Kernel::AllocBricks, entries);
    lemma_run_keeps_brick(s, Kernel::AllocLayers, entries, p);
    lemma_run_keeps_brick(a, Kernel::AllocBricks, entries, p);
    lemma_run_keeps_brick(b, Kernel::WriteVoxels, entries, p);
}

} // verus!
