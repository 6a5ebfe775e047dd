//! What the deallocation pass reclaims and what it leaves alone.

use vstd::prelude::*;
use crate::brick::all_zero;
use crate::brickmap::{
    brick_slot,
    in_bounds,
    layer_slot,
    lemma_free_brick_wf,
    lemma_slot_bounds,
    root_slot,
    Kernel,
    MapView,
    QueueEntry,
};
use crate::math::UVec3;
use crate::world::{move_models, process_map, write_chunks, ModelMove, VOXEL_QUEUE_SIZE};
use crate::laws::content::{
    brick_of,
    lemma_bricks_len,
    lemma_move_models_wf,
    lemma_write_chunks_consistent,
    lemma_write_chunks_frame,
    lemma_write_chunks_keep_brick,
    resolves,
    same_region,
    targets,
};

verus! {

/// The deallocation kernel changes no stored voxel: a brick that it reclaims
/// held only empty voxels, and a position without a brick reads as empty.
pub proof fn lemma_free_brick_content(s: MapView, b: int, p: UVec3)
    requires
        s.wf(),
        0 <= b < s.bricks.len(),
    ensures
        s.free_brick(b).voxel_at(p) == s.voxel_at(p),
{
    lemma_slot_bounds(p);
    if s.reclaimable(b) && in_bounds(p) {
        assert(s.owner_ok(b));
        let rp = s.root[root_slot(p)];
        if rp != 0 {
            assert(s.slot_ok(rp - 1, layer_slot(p)));
        }
    }
}

/// What a run of the deallocation kernel over the bricks `lo..hi` leaves: the
/// reclaimable bricks among them are free and their owning slots cleared, and
/// nothing else has changed. No stored voxel changes.
pub proof fn lemma_dealloc_range_outcome(s: MapView, lo: int, hi: int)
    requires
        s.wf(),
        0 <= lo <= hi <= s.bricks.len(),
    ensures
        ({
            let t = s.dealloc_range(lo, hi);
            &&& t.wf()
            &&& t.root == s.root
            &&& t.bricks == s.bricks
            &&& t.free_layers == s.free_layers
            &&& t.owner_slot == s.owner_slot
            &&& t.layers.len() == s.layers.len()
            &&& forall|b: int|
                0 <= b < s.bricks.len() ==> #[trigger] t.owner_layer[b] == (if lo <= b < hi
                    && s.reclaimable(b) {
                    0
                } else {
                    s.owner_layer[b]
                })
            &&& forall|l: int, k: int|
                0 <= l < s.layers.len() && 0 <= k < 4096 ==> #[trigger] t.layers[l][k] == (if s.layers[l][k]
                    != 0 && lo <= s.layers[l][k] - 1 < hi && s.reclaimable(s.layers[l][k] - 1) {
                    0
                } else {
                    s.layers[l][k]
                })
            &&& forall|p: UVec3| #[trigger] t.voxel_at(p) == s.voxel_at(p)
        }),
    decreases hi - lo,
{
    if lo < hi {
        let m = s.dealloc_range(lo, hi - 1);
        let t = m.free_brick(hi - 1);
        lemma_dealloc_range_outcome(s, lo, hi - 1);
        lemma_free_brick_wf(m, hi - 1);
        assert(m.owner_layer[hi - 1] == s.owner_layer[hi - 1]);
        assert(m.reclaimable(hi - 1) == s.reclaimable(hi - 1));
        assert forall|p: UVec3| #[trigger] t.voxel_at(p) == s.voxel_at(p) by {
            lemma_free_brick_content(m, hi - 1, p);
            assert(m.voxel_at(p) == s.voxel_at(p));
        }
        if m.reclaimable(hi - 1) {
            assert(m.owner_ok(hi - 1));
            assert forall|l: int, k: int|
                0 <= l < s.layers.len() && 0 <= k < 4096 implies #[trigger] t.layers[l][k] == (if s.layers[l][k]
                != 0 && lo <= s.layers[l][k] - 1 < hi && s.reclaimable(s.layers[l][k] - 1) {
                0
            } else {
                s.layers[l][k]
            }) by {
                assert(m.slot_ok(l, k));
                assert(s.slot_ok(l, k));
                assert(m.layers[l][k] == (if s.layers[l][k] != 0 && lo <= s.layers[l][k] - 1 < hi
                    - 1 && s.reclaimable(s.layers[l][k] - 1) {
                    0
                } else {
                    s.layers[l][k]
                }));
            }
        } else {
            assert forall|l: int, k: int|
                0 <= l < s.layers.len() && 0 <= k < 4096 implies #[trigger] t.layers[l][k] == (if s.layers[l][k]
                != 0 && lo <= s.layers[l][k] - 1 < hi && s.reclaimable(s.layers[l][k] - 1) {
                0
            } else {
                s.layers[l][k]
            }) by {
                assert(m.layers[l][k] == (if s.layers[l][k] != 0 && lo <= s.layers[l][k] - 1 < hi
                    - 1 && s.reclaimable(s.layers[l][k] - 1) {
                    0
                } else {
                    s.layers[l][k]
                }));
            }
        }
    }
}

/// Deallocation. After the deallocation pass every brick that was in use and
/// held only empty voxels is on the free stack, exactly once, and the layer
/// slot that referenced it is 0. Bricks that hold a voxel stay in use, and no
/// stored voxel changes.
pub proof fn lemma_dealloc_pass_reclaims(s: MapView, b: int)
    requires
        s.wf(),
        0 <= b < s.bricks.len(),
    ensures
        s.dealloc_pass().wf(),
        s.reclaimable(b) ==> {
            &&& s.dealloc_pass().free_bricks.contains((b + 1) as u32)
            &&& s.dealloc_pass().free_bricks.no_duplicates()
            &&& s.dealloc_pass().layers[s.owner_layer[b] - 1][s.owner_slot[b] as int] == 0
            &&& s.dealloc_pass().owner_layer[b] == 0
        },
        !s.reclaimable(b) ==> s.dealloc_pass().owner_layer[b] == s.owner_layer[b],
        !s.dealloc_pass().reclaimable(b),
        forall|p: UVec3| #[trigger] s.dealloc_pass().voxel_at(p) == s.voxel_at(p),
{
    let t = s.dealloc_pass();
    lemma_dealloc_range_outcome(s, 0, s.bricks.len() as int);
    assert(t.owner_ok(b));
    assert(t.owner_layer[b] == (if s.reclaimable(b) {
        0
    } else {
        s.owner_layer[b]
    }));
    if s.reclaimable(b) {
        assert(s.owner_ok(b));
        let l = s.owner_layer[b] - 1;
        let k = s.owner_slot[b] as int;
        assert(t.layers[l][k] == 0);
    }
}

/// The deallocation pass leaves a settled tree: no brick in use holds only
/// empty voxels afterwards.
pub proof fn lemma_dealloc_pass_settles(s: MapView)
    requires
        s.wf(),
    ensures
        s.dealloc_pass().wf(),
        s.dealloc_pass().settled(),
{
    let t = s.dealloc_pass();
    lemma_dealloc_range_outcome(s, 0, s.bricks.len() as int);
    assert forall|b: int| 0 <= b < t.bricks.len() implies !#[trigger] t.reclaimable(b) by {
        lemma_dealloc_pass_reclaims(s, b);
    }
}

/// A tree in which no brick is reclaimable is left as it is by the deallocation pass.
pub proof fn lemma_dealloc_pass_settled(s: MapView)
    requires
        forall|b: int| 0 <= b < s.bricks.len() ==> !#[trigger] s.reclaimable(b),
    ensures
        s.dealloc_pass() == s,
{
    lemma_dealloc_range_settled(s, s.bricks.len() as int);
}

pub(crate) proof fn lemma_dealloc_range_settled(s: MapView, hi: int)
    requires
        0 <= hi <= s.bricks.len(),
        forall|b: int| 0 <= b < s.bricks.len() ==> !#[trigger] s.reclaimable(b),
    ensures
        s.dealloc_range(0, hi) == s,
    decreases hi,
{
    if hi > 0 {
        lemma_dealloc_range_settled(s, hi - 1);
        assert(!s.reclaimable(hi - 1));
    }
}

/// Writing the empty voxel to a position that already reads as empty changes
/// nothing in the tree or the pools, provided the position has a layer node,
/// lies outside the root map, or no layer node is free. (Where the root slot
/// is absent and a layer node is free, the first kernel allocates one.)
pub proof fn lemma_empty_write_idempotent(s: MapView, p: UVec3)
    requires
        s.wf(),
        s.voxel_at(p) == 0,
        !in_bounds(p) || s.root[root_slot(p)] != 0 || s.free_layers.len() == 0,
    ensures
        s.write_chunk(seq![QueueEntry { pos: p, word: 0 }]) == s,
{
    let e = QueueEntry { pos: p, word: 0 };
    let one = seq![e];
    let none = Seq::<QueueEntry>::empty();
    assert(one.drop_last() =~= none);
    assert(one.last() == e);
    lemma_slot_bounds(p);
    assert(s.run(Kernel::AllocLayers, none) == s);
    assert(s.run(Kernel::AllocLayers, one) == s.alloc_layer(e));
    assert(s.alloc_layer(e) == s);
    assert(s.run(Kernel::AllocBricks, none) == s);
    assert(s.run(Kernel::AllocBricks, one) == s.alloc_brick(e));
    assert(s.alloc_brick(e) == s);
    assert(s.run(Kernel::WriteVoxels, none) == s);
    assert(s.run(Kernel::WriteVoxels, one) == s.write_voxel(e));
    if resolves(s, p) {
        let r = s.root[root_slot(p)];
        let b = s.layers[r - 1][layer_slot(p)];
        assert(s.slot_ok(r - 1, layer_slot(p)));
        assert(s.bricks[b - 1].update(brick_slot(p), 0) =~= s.bricks[b - 1]);
        assert(s.bricks.update(b - 1, s.bricks[b - 1]) =~= s.bricks);
    }
    assert(s.write_voxel(e) =~= s);
}

/// What `process` leaves. The tree satisfies its invariant, so the pool
/// discipline holds; no brick in use holds only empty voxels; and every
/// position reads as the moves and writes left it, the deallocation pass
/// having changed no stored voxel.
pub proof fn lemma_process_map(s: MapView, moves: Seq<ModelMove>, writes: Seq<QueueEntry>)
    requires
        s.wf(),
    ensures
        process_map(s, moves, writes).wf(),
        forall|b: int|
            0 <= b < s.bricks.len() ==> !#[trigger] process_map(s, moves, writes).reclaimable(b),
        forall|p: UVec3|
            #[trigger] process_map(s, moves, writes).voxel_at(p) == write_chunks(
                move_models(s, moves),
                writes,
            ).voxel_at(p),
        process_map(s, moves, writes).dealloc_pass() == process_map(s, moves, writes),
{
    let moved = move_models(s, moves);
    let written = write_chunks(moved, writes);
    let t = written.dealloc_pass();
    lemma_move_models_wf(s, moves);
    lemma_write_chunks_frame(moved, writes, UVec3 { x: 0, y: 0, z: 0 });
    lemma_dealloc_range_outcome(written, 0, written.bricks.len() as int);
    lemma_bricks_len(s, moves, writes);
    assert forall|b: int| 0 <= b < s.bricks.len() implies !#[trigger] t.reclaimable(b) by {
        lemma_dealloc_pass_reclaims(written, b);
    }
    lemma_dealloc_pass_settled(t);
}

/// Idempotent empty write, for a whole `process`. In a tree that a `process`
/// has left, a `process` whose only queued write is the empty voxel for a
/// position that reads as empty changes nothing, provided the position has a
/// layer node, lies outside the root map, or no layer node is free.
pub proof fn lemma_process_empty_write(s: MapView, p: UVec3)
    requires
        s.wf(),
        forall|b: int| 0 <= b < s.bricks.len() ==> !#[trigger] s.reclaimable(b),
        s.voxel_at(p) == 0,
        !in_bounds(p) || s.root[root_slot(p)] != 0 || s.free_layers.len() == 0,
    ensures
        process_map(s, Seq::empty(), seq![QueueEntry { pos: p, word: 0 }]) == s,
{
    lemma_empty_write_idempotent(s, p);
    lemma_dealloc_pass_settled(s);
}

/// Each cell of a brick is the cell of a position of the brick's region.
pub(crate) proof fn lemma_cell_has_position(p: UVec3, c: int) -> (q: UVec3)
    requires
        in_bounds(p),
        0 <= c < 4096,
    ensures
        same_region(p, q),
        in_bounds(q),
        brick_slot(q) == c,
        root_slot(q) == root_slot(p),
        layer_slot(q) == layer_slot(p),
{
    let cx = (c % 16) as u32;
    let cy = ((c / 16) % 16) as u32;
    let cz = (c / 256) as u32;
    assert(c == cx + 16 * cy + 256 * cz);
    lemma_axis_cell(p.x, cx);
    lemma_axis_cell(p.y, cy);
    lemma_axis_cell(p.z, cz);
    let q = UVec3 {
        x: ((p.x / 16) * 16 + cx) as u32,
        y: ((p.y / 16) * 16 + cy) as u32,
        z: ((p.z / 16) * 16 + cz) as u32,
    };
    assert(q.x % 16 == cx && q.y % 16 == cy && q.z % 16 == cz);
    lemma_region_slots(p, q);
    q
}

proof fn lemma_axis_cell(a: u32, k: u32)
    by (bit_vector)
    requires
        a < 16384,
        k < 16,
    ensures
        (a / 16) * 16 + k < 16384,
        ((a / 16) * 16 + k) / 16 == a / 16,
        ((a / 16) * 16 + k) % 16 == k,
{
}

/// Positions of one region share their root slot and their layer slot.
pub(crate) proof fn lemma_region_slots(p: UVec3, q: UVec3)
    requires
        same_region(p, q),
    ensures
        in_bounds(p) == in_bounds(q),
        root_slot(q) == root_slot(p),
        layer_slot(q) == layer_slot(p),
{
    lemma_region_axis(p.x, q.x);
    lemma_region_axis(p.y, q.y);
    lemma_region_axis(p.z, q.z);
}

pub(crate) proof fn lemma_region_axis(a: u32, b: u32)
    by (bit_vector)
    requires
        a / 16 == b / 16,
    ensures
        a / 256 == b / 256,
        (a / 16) % 16 == (b / 16) % 16,
        (a < 16384) == (b < 16384),
{
}

/// Writes of the empty voxel to every position of a brick's region leave
/// the brick in use and holding only empty voxels: reclaimable.
pub proof fn lemma_cleared_brick_blank(s: MapView, writes: Seq<QueueEntry>, p: UVec3)
    requires
        s.wf(),
        resolves(s, p),
        forall|i: int| 0 <= i < writes.len() ==> (#[trigger] writes[i]).word == 0,
        forall|q: UVec3| same_region(p, q) ==> #[trigger] targets(writes, q),
    ensures
        write_chunks(s, writes).wf(),
        1 <= brick_of(s, p) <= s.bricks.len(),
        write_chunks(s, writes).bricks.len() == s.bricks.len(),
        write_chunks(s, writes).reclaimable(brick_of(s, p) - 1),
        write_chunks(s, writes).root[root_slot(p)] == s.root[root_slot(p)],
        brick_of(write_chunks(s, writes), p) == brick_of(s, p),
{
    let written = write_chunks(s, writes);
    let v = brick_of(s, p);
    let r = s.root[root_slot(p)];
    lemma_slot_bounds(p);
    lemma_write_chunks_keep_brick(s, writes, p);
    crate::laws::content::lemma_write_chunks_len(s, writes);
    assert(written.root[root_slot(p)] == r);
    assert(written.slot_ok(r - 1, layer_slot(p)));
    assert(0 <= v - 1 < written.bricks.len());
    assert(all_zero(written.bricks[v - 1])) by {
        let words = written.bricks[v - 1];
        assert(words.len() == 4096);
        assert forall|c: int| 0 <= c < words.len() implies #[trigger] words[c] == 0 by {
            let q = lemma_cell_has_position(p, c);
            assert(targets(writes, q));
            lemma_write_chunks_consistent(s, writes, q);
            let i = choose|i: int| 0 <= i < writes.len() && (#[trigger] writes[i]).pos == q;
            assert(writes[i].word == 0);
            lemma_region_slots(p, q);
            lemma_write_chunks_keep_brick(s, writes, q);
            assert(written.voxel_at(q) == written.bricks[v - 1][c]);
        }
    }
    assert(written.owner_ok(v - 1));
}

/// Deallocation, from the writes on. Take a position that has a brick, and
/// writes that carry only the empty voxel and target every position of that
/// brick's region. After a `process` with those writes queued, the brick is
/// on the free stack and the layer slot that referenced it is 0.
pub proof fn lemma_cleared_brick_is_reclaimed(s: MapView, writes: Seq<QueueEntry>, p: UVec3)
    requires
        s.wf(),
        resolves(s, p),
        forall|i: int| 0 <= i < writes.len() ==> (#[trigger] writes[i]).word == 0,
        forall|q: UVec3| same_region(p, q) ==> #[trigger] targets(writes, q),
    ensures
        ({
            let t = process_map(s, Seq::empty(), writes);
            &&& t.wf()
            &&& t.free_bricks.contains(brick_of(s, p))
            &&& t.root[root_slot(p)] == s.root[root_slot(p)]
            &&& t.layers[t.root[root_slot(p)] - 1][layer_slot(p)] == 0
            &&& !resolves(t, p)
        }),
{
    let written = write_chunks(s, writes);
    let v = brick_of(s, p);
    lemma_slot_bounds(p);
    lemma_cleared_brick_blank(s, writes, p);
    lemma_dealloc_pass_reclaims(written, v - 1);
    lemma_dealloc_range_outcome(written, 0, written.bricks.len() as int);
    assert(written.owner_ok(v - 1));
    assert(written.slot_ok(written.root[root_slot(p)] - 1, layer_slot(p)));
}

/// Whether `t` is `s` but for the voxels of brick `b`.
pub open spec fn differs_in_brick(s: MapView, t: MapView, b: int) -> bool {
    &&& t.root == s.root
    &&& t.layers == s.layers
    &&& t.owner_layer == s.owner_layer
    &&& t.owner_slot == s.owner_slot
    &&& t.free_bricks == s.free_bricks
    &&& t.free_layers == s.free_layers
    &&& t.bricks.len() == s.bricks.len()
    &&& forall|c: int| 0 <= c < s.bricks.len() && c != b ==> #[trigger] t.bricks[c] == s.bricks[c]
}

/// Whether every entry carries the empty voxel to a position of the region of `p`.
pub open spec fn clears_within(entries: Seq<QueueEntry>, p: UVec3) -> bool {
    forall|i: int|
        0 <= i < entries.len() ==> (#[trigger] entries[i]).word == 0 && same_region(
            p,
            entries[i].pos,
        )
}

proof fn lemma_step_clears(s: MapView, t: MapView, kernel: Kernel, e: QueueEntry, p: UVec3)
    requires
        s.wf(),
        t.wf(),
        resolves(s, p),
        differs_in_brick(s, t, brick_of(s, p) - 1),
        e.word == 0,
        same_region(p, e.pos),
    ensures
        t.step(kernel, e).wf(),
        differs_in_brick(s, t.step(kernel, e), brick_of(s, p) - 1),
{
    lemma_slot_bounds(p);
    lemma_slot_bounds(e.pos);
    lemma_region_slots(p, e.pos);
    crate::brickmap::lemma_step_wf(t, kernel, e);
    assert(s.slot_ok(s.root[root_slot(p)] - 1, layer_slot(p)));
    match kernel {
        Kernel::AllocLayers => {
            assert(t.step(kernel, e) == t);
        },
        Kernel::AllocBricks => {
            assert(t.step(kernel, e) == t);
        },
        Kernel::WriteVoxels => {},
    }
}

proof fn lemma_run_clears(s: MapView, t: MapView, kernel: Kernel, entries: Seq<QueueEntry>, p: UVec3)
    requires
        s.wf(),
        t.wf(),
        resolves(s, p),
        differs_in_brick(s, t, brick_of(s, p) - 1),
        clears_within(entries, p),
    ensures
        t.run(kernel, entries).wf(),
        differs_in_brick(s, t.run(kernel, entries), brick_of(s, p) - 1),
    decreases entries.len(),
{
    if entries.len() > 0 {
        let init = entries.drop_last();
        assert(clears_within(init, p)) by {
            assert forall|i: int| 0 <= i < init.len() implies (#[trigger] init[i]).word == 0
                && same_region(p, init[i].pos) by {
                assert(init[i] == entries[i]);
            }
        }
        lemma_run_clears(s, t, kernel, init, p);
        let n = entries.len() - 1;
        assert(entries[n].word == 0 && same_region(p, entries[n].pos));
        lemma_step_clears(s, t.run(kernel, init), kernel, entries.last(), p);
    }
}

proof fn lemma_chunk_clears(s: MapView, t: MapView, entries: Seq<QueueEntry>, p: UVec3)
    requires
        s.wf(),
        t.wf(),
        resolves(s, p),
        differs_in_brick(s, t, brick_of(s, p) - 1),
        clears_within(entries, p),
    ensures
        t.write_chunk(entries).wf(),
        differs_in_brick(s, t.write_chunk(entries), brick_of(s, p) - 1),
{
    let a = t.run(Kernel::AllocLayers, entries);
    lemma_run_clears(s, t, Kernel::AllocLayers, entries, p);
    let b = a.run(Kernel::AllocBricks, entries);
    lemma_run_clears(s, a, Kernel::AllocBricks, entries, p);
    lemma_run_clears(s, b, Kernel::WriteVoxels, entries, p);
}

/// Writes of the empty voxel into the region of one brick change nothing
/// but the voxels of that brick: no slot, no owner record, no free stack.
pub proof fn lemma_clearing_writes_touch_one_brick(
    s: MapView,
    t: MapView,
    entries: Seq<QueueEntry>,
    p: UVec3,
)
    requires
        s.wf(),
        t.wf(),
        resolves(s, p),
        differs_in_brick(s, t, brick_of(s, p) - 1),
        clears_within(entries, p),
    ensures
        write_chunks(t, entries).wf(),
        differs_in_brick(s, write_chunks(t, entries), brick_of(s, p) - 1),
    decreases entries.len(),
{
    if entries.len() <= VOXEL_QUEUE_SIZE {
        lemma_chunk_clears(s, t, entries, p);
    } else {
        let head = entries.take(VOXEL_QUEUE_SIZE as int);
        let tail = entries.skip(VOXEL_QUEUE_SIZE as int);
        assert(clears_within(head, p)) by {
            assert forall|i: int| 0 <= i < head.len() implies (#[trigger] head[i]).word == 0
                && same_region(p, head[i].pos) by {
                assert(head[i] == entries[i]);
            }
        }
        assert(clears_within(tail, p)) by {
            assert forall|i: int| 0 <= i < tail.len() implies (#[trigger] tail[i]).word == 0
                && same_region(p, tail[i].pos) by {
                assert(tail[i] == entries[i + VOXEL_QUEUE_SIZE]);
            }
        }
        lemma_chunk_clears(s, t, head, p);
        lemma_clearing_writes_touch_one_brick(s, t.write_chunk(head), tail, p);
    }
}

/// Where only brick `c` can be reclaimable, the deallocation kernel over
/// `lo..hi` pushes that brick, if it is reclaimable and in the range, and
/// leaves the free stack as it is otherwise.
pub proof fn lemma_dealloc_range_single(s: MapView, lo: int, hi: int, c: int)
    requires
        s.wf(),
        0 <= lo <= hi <= s.bricks.len(),
        forall|b: int| 0 <= b < s.bricks.len() && b != c ==> !#[trigger] s.reclaimable(b),
    ensures
        s.dealloc_range(lo, hi).free_bricks == (if lo <= c < hi && s.reclaimable(c) {
            s.free_bricks.push((c + 1) as u32)
        } else {
            s.free_bricks
        }),
    decreases hi - lo,
{
    if lo < hi {
        let m = s.dealloc_range(lo, hi - 1);
        lemma_dealloc_range_single(s, lo, hi - 1, c);
        lemma_dealloc_range_outcome(s, lo, hi - 1);
        assert(m.owner_layer[hi - 1] == s.owner_layer[hi - 1]);
        assert(m.reclaimable(hi - 1) == s.reclaimable(hi - 1));
        if hi - 1 != c {
            assert(!s.reclaimable(hi - 1));
        }
    }
}

/// A settled tree is left as it is by a `process` with nothing queued.
pub proof fn lemma_idle_process(s: MapView)
    requires
        s.wf(),
        s.settled(),
    ensures
        process_map(s, Seq::empty(), Seq::empty()) == s,
{
    crate::world::lemma_write_chunk_empty(s);
    lemma_dealloc_pass_settled(s);
}

/// The free count after a brick is cleared. In a settled tree, take a
/// position that has a brick, and queue the empty voxel for every position
/// of that brick's region and for no other position. The `process` that
/// follows pushes that brick, and nothing else, on the free stack: the free
/// count is one higher than before and within the pool. A further `process`
/// with nothing queued changes nothing, so the brick is returned once.
pub proof fn lemma_cleared_brick_count(s: MapView, writes: Seq<QueueEntry>, p: UVec3)
    requires
        s.wf(),
        s.settled(),
        resolves(s, p),
        clears_within(writes, p),
        forall|q: UVec3| same_region(p, q) ==> #[trigger] targets(writes, q),
    ensures
        ({
            let t = process_map(s, Seq::empty(), writes);
            &&& t.wf()
            &&& t.settled()
            &&& t.free_bricks == s.free_bricks.push(brick_of(s, p))
            &&& t.free_bricks.len() == s.free_bricks.len() + 1
            &&& t.free_bricks.len() <= t.bricks.len()
            &&& t.free_bricks.no_duplicates()
            &&& process_map(t, Seq::empty(), Seq::empty()) == t
        }),
{
    let written = write_chunks(s, writes);
    let v = brick_of(s, p);
    let t = written.dealloc_pass();
    lemma_cleared_brick_blank(s, writes, p);
    lemma_clearing_writes_touch_one_brick(s, s, writes, p);
    assert forall|b: int| 0 <= b < written.bricks.len() && b != v - 1 implies !#[trigger] written.reclaimable(
        b,
    ) by {
        assert(!s.reclaimable(b));
        assert(written.bricks[b] == s.bricks[b]);
    }
    lemma_dealloc_range_single(written, 0, written.bricks.len() as int, v - 1);
    lemma_dealloc_pass_settles(written);
    lemma_idle_process(t);
    crate::laws::pools::lemma_pool_discipline(t);
}

} // verus!
