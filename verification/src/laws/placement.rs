//! Moving, replacing and removing models.

use vstd::prelude::*;
use crate::brickmap::MapView;
use crate::math::{UVec3, UVec4};
use crate::world::{move_model, placed, placed_entry, write_chunks, ModelMove};
use crate::laws::content::{
    consistent,
    lands,
    lemma_write_chunks_consistent,
    lemma_write_chunks_frame,
    resolves,
    targets,
};
use crate::laws::starvation::lemma_write_chunks_landed;

verus! {

/// The world position that a model record occupies when the model is placed at `pos`.
pub open spec fn model_cell(record: UVec4, pos: UVec3) -> UVec3 {
    placed_entry(record, pos, true).pos
}

/// Whether `p` is a cell of the model placed at `pos`.
pub open spec fn model_covers(records: Seq<UVec4>, pos: UVec3, p: UVec3) -> bool {
    exists|i: int| 0 <= i < records.len() && model_cell(#[trigger] records[i], pos) == p
}

/// The tree holds the model at `pos`: every record's word is stored at the record's cell.
pub open spec fn model_shown(s: MapView, records: Seq<UVec4>, pos: UVec3) -> bool {
    forall|i: int|
        0 <= i < records.len() ==> s.voxel_at(model_cell(#[trigger] records[i], pos))
            == records[i].w
}

pub(crate) proof fn lemma_placed_targets(records: Seq<UVec4>, pos: UVec3, keep: bool, p: UVec3)
    ensures
        targets(placed(records, pos, keep), p) == model_covers(records, pos, p),
{
    let entries = placed(records, pos, keep);
    if targets(entries, p) {
        let i = choose|i: int| 0 <= i < entries.len() && (#[trigger] entries[i]).pos == p;
        assert(model_cell(records[i], pos) == p);
    }
    if model_covers(records, pos, p) {
        let i = choose|i: int| 0 <= i < records.len() && model_cell(#[trigger] records[i], pos) == p;
        assert(entries[i].pos == p);
    }
}

/// Removing a model clears its cells. After a model move with `remove_only`,
/// every cell of the model at `old_pos` reads as empty and every other
/// position keeps its voxel.
pub proof fn lemma_remove_model(s: MapView, records: Seq<UVec4>, old_pos: UVec3, new_pos: UVec3, p: UVec3)
    requires
        s.wf(),
    ensures
        ({
            let t = move_model(s, ModelMove { records, old_pos, new_pos, remove_only: true });
            &&& t.wf()
            &&& model_covers(records, old_pos, p) ==> t.voxel_at(p) == 0
            &&& !model_covers(records, old_pos, p) ==> t.voxel_at(p) == s.voxel_at(p)
        }),
{
    let entries = placed(records, old_pos, false);
    lemma_placed_targets(records, old_pos, false, p);
    lemma_write_chunks_frame(s, entries, p);
    lemma_write_chunks_consistent(s, entries, p);
    if model_covers(records, old_pos, p) {
        let i = choose|i: int| 0 <= i < entries.len() && (#[trigger] entries[i]).pos == p;
        assert(entries[i].word == 0);
    }
}

/// Placement symmetry, first half. Moving a model from a position to the same
/// position leaves every stored voxel as it was, provided the tree held the
/// model there: each cell of the model stored the model's word.
pub proof fn lemma_replace_model_in_place(s: MapView, records: Seq<UVec4>, pos: UVec3, p: UVec3)
    requires
        s.wf(),
        model_shown(s, records, pos),
    ensures
        move_model(
            s,
            ModelMove { records, old_pos: pos, new_pos: pos, remove_only: false },
        ).wf(),
        move_model(
            s,
            ModelMove { records, old_pos: pos, new_pos: pos, remove_only: false },
        ).voxel_at(p) == s.voxel_at(p),
{
    let clear = placed(records, pos, false);
    let write = placed(records, pos, true);
    let u = write_chunks(s, clear);
    let t = write_chunks(u, write);
    lemma_placed_targets(records, pos, false, p);
    lemma_placed_targets(records, pos, true, p);
    lemma_write_chunks_frame(s, clear, p);
    assert(consistent(write)) by {
        assert forall|i: int, j: int|
            0 <= i < write.len() && 0 <= j < write.len() && (#[trigger] write[i]).pos == (
            #[trigger] write[j]).pos implies write[i].word == write[j].word by {
            assert(s.voxel_at(model_cell(records[i], pos)) == records[i].w);
            assert(s.voxel_at(model_cell(records[j], pos)) == records[j].w);
        }
    }
    assert(lands(u, write)) by {
        assert forall|i: int| 0 <= i < write.len() && (#[trigger] write[i]).word
            != 0 implies resolves(u, write[i].pos) by {
            assert(s.voxel_at(model_cell(records[i], pos)) == records[i].w);
            lemma_write_chunks_frame(s, clear, write[i].pos);
        }
    }
    lemma_write_chunks_frame(u, write, p);
    lemma_write_chunks_consistent(u, write, p);
    if model_covers(records, pos, p) {
        let i = choose|i: int| 0 <= i < records.len() && model_cell(#[trigger] records[i], pos) == p;
        assert(write[i].pos == p);
        assert(s.voxel_at(model_cell(records[i], pos)) == records[i].w);
    }
}

/// Placement symmetry, second half. Moving a model from `start` to `goal` and then
/// removing it at `goal` leaves every cell of the model at either position
/// empty, and every other position with the voxel it had. A cell that was
/// empty before the model came is therefore as it was.
pub proof fn lemma_place_then_remove(
    s: MapView,
    records: Seq<UVec4>,
    start: UVec3,
    goal: UVec3,
    p: UVec3,
)
    requires
        s.wf(),
    ensures
        ({
            let placed_at_p1 = move_model(
                s,
                ModelMove { records, old_pos: start, new_pos: goal, remove_only: false },
            );
            let t = move_model(
                placed_at_p1,
                ModelMove { records, old_pos: goal, new_pos: goal, remove_only: true },
            );
            &&& t.wf()
            &&& (model_covers(records, start, p) || model_covers(records, goal, p)) ==> t.voxel_at(p)
                == 0
            &&& !model_covers(records, start, p) && !model_covers(records, goal, p) ==> t.voxel_at(p)
                == s.voxel_at(p)
        }),
{
    let clear0 = placed(records, start, false);
    let write1 = placed(records, goal, true);
    let u = write_chunks(s, clear0);
    let v = write_chunks(u, write1);
    lemma_placed_targets(records, start, false, p);
    lemma_placed_targets(records, goal, true, p);
    lemma_write_chunks_frame(s, clear0, p);
    lemma_write_chunks_consistent(s, clear0, p);
    lemma_write_chunks_frame(u, write1, p);
    lemma_remove_model(v, records, goal, goal, p);
    if model_covers(records, start, p) {
        let i = choose|i: int| 0 <= i < clear0.len() && (#[trigger] clear0[i]).pos == p;
        assert(clear0[i].word == 0);
    }
}

/// Placement symmetry, first half, converse. Where the records of a model
/// are consistent and moving it from a position to the same position leaves
/// every stored voxel as it was, each cell of the model that has a brick
/// afterwards stored the model's word before. (A cell without a brick reads
/// as empty before and after, whatever the model holds for it: this is the
/// case of a write dropped on an exhausted pool.)
pub proof fn lemma_unchanged_means_shown(s: MapView, records: Seq<UVec4>, pos: UVec3, i: int)
    requires
        s.wf(),
        consistent(placed(records, pos, true)),
        0 <= i < records.len(),
        forall|p: UVec3|
            #[trigger] move_model(
                s,
                ModelMove { records, old_pos: pos, new_pos: pos, remove_only: false },
            ).voxel_at(p) == s.voxel_at(p),
        resolves(
            move_model(s, ModelMove { records, old_pos: pos, new_pos: pos, remove_only: false }),
            model_cell(records[i], pos),
        ),
    ensures
        s.voxel_at(model_cell(records[i], pos)) == records[i].w,
{
    let clear = placed(records, pos, false);
    let write = placed(records, pos, true);
    let u = write_chunks(s, clear);
    let t = write_chunks(u, write);
    let p = model_cell(records[i], pos);
    lemma_write_chunks_frame(s, clear, p);
    lemma_write_chunks_landed(u, write, p);
    assert(write[i].pos == p && write[i].word == records[i].w);
    assert(t.voxel_at(p) == s.voxel_at(p));
}

} // verus!
