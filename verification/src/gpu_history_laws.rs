//! What a history keeps and what it lets go.

use crate::gpu_atlas::{slot_of_key, AtlasGeometry, LayerTileKey};
use crate::gpu_document_history::{
    entries_bytes, evictions, lemma_evictions, memento_error, misplaced, raster_ids, EntryModel,
    GpuHistoryDirection, GpuHistoryId, GpuHistoryRecordError, HistoryModel, PayloadModel,
};
use crate::gpu_document_undo::MementoModel;
use vstd::prelude::*;

verus! {

/// What is kept when the `count` oldest entries go: the others with the new one on top, within both
/// limits.
pub open spec fn fits_without(history: HistoryModel, count: int, bytes: int) -> bool {
    &&& history.undo.len() - count + 1 <= history.max_entries
    &&& entries_bytes(history.undo.subrange(count, history.undo.len() as int)) + bytes
        <= history.max_bytes
}

proof fn lemma_fewest(undo: Seq<EntryModel>, bytes: int, max_entries: int, max_bytes: int, k: int)
    requires
        0 <= k < evictions(undo, bytes, max_entries, max_bytes),
    ensures
        k < undo.len(),
        undo.len() - k >= max_entries || entries_bytes(undo.subrange(k, undo.len() as int)) + bytes
            > max_bytes,
    decreases undo.len(),
{
    if k == 0 {
        assert(undo.subrange(0, undo.len() as int) =~= undo);
    } else {
        lemma_fewest(undo.drop_first(), bytes, max_entries, max_bytes, k - 1);
        assert(undo.drop_first().subrange(k - 1, undo.len() - 1) =~= undo.subrange(
            k,
            undo.len() as int,
        ));
    }
}

/// Recording an edit puts it on top under the next number, drops what could be redone, and lets go
/// of the oldest edits, as few as the limits allow. What goes is handed back: what could be redone,
/// and the oldest edits.
pub proof fn law_record_lets_the_oldest_go(
    history: HistoryModel,
    payload: PayloadModel,
    bytes: int,
)
    requires
        history.valid(),
        history.record_error(bytes) is None,
    ensures
        exists|count: int|
            #![trigger fits_without(history, count, bytes)]
            {
                &&& 0 <= count <= history.undo.len()
                &&& fits_without(history, count, bytes)
                &&& forall|fewer: int|
                    0 <= fewer < count ==> !#[trigger] fits_without(history, fewer, bytes)
                &&& history.recorded(payload, bytes).undo.drop_last() == history.undo.subrange(
                    count,
                    history.undo.len() as int,
                )
                &&& history.evicted(bytes) == history.redo + history.undo.subrange(0, count)
            },
        history.recorded(payload, bytes).undo.len() > 0,
        history.recorded(payload, bytes).undo.last().payload == payload,
        history.recorded(payload, bytes).undo.last().id.0 == history.next_id,
        !history.recorded(payload, bytes).undo.last().archived,
        history.recorded(payload, bytes).redo.len() == 0,
        history.recorded(payload, bytes).pending is None,
        history.recorded(payload, bytes).next_id == history.next_id + 1,
        history.recorded(payload, bytes).max_entries == history.max_entries,
        history.recorded(payload, bytes).max_bytes == history.max_bytes,
{
    let max_entries = history.max_entries as int;
    let max_bytes = history.max_bytes as int;
    let count = evictions(history.undo, bytes, max_entries, max_bytes);
    lemma_evictions(history.undo, bytes, max_entries, max_bytes);
    assert(fits_without(history, count, bytes));
    assert forall|fewer: int| 0 <= fewer < count implies !#[trigger] fits_without(
        history,
        fewer,
        bytes,
    ) by {
        lemma_fewest(history.undo, bytes, max_entries, max_bytes, fewer);
    }
    assert(history.recorded(payload, bytes).undo.drop_last() =~= history.undo.subrange(
        count,
        history.undo.len() as int,
    ));
}

/// Undoing takes the newest edit and redoing takes the one that was undone last; neither touches
/// another edit. What is undone can be redone and the other way round, and a step that is called off
/// goes back to where it was.
pub proof fn law_steps_take_the_newest(history: HistoryModel)
    requires
        history.pending is None,
    ensures
        history.undo.len() > 0 ==> {
            let begun = history.begun(GpuHistoryDirection::Undo);
            &&& begun.pending == Some((history.undo.last(), GpuHistoryDirection::Undo))
            &&& begun.undo == history.undo.drop_last()
            &&& begun.redo == history.redo
            &&& begun.finished().redo == history.redo.push(history.undo.last())
            &&& begun.finished().undo == history.undo.drop_last()
            &&& begun.finished().pending is None
            &&& begun.cancelled() == history
        },
        history.redo.len() > 0 ==> {
            let begun = history.begun(GpuHistoryDirection::Redo);
            &&& begun.pending == Some((history.redo.last(), GpuHistoryDirection::Redo))
            &&& begun.redo == history.redo.drop_last()
            &&& begun.undo == history.undo
            &&& begun.finished().undo == history.undo.push(history.redo.last())
            &&& begun.finished().redo == history.redo.drop_last()
            &&& begun.finished().pending is None
            &&& begun.cancelled() == history
        },
        history.undo.len() == 0 ==> history.begun(GpuHistoryDirection::Undo) == history,
        history.redo.len() == 0 ==> history.begun(GpuHistoryDirection::Redo) == history,
{
    if history.undo.len() > 0 {
        assert(history.undo.drop_last().push(history.undo.last()) =~= history.undo);
    }
    if history.redo.len() > 0 {
        assert(history.redo.drop_last().push(history.redo.last()) =~= history.redo);
    }
}

/// The edit that was recorded last is undone next.
pub proof fn law_recorded_edit_is_undone_next(
    history: HistoryModel,
    payload: PayloadModel,
    bytes: int,
)
    requires
        history.valid(),
        history.record_error(bytes) is None,
    ensures
        ({
            let begun = history.recorded(payload, bytes).begun(GpuHistoryDirection::Undo);
            &&& begun.pending matches Some((entry, direction))
            &&& entry.payload == payload
            &&& entry.id == GpuHistoryId(history.next_id)
            &&& direction == GpuHistoryDirection::Undo
            &&& begun.undo == history.recorded(payload, bytes).undo.drop_last()
        }),
{
}

/// The preview of a record names the edits of pixels that will go, and no others.
pub proof fn law_preview_names_the_pixel_edits_that_go(
    history: HistoryModel,
    payload: PayloadModel,
    bytes: int,
    id: GpuHistoryId,
)
    requires
        history.valid(),
        history.record_error(bytes) is None,
    ensures
        history.preview(bytes).id == history.recorded(payload, bytes).undo.last().id,
        history.preview(bytes).evicted.contains(id) <==> exists|i: int|
            #![trigger history.evicted(bytes)[i]]
            {
                &&& 0 <= i < history.evicted(bytes).len()
                &&& history.evicted(bytes)[i].payload is Raster
                &&& history.evicted(bytes)[i].id == id
            },
{
    lemma_ids(history.evicted(bytes), id);
}

proof fn lemma_ids(entries: Seq<EntryModel>, id: GpuHistoryId)
    ensures
        raster_ids(entries).contains(id) <==> exists|i: int|
            #![trigger entries[i]]
            0 <= i < entries.len() && entries[i].payload is Raster && entries[i].id == id,
    decreases entries.len(),
{
    if entries.len() > 0 {
        let rest = entries.drop_last();
        let last = entries.last();
        lemma_ids(rest, id);
        if raster_ids(entries).contains(id) {
            let at = choose|at: int|
                0 <= at < raster_ids(entries).len() && raster_ids(entries)[at] == id;
            if at < raster_ids(rest).len() {
                assert(raster_ids(rest)[at] == id);
                let i = choose|i: int|
                    #![trigger rest[i]]
                    0 <= i < rest.len() && rest[i].payload is Raster && rest[i].id == id;
                assert(entries[i] == rest[i]);
            } else {
                assert(entries[entries.len() - 1] == last);
            }
        }
        if exists|i: int|
            #![trigger entries[i]]
            0 <= i < entries.len() && entries[i].payload is Raster && entries[i].id == id {
            let i = choose|i: int|
                #![trigger entries[i]]
                0 <= i < entries.len() && entries[i].payload is Raster && entries[i].id == id;
            if i < rest.len() {
                assert(rest[i] == entries[i]);
                let at = choose|at: int|
                    0 <= at < raster_ids(rest).len() && raster_ids(rest)[at] == id;
                assert(raster_ids(entries)[at] == id);
            } else {
                assert(raster_ids(entries)[raster_ids(rest).len() as int] == id);
            }
        }
    } else {
        assert(raster_ids(entries).len() == 0);
    }
}

/// A tile lies at the place that the memento gives.
pub open spec fn lies_in_place(
    geometry: AtlasGeometry,
    places: Seq<Option<LayerTileKey>>,
    memento: MementoModel,
    i: int,
) -> bool {
    slot_of_key(places, memento.plan.regions[i].key) matches Some(index) && geometry.slot(index)
        == memento.plan.regions[i].slot
}

/// A memento is taken into the history only while every tile lies where the memento says; otherwise
/// the first tile that does not is named.
pub proof fn law_memento_is_taken_in_place(
    history: HistoryModel,
    geometry: AtlasGeometry,
    places: Seq<Option<LayerTileKey>>,
    memento: MementoModel,
)
    ensures
        memento_error(history, geometry, places, memento) is None <==> {
            &&& history.record_error(memento.plan.byte_len) is None
            &&& forall|i: int|
                0 <= i < memento.plan.regions.len() ==> #[trigger] lies_in_place(
                    geometry,
                    places,
                    memento,
                    i,
                )
        },
        memento_error(history, geometry, places, memento) matches Some(
            GpuHistoryRecordError::NotResident(key),
        ) ==> exists|i: int|
            #![trigger memento.plan.regions[i]]
            0 <= i < memento.plan.regions.len() && memento.plan.regions[i].key == key
                && !lies_in_place(geometry, places, memento, i) && forall|j: int|
                0 <= j < i ==> #[trigger] lies_in_place(geometry, places, memento, j),
{
    lemma_in_place(geometry, places, memento, memento.plan.regions.len() as int);
}

proof fn lemma_in_place(
    geometry: AtlasGeometry,
    places: Seq<Option<LayerTileKey>>,
    memento: MementoModel,
    n: int,
)
    requires
        n <= memento.plan.regions.len(),
    ensures
        match misplaced(geometry, places, memento, n) {
            None => forall|i: int|
                0 <= i < n ==> #[trigger] lies_in_place(geometry, places, memento, i),
            Some(key) => exists|i: int|
                #![trigger memento.plan.regions[i]]
                0 <= i < n && memento.plan.regions[i].key == key && !lies_in_place(
                    geometry,
                    places,
                    memento,
                    i,
                ) && forall|j: int|
                    0 <= j < i ==> #[trigger] lies_in_place(geometry, places, memento, j),
        },
    decreases n,
{
    if n > 0 {
        lemma_in_place(geometry, places, memento, n - 1);
    }
}

} // verus!
