//! What is kept to undo and redo edits of pixels exactly, and which work on revisions is due.

use crate::document::DocumentRevision;
use crate::gpu_document_history::{GpuHistoryDirection, GpuHistoryId};
use crate::gpu_history_recovery::{
    eviction_error, find_id, find_revision, keys_without, lemma_find_id, lemma_find_revision,
    lemma_rank, lemma_updated_sums, lemma_without_all_valid, rank_of, spill_bytes, SpillModel,
    SpillsModel,
};
use crate::gpu_raster_transition::TransitionModel;
use crate::gpu_revision_tasks::{QueueModel, TaskModel};
use vstd::prelude::*;

verus! {

/// Whether an edit is known by its number.
pub open spec fn tracks_id(spills: SpillsModel, id: GpuHistoryId) -> bool {
    exists|i: int| 0 <= i < spills.entries.len() && (#[trigger] spills.entries[i]).id == id
}

/// Whether an edit is known by the revision that it made.
pub open spec fn tracks_revision(spills: SpillsModel, revision: DocumentRevision) -> bool {
    exists|i: int|
        0 <= i < spills.entries.len() && (#[trigger] spills.entries[i]).revision == revision
}

pub(crate) proof fn lemma_tracked(spills: SpillsModel, id: GpuHistoryId, revision: DocumentRevision)
    ensures
        find_id(spills.keys(), id) is Some == tracks_id(spills, id),
        find_id(spills.keys(), id) matches Some(i) ==> 0 <= i < spills.entries.len()
            && spills.entries[i].id == id,
        find_revision(spills.keys(), revision) is Some == tracks_revision(spills, revision),
        find_revision(spills.keys(), revision) matches Some(i) ==> 0 <= i < spills.entries.len()
            && spills.entries[i].revision == revision,
{
    let keys = spills.keys();
    lemma_find_id(keys, id);
    lemma_find_revision(keys, revision);
    if find_id(keys, id) is None {
        assert forall|i: int| 0 <= i < spills.entries.len() implies (#[trigger] spills.entries[i]).id
            != id by {
            assert(keys[i].id == spills.entries[i].id);
        }
    } else {
        let i = find_id(keys, id)->0;
        assert(spills.entries[i].id == id);
    }
    if find_revision(keys, revision) is None {
        assert forall|i: int| 0 <= i < spills.entries.len() implies (
        #[trigger] spills.entries[i]).revision != revision by {
            assert(keys[i].revision == spills.entries[i].revision);
        }
    } else {
        let i = find_revision(keys, revision)->0;
        assert(spills.entries[i].revision == revision);
    }
}

/// An edit is registered just where its revision follows the one before, neither its number nor its
/// revision is known, and there is room; it then waits for its pixels, and every other edit stays.
pub proof fn law_registering_adds_one_edit(
    spills: SpillsModel,
    id: GpuHistoryId,
    source_revision: DocumentRevision,
    revision: DocumentRevision,
    entry: SpillModel,
)
    requires
        spills.valid(),
    ensures
        spills.register_error(id, source_revision, revision) is None <==> {
            &&& source_revision.0 + 1 == revision.0
            &&& !tracks_id(spills, id)
            &&& !tracks_revision(spills, revision)
            &&& spills.entries.len() < spills.max_entries
        },
        spills.registered(id, source_revision, revision).entries.len() == spills.entries.len() + 1,
        spills.registered(id, source_revision, revision).entries.contains(entry) <==> (
        spills.entries.contains(entry) || entry == (SpillModel {
            id,
            source_revision,
            revision,
            transition: None,
        })),
        spills.registered(id, source_revision, revision).max_entries == spills.max_entries,
        spills.registered(id, source_revision, revision).max_bytes == spills.max_bytes,
{
    lemma_tracked(spills, id, revision);
    lemma_rank(spills.keys(), id);
    assert(spills.keys().len() == spills.entries.len());
    let at = rank_of(spills.keys(), id);
    let new = SpillModel { id, source_revision, revision, transition: None };
    let after = spills.entries.insert(at, new);
    lemma_inserted(spills.entries, at, new, entry);
}

proof fn lemma_inserted(entries: Seq<SpillModel>, at: int, new: SpillModel, entry: SpillModel)
    requires
        0 <= at <= entries.len(),
    ensures
        entries.insert(at, new).contains(entry) <==> entries.contains(entry) || entry == new,
{
    let after = entries.insert(at, new);
    if after.contains(entry) {
        let i = choose|i: int| 0 <= i < after.len() && after[i] == entry;
        if i < at {
            assert(entries[i] == entry);
        } else if i > at {
            assert(entries[i - 1] == entry);
        }
    }
    if entries.contains(entry) {
        let i = choose|i: int| 0 <= i < entries.len() && entries[i] == entry;
        if i < at {
            assert(after[i] == entry);
        } else {
            assert(after[i + 1] == entry);
        }
    }
    if entry == new {
        assert(after[at] == entry);
    }
}

/// Pixels are attached to the edit that made their revision, if it waits for them, starts from the
/// same revision, and they fit; nothing else changes, and the answer names the edit and the bytes.
/// From then on undoing the edit gives the pixels from before it, and redoing those from after it.
pub proof fn law_attaching_fills_the_edit_of_the_revision(
    spills: SpillsModel,
    transition: TransitionModel,
    i: int,
)
    requires
        spills.valid(),
        0 <= i < spills.entries.len(),
        spills.entries[i].revision == transition.revision,
        0 <= transition.byte_len(),
    ensures
        spills.attach_error(transition) is None <==> {
            &&& spills.entries[i].transition is None
            &&& spills.entries[i].source_revision == transition.source_revision
            &&& transition.byte_len() <= spills.max_bytes
            &&& spill_bytes(spills.entries) + transition.byte_len() <= spills.max_bytes
            &&& spill_bytes(spills.entries) + transition.byte_len() <= u64::MAX
        },
        spills.attach_error(transition) is None ==> {
            let after = spills.attached(transition);
            &&& after.entries.len() == spills.entries.len()
            &&& after.entries[i].transition == Some(transition)
            &&& after.entries[i].id == spills.entries[i].id
            &&& after.entries[i].source_revision == spills.entries[i].source_revision
            &&& after.entries[i].revision == spills.entries[i].revision
            &&& forall|j: int|
                0 <= j < spills.entries.len() && j != i ==> #[trigger] after.entries[j]
                    == spills.entries[j]
            &&& spill_bytes(after.entries) == spill_bytes(spills.entries) + transition.byte_len()
            &&& spills.attachment(transition).id == spills.entries[i].id
            &&& spills.attachment(transition).revision == transition.revision
            &&& spills.attachment(transition).byte_len == transition.byte_len()
            &&& after.command_for(spills.entries[i].id, GpuHistoryDirection::Undo) matches Ok(
                command,
            )
            &&& command == transition.before
            &&& after.command_for(spills.entries[i].id, GpuHistoryDirection::Redo) matches Ok(
                command,
            )
            &&& command == transition.after
        },
{
    let keys = spills.keys();
    lemma_tracked(spills, spills.entries[i].id, transition.revision);
    let at = find_revision(keys, transition.revision)->0;
    assert(keys[at].revision == keys[i].revision);
    assert(at == i);
    if spills.attach_error(transition) is None {
        let after = spills.attached(transition);
        lemma_updated_sums(
            spills.entries,
            i,
            SpillModel { transition: Some(transition), ..spills.entries[i] },
        );
        assert(after.keys() =~= keys);
        lemma_tracked(after, spills.entries[i].id, transition.revision);
        let found = find_id(keys, spills.entries[i].id)->0;
        assert(keys[found].id == keys[i].id);
        assert(found == i);
        crate::gpu_history_recovery::law_undo_and_redo_select_opposite_sides(
            spills,
            spills.entries[i].id,
            transition,
        );
    }
}

/// Pixels of a revision that no known edit made are refused.
pub proof fn law_unknown_revisions_are_refused(spills: SpillsModel, transition: TransitionModel)
    requires
        !tracks_revision(spills, transition.revision),
    ensures
        spills.attach_error(transition) is Some,
{
    lemma_tracked(spills, GpuHistoryId(0), transition.revision);
}

/// An edit that is dropped is gone; every other stays.
pub proof fn law_dropped_edit_is_gone(spills: SpillsModel, id: GpuHistoryId, entry: SpillModel)
    requires
        spills.valid(),
    ensures
        spills.without(id).entries.contains(entry) <==> spills.entries.contains(entry) && entry.id
            != id,
        spills.without(id).max_entries == spills.max_entries,
        spills.without(id).max_bytes == spills.max_bytes,
{
    let keys = spills.keys();
    lemma_tracked(spills, id, DocumentRevision(0));
    match find_id(keys, id) {
        Some(at) => {
            let after = spills.entries.remove(at);
            if after.contains(entry) {
                let i = choose|i: int| 0 <= i < after.len() && after[i] == entry;
                let j = if i < at {
                    i
                } else {
                    i + 1
                };
                assert(spills.entries[j] == entry);
                assert(keys[j].id == entry.id && keys[at].id == id);
            }
            if spills.entries.contains(entry) && entry.id != id {
                let i = choose|i: int|
                    0 <= i < spills.entries.len() && spills.entries[i] == entry;
                if i < at {
                    assert(after[i] == entry);
                } else {
                    assert(after[i - 1] == entry);
                }
            }
        },
        None => {
            if spills.entries.contains(entry) {
                let i = choose|i: int|
                    0 <= i < spills.entries.len() && spills.entries[i] == entry;
                assert(spills.entries[i].id != id);
            }
        },
    }
}

pub(crate) proof fn lemma_dropped(spills: SpillsModel, ids: Seq<GpuHistoryId>, entry: SpillModel)
    requires
        spills.valid(),
    ensures
        spills.without_all(ids).entries.contains(entry) <==> spills.entries.contains(entry)
            && !ids.contains(entry.id),
    decreases ids.len(),
{
    if ids.len() > 0 {
        let rest = ids.drop_last();
        lemma_dropped(spills, rest, entry);
        lemma_without_all_valid(spills, rest);
        law_dropped_edit_is_gone(spills.without_all(rest), ids.last(), entry);
        assert(ids.contains(entry.id) <==> rest.contains(entry.id) || ids.last() == entry.id) by {
            if ids.contains(entry.id) {
                let k = choose|k: int| 0 <= k < ids.len() && ids[k] == entry.id;
                if k < rest.len() {
                    assert(rest[k] == entry.id);
                }
            }
            if rest.contains(entry.id) {
                let k = choose|k: int| 0 <= k < rest.len() && rest[k] == entry.id;
                assert(ids[k] == entry.id);
            }
            if ids.last() == entry.id {
                assert(ids[ids.len() - 1] == entry.id);
            }
        }
    }
}

/// A replacement drops the edits that are named and takes in the new one; every other edit stays.
pub proof fn law_replacing_drops_the_named_edits(
    spills: SpillsModel,
    ids: Seq<GpuHistoryId>,
    id: GpuHistoryId,
    source_revision: DocumentRevision,
    revision: DocumentRevision,
    entry: SpillModel,
)
    requires
        spills.valid(),
        spills.replace_error(ids, id, source_revision, revision) is None,
    ensures
        spills.replaced(ids, id, source_revision, revision).entries.contains(entry) <==> (
        spills.entries.contains(entry) && !ids.contains(entry.id)) || entry == (SpillModel {
            id,
            source_revision,
            revision,
            transition: None,
        }),
        forall|k: int| 0 <= k < ids.len() ==> tracks_id(spills, #[trigger] ids[k]),
        forall|k: int, l: int|
            #![trigger ids[k], ids[l]]
            0 <= k < l < ids.len() ==> ids[k] != ids[l],
        spills.evicted(ids).len() == ids.len(),
        forall|k: int|
            #![trigger ids[k]]
            0 <= k < ids.len() ==> spills.evicted(ids)[k].id == ids[k] && spills.entries.contains(
                spills.evicted(ids)[k],
            ),
{
    lemma_dropped(spills, ids, entry);
    lemma_without_all_valid(spills, ids);
    law_registering_adds_one_edit(spills.without_all(ids), id, source_revision, revision, entry);
    lemma_evicted(spills, ids);
}

proof fn lemma_evicted(spills: SpillsModel, ids: Seq<GpuHistoryId>)
    requires
        spills.valid(),
        eviction_error(spills.keys(), ids) is None,
    ensures
        forall|k: int| 0 <= k < ids.len() ==> tracks_id(spills, #[trigger] ids[k]),
        forall|k: int, l: int|
            #![trigger ids[k], ids[l]]
            0 <= k < l < ids.len() ==> ids[k] != ids[l],
        spills.evicted(ids).len() == ids.len(),
        forall|k: int|
            #![trigger ids[k]]
            0 <= k < ids.len() ==> spills.evicted(ids)[k].id == ids[k] && spills.entries.contains(
                spills.evicted(ids)[k],
            ),
    decreases ids.len(),
{
    if ids.len() > 0 {
        let rest = ids.drop_last();
        let last = ids.last();
        lemma_evicted(spills, rest);
        lemma_without_all_valid(spills, rest);
        let middle = spills.without_all(rest);
        assert(middle.keys() == keys_without(spills.keys(), rest));
        lemma_tracked(middle, last, DocumentRevision(0));
        let at = find_id(middle.keys(), last)->0;
        let gone = middle.entries[at];
        assert(middle.entries.contains(gone));
        lemma_dropped(spills, rest, gone);
        assert(!rest.contains(last));
        let origin = choose|i: int| 0 <= i < spills.entries.len() && spills.entries[i] == gone;
        assert(spills.entries[origin].id == last);
        assert forall|k: int, l: int|
            #![trigger ids[k], ids[l]]
            0 <= k < l < ids.len() implies ids[k] != ids[l] by {
            assert(rest[k] == ids[k]);
            if l < rest.len() {
                assert(rest[l] == ids[l]);
            }
        }
        assert forall|k: int| 0 <= k < ids.len() implies tracks_id(spills, #[trigger] ids[k]) by {
            if k < rest.len() {
                assert(rest[k] == ids[k]);
            }
        }
        assert forall|k: int|
            #![trigger ids[k]]
            0 <= k < ids.len() implies spills.evicted(ids)[k].id == ids[k]
            && spills.entries.contains(spills.evicted(ids)[k]) by {
            if k < rest.len() {
                assert(rest[k] == ids[k]);
                assert(spills.evicted(ids)[k] == spills.evicted(rest)[k]);
            } else {
                assert(spills.evicted(ids)[k] == gone);
            }
        }
    }
}

/// A request is covered just where some work that is under way or waits reaches its revision.
pub proof fn law_outstanding_work_covers_earlier_revisions<T>(
    queue: QueueModel<T>,
    revision: DocumentRevision,
)
    requires
        queue.valid(),
    ensures
        queue.covers(revision) <==> (queue.active is Some && revision.0 <= (queue.active->0).1.0)
            || (queue.pending is Some && revision.0 <= (queue.pending->0).revision.0),
{
}

/// Work completes just where it is the work under way, by number and revision, and is not ahead of
/// the document. What waited is under way next.
pub proof fn law_only_the_work_under_way_completes<T>(
    queue: QueueModel<T>,
    task: TaskModel<T>,
    interactive: DocumentRevision,
)
    ensures
        queue.completion_error(task, interactive) is None <==> queue.active == Some(
            (task.id, task.revision),
        ) && task.revision.0 <= interactive.0,
        queue.completed().pending is None,
        queue.completed().active == (match queue.pending {
            Some(waiting) => Some((waiting.id, waiting.revision)),
            None => None,
        }),
        queue.completed().next_id == queue.next_id,
{
}

} // verus!
