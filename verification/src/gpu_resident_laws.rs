//! How commits, edits and steps through the history move the parts of a document together, and what is
//! given up on the way.

use crate::device::DeviceLimits;
use crate::document::LayerId;
use crate::document_metadata::{
    edit_prepared, law_taking_an_edit_back_restores_the_layers, EditModel, LayerModel,
    MetadataModel,
};
use crate::gpu_cpu_mirror::MirrorModel;
use crate::gpu_document_history::{
    EntryModel, GpuHistoryDirection, GpuHistoryId, HistoryModel, PayloadModel,
};
use crate::gpu_document_recovery::{document_of, total_stats, RecoverySnapshotModel};
use crate::gpu_document_target::TargetModel;
use crate::gpu_document_mirror::region_holds_pixels;
use crate::gpu_document_undo::{swapped_states, MementoModel};
use crate::gpu_history_archive::{
    chosen, still_owned, with_failed, ArchiveCandidate, ArchiveModel, ArchiveStep, CandidateState,
    RoomStep,
};
use crate::gpu_history_laws::law_record_lets_the_oldest_go;
use crate::gpu_history_recovery::{find_id, SpillModel};
use crate::gpu_history_residency::{all_but_nearest, ids_with_pixels};
use crate::gpu_live_recovery::{swap_byte_len, GpuMirrorRecoveryPurpose, LiveModel};
use crate::gpu_readback_laws::{law_readback_reads_every_pixel_where_it_lies, plan_reads};
use crate::gpu_recovery_journal::RecordModel;
use crate::gpu_recovery_replay::{
    command_byte_len, GpuRasterRecoveryCommand, GpuRecoveredRaster,
};
use crate::gpu_replay_laws::{
    law_journal_retires_up_to_the_revision, law_journal_takes_the_next_revision,
    law_recorded_edit_waits_for_its_pixels, law_step_is_journaled,
};
use crate::gpu_resident_commit::{
    commit_recorded, commit_reported, submit_error, PreparedCommitModel,
};
use crate::gpu_resident_document::ResidentModel;
use crate::gpu_resident_history::{
    step_plan, step_prepared, step_reported, step_submit_error, stepped,
    GpuResidentHistorySwapPrepareFailure, PreparedGpuResidentHistorySwap, PreparedHistorySwapModel,
};
use crate::gpu_resident_metadata::{
    candidate_layers, edit_made, reclaimed, swapped_metadata, CommitReport,
};
use crate::gpu_spill_laws::{lemma_dropped, lemma_tracked, tracks_revision};
use crate::gpu_structural_recovery::PreparedStructuralModel;
use vstd::prelude::*;

verus! {

/// Whether a layer can still be shown: it is in the document, or an edit of the history brings it back.
pub open spec fn can_be_shown(model: ResidentModel, layer: LayerId) -> bool {
    ||| exists|i: int|
        0 <= i < model.metadata.layers.len() && (#[trigger] model.metadata.layers[i]).id == layer
    ||| model.history.references(layer)
}

/// Layers are given up just where they can no longer be shown: their tiles leave the atlas. Every
/// other place stays, and so do the document, its history and its recovery.
pub proof fn law_only_unreachable_layers_are_given_up(
    model: ResidentModel,
    layers: Seq<LayerId>,
    p: int,
)
    requires
        0 <= p < model.places.len(),
    ensures
        ({
            let after = reclaimed(model, layers).0;
            &&& after.places.len() == model.places.len()
            &&& after.places[p] == (match model.places[p] {
                Some(key) => if layers.contains(key.layer) && !can_be_shown(model, key.layer) {
                    None
                } else {
                    Some(key)
                },
                None => None,
            })
            &&& after.metadata == model.metadata
            &&& after.history == model.history
            &&& after.recovery == model.recovery
            &&& after.purposes == model.purposes
            &&& after.handoff == model.handoff
            &&& after.stroke == model.stroke
            &&& after.layout == model.layout
            &&& after.archive == model.archive
            &&& after.mirror.newest() == model.mirror.newest()
            &&& after.mirror.queue == model.mirror.queue
            &&& after.mirror.resident == model.mirror.resident
        }),
    decreases layers.len(),
{
    if layers.len() > 0 {
        let rest = layers.drop_last();
        law_only_unreachable_layers_are_given_up(model, rest, p);
        let middle = reclaimed(model, rest).0;
        match model.places[p] {
            Some(key) => {
                assert(layers.contains(key.layer) <==> rest.contains(key.layer) || layers.last()
                    == key.layer) by {
                    if layers.contains(key.layer) {
                        let i = choose|i: int| 0 <= i < layers.len() && layers[i] == key.layer;
                        if i < rest.len() {
                            assert(rest[i] == key.layer);
                        }
                    }
                    if rest.contains(key.layer) {
                        let i = choose|i: int| 0 <= i < rest.len() && rest[i] == key.layer;
                        assert(layers[i] == key.layer);
                    }
                    if layers.last() == key.layer {
                        assert(layers[layers.len() - 1] == key.layer);
                    }
                }
            },
            None => {},
        }
    }
}

/// A commit moves every part of the document to the next revision: the edit is the newest of the
/// history, its command is journaled and it waits for its pixels, the mirror is asked for them, and
/// the layers stay as they are.
pub proof fn law_commit_moves_every_part_on(
    model: ResidentModel,
    target: TargetModel,
    prepared: PreparedCommitModel,
    report: CommitReport,
    after: ResidentModel,
    p: int,
)
    requires
        submit_error(model, target, prepared) is None,
        commit_reported(model, prepared, report, after),
        prepared.revision == prepared.recovery.revision,
        prepared.plan.revision == prepared.revision,
        model.recovery.revision() == model.metadata.revision,
        model.recovery.timeline.valid(),
        model.recovery.spills.valid(),
        model.history.valid(),
        model.mirror.queue.len() == model.mirror.reconciler.pending.len(),
        0 <= p < model.places.len(),
    ensures
        after.metadata.revision.0 == model.metadata.revision.0 + 1,
        after.metadata.layers == model.metadata.layers,
        after.metadata.active == model.metadata.active,
        after.metadata.geometry == model.metadata.geometry,
        after.recovery.revision() == after.metadata.revision,
        after.mirror.newest() == after.metadata.revision,
        after.history.undo.len() > 0,
        after.history.undo.last().payload == PayloadModel::Raster(prepared.encoded.memento),
        after.history.undo.last().id.0 == model.history.next_id,
        after.history.redo.len() == 0,
        after.recovery.timeline.journal.records.last().command == prepared.recovery.command,
        after.recovery.timeline.base == model.recovery.timeline.base,
        after.recovery.spills.entries.contains(
            (SpillModel {
                id: prepared.recovery.id,
                source_revision: model.metadata.revision,
                revision: after.metadata.revision,
                transition: None,
            }),
        ),
        after.mirror.queue.len() == model.mirror.queue.len() + 1,
        after.mirror.queue.last().plan == prepared.plan,
        after.purposes.last() == GpuMirrorRecoveryPurpose::History(
            GpuHistoryId(model.history.next_id),
        ),
        after.purposes.drop_last() == model.purposes,
        report.revision == after.metadata.revision,
        report.history_id.0 == model.history.next_id,
        after.places[p] != model.places[p] ==> after.places[p] is None,
{
    let memento = prepared.encoded.memento;
    let recorded = commit_recorded(model, prepared);
    let evicted = model.history.evicted(memento.plan.byte_len);
    let layers = choose|layers: Seq<LayerId>| #[trigger]
        candidate_layers(evicted, layers) && reclaimed(recorded, layers) == (
            after,
            report.reclamation,
        );
    law_recorded_edit_waits_for_its_pixels(model.recovery, prepared.recovery);
    law_record_lets_the_oldest_go(
        model.history,
        PayloadModel::Raster(memento),
        memento.plan.byte_len,
    );
    law_only_unreachable_layers_are_given_up(recorded, layers, p);
    assert(recorded.mirror.queue.last().plan == prepared.plan);
    assert(recorded.purposes.drop_last() =~= model.purposes);
    assert(recorded.mirror.newest() == prepared.plan.revision);
}

/// An edit of the layers moves every part of the document to the next revision: the layers are those
/// after the edit, the edit is the newest of the history, and nothing waits for pixels.
pub proof fn law_edit_moves_every_part_on(
    before: ResidentModel,
    edit: EditModel,
    report: CommitReport,
    after: ResidentModel,
    p: int,
)
    requires
        edit_made(before, edit, report, after),
        before.recovery.revision() == before.metadata.revision,
        before.recovery.timeline.valid(),
        before.metadata.valid(),
        before.history.valid(),
        edit_prepared(before.metadata, edit),
        before.mirror.queue.len() == before.mirror.reconciler.pending.len(),
        0 <= p < before.places.len(),
    ensures
        after.metadata.revision.0 == before.metadata.revision.0 + 1,
        after.recovery.revision() == after.metadata.revision,
        after.mirror.newest() == after.metadata.revision,
        after.history.undo.len() > 0,
        after.history.undo.last().payload == PayloadModel::Metadata(edit),
        after.history.undo.last().id.0 == before.history.next_id,
        after.history.redo.len() == 0,
        after.purposes == before.purposes,
        report.revision == after.metadata.revision,
        after.places[p] != before.places[p] ==> after.places[p] is None,
        swapped_metadata(after, edit, GpuHistoryDirection::Undo) matches Ok(undone)
            && undone.layers == before.metadata.layers && undone.active == before.metadata.active,
{
    let recorded = before.edit_recorded(
        edit,
        GpuRasterRecoveryCommand::MetadataOnly,
        crate::gpu_mirror_structure::StructureModel::Unchanged,
    );
    let evicted = before.history.evicted(0);
    let layers = choose|layers: Seq<LayerId>| #[trigger]
        candidate_layers(evicted, layers) && reclaimed(recorded, layers) == (
            after,
            report.reclamation,
        );
    law_record_lets_the_oldest_go(before.history, PayloadModel::Metadata(edit), 0);
    law_only_unreachable_layers_are_given_up(recorded, layers, p);
    let made = before.next_revision()->0;
    law_taking_an_edit_back_restores_the_layers(
        before.metadata,
        edit,
        made,
        after.next_revision()->0,
    );
    lemma_structural(before, recorded);
    assert(recorded.metadata.revision == made) by {
        lemma_edited_revision(before.metadata, edit, made);
    }
}

proof fn lemma_edited_revision(
    metadata: MetadataModel,
    edit: EditModel,
    revision: crate::document::DocumentRevision,
)
    requires
        crate::document_metadata::edit_applied(
            metadata,
            edit,
            crate::document_metadata::DocumentMetadataEditDirection::Forward,
            revision,
        ) is Ok,
    ensures
        crate::document_metadata::edit_applied(
            metadata,
            edit,
            crate::document_metadata::DocumentMetadataEditDirection::Forward,
            revision,
        )->Ok_0.revision == revision,
{
}

proof fn lemma_structural(before: ResidentModel, recorded: ResidentModel)
    requires
        before.recovery.revision() == before.metadata.revision,
        before.next_revision() is Some,
        before.mirror.queue.len() == before.mirror.reconciler.pending.len(),
        exists|ids: Seq<GpuHistoryId>, command: GpuRasterRecoveryCommand|
            recorded.recovery == (#[trigger] before.restructured(
                ids,
                command,
                crate::gpu_mirror_structure::StructureModel::Unchanged,
            )).recovery && recorded.mirror == before.restructured(
                ids,
                command,
                crate::gpu_mirror_structure::StructureModel::Unchanged,
            ).mirror,
    ensures
        recorded.recovery.revision() == before.next_revision()->0,
        recorded.mirror.newest() == before.next_revision()->0,
{
    let (ids, command) = choose|ids: Seq<GpuHistoryId>, command: GpuRasterRecoveryCommand|
        recorded.recovery == (#[trigger] before.restructured(
            ids,
            command,
            crate::gpu_mirror_structure::StructureModel::Unchanged,
        )).recovery && recorded.mirror == before.restructured(
            ids,
            command,
            crate::gpu_mirror_structure::StructureModel::Unchanged,
        ).mirror;
    if before.mirror.queue.len() > 0 {
        assert(recorded.mirror.queue.last().after.last().revision == before.next_revision()->0);
    }
}

/// A step through the history moves every part of the document to the next revision: the edit goes
/// from one side of the history to the other, the command of the step is journaled, and the mirror is
/// asked for the pixels, which no edit waits for.
pub proof fn law_step_moves_every_part_on(
    model: ResidentModel,
    target: TargetModel,
    prepared: PreparedHistorySwapModel,
)
    requires
        step_submit_error(model, target, prepared) is None,
        prepared.revision == prepared.recovery.revision,
        prepared.plan.revision == prepared.revision,
        model.recovery.revision() == model.metadata.revision,
        model.recovery.timeline.valid(),
    ensures
        ({
            let after = stepped(model, prepared);
            &&& model.history.pending matches Some((entry, direction))
            &&& entry.id == prepared.history_id
            &&& after.metadata.revision.0 == model.metadata.revision.0 + 1
            &&& after.metadata.layers == model.metadata.layers
            &&& after.metadata.active == model.metadata.active
            &&& after.recovery.revision() == after.metadata.revision
            &&& after.recovery.timeline.journal.records.last().command == prepared.recovery.command
            &&& after.recovery.spills == model.recovery.spills
            &&& after.mirror.newest() == after.metadata.revision
            &&& after.mirror.queue.last().plan == prepared.plan
            &&& after.history.pending is None
            &&& direction is Undo ==> after.history.redo == model.history.redo.push(entry)
                && after.history.undo == model.history.undo
            &&& direction is Redo ==> after.history.undo == model.history.undo.push(entry)
                && after.history.redo == model.history.redo
            &&& after.purposes == model.purposes.push(GpuMirrorRecoveryPurpose::ReconcileOnly)
            &&& after.places == model.places
        }),
{
    law_step_is_journaled(model.recovery, prepared.recovery);
    let after = stepped(model, prepared);
    assert(after.mirror.queue.last().plan == prepared.plan);
}

/// A step that is prepared journals the exact pixels of its side: undoing those from before the edit,
/// redoing those from after it.
pub proof fn law_step_journals_the_pixels_of_its_side(
    model: ResidentModel,
    target: TargetModel,
    entry: EntryModel,
    direction: GpuHistoryDirection,
    prepared: PreparedHistorySwapModel,
    i: int,
)
    requires
        model.recovery.spills.valid(),
        step_prepared(model, target, entry, direction, prepared),
        0 <= i < model.recovery.spills.entries.len(),
        model.recovery.spills.entries[i].id == entry.id,
        model.recovery.spills.entries[i].transition is Some,
    ensures
        prepared.recovery.command matches GpuRasterRecoveryCommand::Exact(exact) && exact@ == (
        match direction {
            GpuHistoryDirection::Undo => (model.recovery.spills.entries[i].transition->0).before,
            GpuHistoryDirection::Redo => (model.recovery.spills.entries[i].transition->0).after,
        }),
        prepared.history_id == entry.id,
        prepared.direction == direction,
        prepared.revision == model.next_revision()->0,
{
    let spills = model.recovery.spills;
    lemma_tracked(spills, entry.id, crate::document::DocumentRevision(0));
    let found = find_id(spills.keys(), entry.id)->0;
    assert(spills.entries[i].id == entry.id);
    assert(spills.keys()[found].id == spills.keys()[i].id);
    assert(found == i) by {
        let keys = spills.keys();
        if found < i {
            assert(keys[found].id.0 < keys[i].id.0);
        }
        if i < found {
            assert(keys[i].id.0 < keys[found].id.0);
        }
    }
}

/// A change of whole layers is journaled, and drops just the pixels of the edits that the history let
/// go.
pub proof fn law_structural_change_is_journaled(
    live: LiveModel,
    prepared: PreparedStructuralModel,
    entry: SpillModel,
)
    requires
        live.timeline.valid(),
        live.spills.valid(),
        live.structural_commit_error(prepared) is None,
    ensures
        ({
            let after = live.with_structural(prepared);
            &&& prepared.source_revision == live.revision()
            &&& prepared.revision.0 == live.revision().0 + 1
            &&& after.revision() == prepared.revision
            &&& after.timeline.base == live.timeline.base
            &&& after.timeline.journal.records.drop_last() == live.timeline.journal.records
            &&& after.timeline.journal.records.last().command == prepared.command
            &&& after.spills.entries.contains(entry) <==> live.spills.entries.contains(entry)
                && !prepared.evicted_ids.contains(entry.id)
        }),
{
    law_journal_takes_the_next_revision(
        live.timeline.journal,
        prepared.revision,
        prepared.byte_len,
        prepared.command,
    );
    lemma_dropped(live.spills, prepared.evicted_ids, entry);
}

/// The base moves on to a newer mirror only where no edit waits for pixels on the way; the records up
/// to it are retired then, the later ones stay. Otherwise nothing changes.
pub proof fn law_base_does_not_pass_waiting_edits(
    live: LiveModel,
    snapshot: MirrorModel,
    record: RecordModel<GpuRasterRecoveryCommand>,
    i: int,
)
    requires
        live.timeline.valid(),
        0 <= i < live.spills.entries.len(),
    ensures
        ({
            let after = live.base_advanced(snapshot);
            &&& after.spills == live.spills
            &&& after.revision() == live.revision()
            &&& after != live ==> {
                &&& after.timeline.base == snapshot
                &&& snapshot.geometry == live.timeline.base.geometry
                &&& live.timeline.base.revision.0 < snapshot.revision.0 <= live.revision().0
                &&& !(live.timeline.base.revision.0 < live.spills.entries[i].revision.0
                    <= snapshot.revision.0)
                &&& after.timeline.journal.records.contains(record)
                    <==> live.timeline.journal.records.contains(record) && record.revision.0
                    > snapshot.revision.0
            }
        }),
{
    let after = live.base_advanced(snapshot);
    law_journal_retires_up_to_the_revision(live.timeline.journal, snapshot.revision, record);
    if after != live {
        let at = live.spills.entries[i].revision;
        lemma_tracked(live.spills, GpuHistoryId(0), at);
        assert(tracks_revision(live.spills, at));
        assert(live.waiting(at) is Some);
        assert(at == crate::document::DocumentRevision(at.0));
    }
}

/// A recovered document has the layers of the snapshot in their order, each with its recovered pixels,
/// and gives new layers numbers that none of them has.
pub proof fn law_recovered_document_has_every_layer(
    snapshot: RecoverySnapshotModel,
    rebuilt: Seq<GpuRecoveredRaster>,
    i: int,
)
    requires
        snapshot.metadata.valid(),
        rebuilt.len() == snapshot.metadata.layers.len(),
        0 <= i < rebuilt.len(),
    ensures
        document_of(snapshot, rebuilt).metadata.layers == snapshot.metadata.layers,
        document_of(snapshot, rebuilt).metadata.active == snapshot.metadata.active,
        document_of(snapshot, rebuilt).metadata.revision == snapshot.metadata.revision,
        document_of(snapshot, rebuilt).metadata.geometry == snapshot.metadata.geometry,
        document_of(snapshot, rebuilt).rasters.len() == rebuilt.len(),
        document_of(snapshot, rebuilt).rasters[i] == rebuilt[i].spec_raster(),
        snapshot.metadata.layers[i].id.0 < document_of(snapshot, rebuilt).metadata.next_layer,
{
    lemma_next_free(snapshot.metadata.layers, snapshot.metadata.next_layer as int);
    assert(snapshot.metadata.layers[i].id.0 < snapshot.metadata.next_layer);
}

proof fn lemma_next_free(layers: Seq<LayerModel>, limit: int)
    requires
        1 <= limit,
        forall|i: int| 0 <= i < layers.len() ==> (#[trigger] layers[i]).id.0 < limit,
    ensures
        crate::document::next_free(layers) <= limit,
        forall|i: int|
            0 <= i < layers.len() ==> (#[trigger] layers[i]).id.0 < crate::document::next_free(
                layers,
            ),
    decreases layers.len(),
{
    if layers.len() > 0 {
        let rest = layers.drop_last();
        assert(forall|i: int| #![trigger layers[i]] 0 <= i < rest.len() ==> rest[i] == layers[i]);
        assert(layers[layers.len() - 1] == layers.last());
        assert forall|i: int| 0 <= i < rest.len() implies (#[trigger] rest[i]).id.0 < limit by {
            assert(layers[i].id.0 < limit);
        }
        lemma_next_free(rest, limit);
        assert forall|i: int| 0 <= i < layers.len() implies (#[trigger] layers[i]).id.0
            < crate::document::next_free(layers) by {
            if i < rest.len() {
                assert(rest[i].id.0 < crate::document::next_free(rest));
            }
        }
    }
}

/// The sum of a count over all recovered layers.
pub open spec fn summed(layers: Seq<GpuRecoveredRaster>, count: spec_fn(GpuRecoveredRaster) -> int) -> int
    decreases layers.len(),
{
    if layers.len() == 0 {
        0
    } else {
        summed(layers.drop_last(), count) + count(layers.last())
    }
}

/// The counts of a recovered document are the sums over its layers, as far as they can be counted.
pub proof fn law_recovery_counts_add_up(layers: Seq<GpuRecoveredRaster>)
    ensures
        ({
            let total = total_stats(layers);
            let visits = summed(
                layers,
                |layer: GpuRecoveredRaster| layer.spec_stats().commands_seen as int,
            );
            let applied = summed(
                layers,
                |layer: GpuRecoveredRaster| layer.spec_stats().commands_applied as int,
            );
            let evaluated = summed(
                layers,
                |layer: GpuRecoveredRaster| layer.spec_stats().pixels_evaluated as int,
            );
            let changed = summed(
                layers,
                |layer: GpuRecoveredRaster| layer.spec_stats().pixels_changed as int,
            );
            let snapshots = summed(
                layers,
                |layer: GpuRecoveredRaster| layer.spec_stats().layer_snapshots_applied as int,
            );
            &&& 0 <= visits && (if visits <= u64::MAX {
                total.command_visits == visits
            } else {
                total.command_visits == u64::MAX
            })
            &&& 0 <= applied && (if applied <= u64::MAX {
                total.commands_applied == applied
            } else {
                total.commands_applied == u64::MAX
            })
            &&& 0 <= evaluated && (if evaluated <= u64::MAX {
                total.pixels_evaluated == evaluated
            } else {
                total.pixels_evaluated == u64::MAX
            })
            &&& 0 <= changed && (if changed <= u64::MAX {
                total.pixels_changed == changed
            } else {
                total.pixels_changed == u64::MAX
            })
            &&& 0 <= snapshots && (if snapshots <= u32::MAX {
                total.layer_snapshots_applied == snapshots
            } else {
                total.layer_snapshots_applied == u32::MAX
            })
            &&& (if layers.len() <= u32::MAX {
                total.layers_recovered == layers.len()
            } else {
                total.layers_recovered == u32::MAX
            })
        }),
    decreases layers.len(),
{
    if layers.len() > 0 {
        law_recovery_counts_add_up(layers.drop_last());
    }
}

/// Giving pixels up marks the edits of that number that have pixels, and changes nothing else.
pub proof fn law_archiving_marks_only_the_named_edit(history: HistoryModel, id: GpuHistoryId, i: int)
    ensures
        history.archived(id).undo.len() == history.undo.len(),
        history.archived(id).redo.len() == history.redo.len(),
        0 <= i < history.undo.len() ==> {
            let was = history.undo[i];
            let is = history.archived(id).undo[i];
            &&& is.id == was.id
            &&& is.payload == was.payload
            &&& is.archived <==> was.archived || (was.id == id && was.payload is Raster)
        },
        0 <= i < history.redo.len() ==> {
            let was = history.redo[i];
            let is = history.archived(id).redo[i];
            &&& is.id == was.id
            &&& is.payload == was.payload
            &&& is.archived <==> was.archived || (was.id == id && was.payload is Raster)
        },
        history.archived(id).pending == history.pending,
        history.archived(id).next_id == history.next_id,
{
}

proof fn lemma_with_pixels(entries: Seq<EntryModel>, id: GpuHistoryId)
    ensures
        ids_with_pixels(entries).contains(id) <==> exists|i: int|
            #![trigger entries[i]]
            0 <= i < entries.len() && entries[i].id == id && entries[i].payload is Raster
                && !entries[i].archived,
    decreases entries.len(),
{
    if entries.len() > 0 {
        let rest = entries.drop_last();
        lemma_with_pixels(rest, id);
        let some = ids_with_pixels(rest);
        let all = ids_with_pixels(entries);
        assert(forall|i: int| #![trigger rest[i]] 0 <= i < rest.len() ==> rest[i] == entries[i]);
        assert(entries[entries.len() - 1] == entries.last());
        if all.contains(id) {
            let at = choose|at: int| 0 <= at < all.len() && all[at] == id;
            if at < some.len() {
                assert(some[at] == id);
                let i = choose|i: int|
                    #![trigger rest[i]]
                    0 <= i < rest.len() && rest[i].id == id && rest[i].payload is Raster
                        && !rest[i].archived;
                assert(entries[i].id == id);
            }
        }
        if exists|i: int|
            #![trigger entries[i]]
            0 <= i < entries.len() && entries[i].id == id && entries[i].payload is Raster
                && !entries[i].archived {
            let i = choose|i: int|
                #![trigger entries[i]]
                0 <= i < entries.len() && entries[i].id == id && entries[i].payload is Raster
                    && !entries[i].archived;
            if i < rest.len() {
                assert(rest[i].id == id);
                let at = choose|at: int| 0 <= at < some.len() && some[at] == id;
                assert(all[at] == id);
            } else {
                assert(all[some.len() as int] == id);
            }
        }
    } else {
        assert(ids_with_pixels(entries).len() == 0);
    }
}

/// Pixels may be given up just where they belong to an edit that is not among the nearest ones to
/// undo, nor among the nearest ones to redo.
pub proof fn law_nearest_edits_keep_their_pixels(
    history: HistoryModel,
    keep: int,
    id: GpuHistoryId,
)
    requires
        0 <= keep,
    ensures
        history.archivable(keep).contains(id) <==> {
            ||| exists|i: int|
                #![trigger history.undo[i]]
                0 <= i < history.undo.len() - keep && history.undo[i].id == id
                    && history.undo[i].payload is Raster && !history.undo[i].archived
            ||| exists|i: int|
                #![trigger history.redo[i]]
                0 <= i < history.redo.len() - keep && history.redo[i].id == id
                    && history.redo[i].payload is Raster && !history.redo[i].archived
        },
{
    let undo = all_but_nearest(history.undo, keep);
    let redo = all_but_nearest(history.redo, keep);
    lemma_with_pixels(undo, id);
    lemma_with_pixels(redo, id);
    let first = ids_with_pixels(undo);
    let second = ids_with_pixels(redo);
    let all = first + second;
    if all.contains(id) {
        let at = choose|at: int| 0 <= at < all.len() && all[at] == id;
        if at < first.len() {
            assert(first[at] == id);
            let i = choose|i: int|
                #![trigger undo[i]]
                0 <= i < undo.len() && undo[i].id == id && undo[i].payload is Raster
                    && !undo[i].archived;
            assert(history.undo[i] == undo[i]);
        } else {
            assert(second[at - first.len()] == id);
            let i = choose|i: int|
                #![trigger redo[i]]
                0 <= i < redo.len() && redo[i].id == id && redo[i].payload is Raster
                    && !redo[i].archived;
            assert(history.redo[i] == redo[i]);
        }
    }
    if exists|i: int|
        #![trigger history.undo[i]]
        0 <= i < history.undo.len() - keep && history.undo[i].id == id
            && history.undo[i].payload is Raster && !history.undo[i].archived {
        let i = choose|i: int|
            #![trigger history.undo[i]]
            0 <= i < history.undo.len() - keep && history.undo[i].id == id
                && history.undo[i].payload is Raster && !history.undo[i].archived;
        assert(undo[i] == history.undo[i]);
        let at = choose|at: int| 0 <= at < first.len() && first[at] == id;
        assert(all[at] == id);
    }
    if exists|i: int|
        #![trigger history.redo[i]]
        0 <= i < history.redo.len() - keep && history.redo[i].id == id
            && history.redo[i].payload is Raster && !history.redo[i].archived {
        let i = choose|i: int|
            #![trigger history.redo[i]]
            0 <= i < history.redo.len() - keep && history.redo[i].id == id
                && history.redo[i].payload is Raster && !history.redo[i].archived;
        assert(redo[i] == history.redo[i]);
        let at = choose|at: int| 0 <= at < second.len() && second[at] == id;
        assert(all[first.len() + at] == id);
    }
}

/// Whether a candidate can be dealt with: its pixels are spilled, and it has not failed.
pub open spec fn can_be_archived(failed: Seq<GpuHistoryId>, candidate: ArchiveCandidate) -> bool {
    !failed.contains(candidate.id) && candidate.state != CandidateState::Unspilled
}

/// The next step deals with the first candidate that can be dealt with: it is settled where it is
/// compressed already, and compressed where not. There is nothing to do just where there is none.
pub proof fn law_next_step_takes_the_first_candidate(
    failed: Seq<GpuHistoryId>,
    candidates: Seq<ArchiveCandidate>,
)
    ensures
        chosen(failed, candidates) == ArchiveStep::Idle <==> forall|i: int|
            0 <= i < candidates.len() ==> !can_be_archived(failed, #[trigger] candidates[i]),
        chosen(failed, candidates) != ArchiveStep::Idle ==> exists|i: int|
            {
                &&& 0 <= i < candidates.len()
                &&& can_be_archived(failed, #[trigger] candidates[i])
                &&& forall|j: int|
                    0 <= j < i ==> !can_be_archived(failed, #[trigger] candidates[j])
                &&& chosen(failed, candidates) == if candidates[i].state
                    == CandidateState::Archived {
                    ArchiveStep::Settle(candidates[i].id)
                } else {
                    ArchiveStep::Compress(candidates[i].id)
                }
            },
    decreases candidates.len(),
{
    if candidates.len() > 0 {
        let rest = candidates.drop_first();
        if can_be_archived(failed, candidates[0]) {
            assert(can_be_archived(failed, candidates[0]));
        } else {
            law_next_step_takes_the_first_candidate(failed, rest);
            assert(forall|i: int|
                #![trigger rest[i]]
                0 <= i < rest.len() ==> rest[i] == candidates[i + 1]);
            if chosen(failed, rest) == ArchiveStep::Idle {
                assert forall|i: int| 0 <= i < candidates.len() implies !can_be_archived(
                    failed,
                    #[trigger] candidates[i],
                ) by {
                    if i > 0 {
                        assert(rest[i - 1] == candidates[i]);
                    }
                }
            } else {
                let i = choose|i: int|
                    {
                        &&& 0 <= i < rest.len()
                        &&& can_be_archived(failed, #[trigger] rest[i])
                        &&& forall|j: int|
                            0 <= j < i ==> !can_be_archived(failed, #[trigger] rest[j])
                        &&& chosen(failed, rest) == if rest[i].state == CandidateState::Archived {
                            ArchiveStep::Settle(rest[i].id)
                        } else {
                            ArchiveStep::Compress(rest[i].id)
                        }
                    };
                assert(candidates[i + 1] == rest[i]);
                assert forall|j: int| 0 <= j < i + 1 implies !can_be_archived(
                    failed,
                    #[trigger] candidates[j],
                ) by {
                    if j > 0 {
                        assert(rest[j - 1] == candidates[j]);
                    }
                }
                assert(can_be_archived(failed, candidates[i + 1]));
            }
        }
    }
}

/// Failed edits are remembered as long as their pixels are kept, and no others.
pub proof fn law_failures_are_kept_while_owned(
    failed: Seq<GpuHistoryId>,
    owned: Seq<GpuHistoryId>,
    id: GpuHistoryId,
)
    ensures
        still_owned(failed, owned).contains(id) <==> failed.contains(id) && owned.contains(id),
        with_failed(failed, id).contains(id),
    decreases failed.len(),
{
    assert(failed.push(id)[failed.len() as int] == id);
    if failed.len() > 0 {
        let rest = failed.drop_last();
        law_failures_are_kept_while_owned(rest, owned, id);
        let some = still_owned(rest, owned);
        let all = still_owned(failed, owned);
        assert(failed.contains(id) <==> rest.contains(id) || failed.last() == id) by {
            if failed.contains(id) {
                let i = choose|i: int| 0 <= i < failed.len() && failed[i] == id;
                if i < rest.len() {
                    assert(rest[i] == id);
                }
            }
            if rest.contains(id) {
                let i = choose|i: int| 0 <= i < rest.len() && rest[i] == id;
                assert(failed[i] == id);
            }
            if failed.last() == id {
                assert(failed[failed.len() - 1] == id);
            }
        }
        if all.contains(id) {
            let i = choose|i: int| 0 <= i < all.len() && all[i] == id;
            if i < some.len() {
                assert(some[i] == id);
            }
        }
        if some.contains(id) {
            let i = choose|i: int| 0 <= i < some.len() && some[i] == id;
            assert(all[i] == id);
        }
        if owned.contains(failed.last()) && failed.last() == id {
            assert(all[some.len() as int] == id);
        }
    } else {
        assert(still_owned(failed, owned).len() == 0);
    }
}

/// Room is made just where compression is on, something can be given up, and what comes does not fit
/// beside what is held: by waiting for a compression under way, or else by beginning one.
pub proof fn law_room_is_made_only_where_needed(
    archive: ArchiveModel,
    resident: u64,
    maximum: u64,
    incoming: u64,
    ended: bool,
)
    ensures
        ({
            let step = archive.room_step(resident, maximum, incoming, ended);
            let short = archive.enabled && resident > 0 && resident + incoming > maximum;
            &&& short && archive.job is Some <==> step == RoomStep::Finish
            &&& short && archive.job is None <==> step == RoomStep::Start
            &&& !short && archive.enabled && archive.job is Some && ended <==> step
                == RoomStep::FinishAndStop
        }),
{
}

/// What is counted for the step of a history is what its command counts for in the journal.
pub proof fn law_steps_count_as_their_commands(
    command: crate::gpu_raster_recovery::GpuExactRasterRecoveryCommand,
)
    ensures
        swap_byte_len(command@) == command_byte_len(GpuRasterRecoveryCommand::Exact(command)),
{
}

/// A command counts for its own bytes and for the place that it takes in the journal, which is the same
/// for each.
pub proof fn law_commands_count_their_bytes(
    exact: crate::gpu_raster_recovery::GpuExactRasterRecoveryCommand,
    round: crate::gpu_round_recovery::GpuRoundRecoveryCommand,
    layer: LayerId,
)
    requires
        exact@.retained_byte_len + vstd::layout::size_of::<
            crate::gpu_recovery_replay::RasterCommandHeader,
        >() <= u64::MAX,
        crate::gpu_round_recovery::round_byte_len(round@.commands) + vstd::layout::size_of::<
            crate::gpu_recovery_replay::RasterCommandHeader,
        >() <= u64::MAX,
        vstd::layout::size_of::<crate::gpu_recovery_replay::RasterCommandHeader>() <= u64::MAX,
    ensures
        ({
            let place = command_byte_len(GpuRasterRecoveryCommand::MetadataOnly);
            &&& place == vstd::layout::size_of::<crate::gpu_recovery_replay::RasterCommandHeader>()
            &&& command_byte_len(GpuRasterRecoveryCommand::AwaitingPixels(layer)) == place
            &&& command_byte_len(GpuRasterRecoveryCommand::Exact(exact)) - place
                == exact@.retained_byte_len - vstd::layout::size_of::<
                crate::gpu_raster_recovery::ExactCommandHeader,
            >()
            &&& command_byte_len(GpuRasterRecoveryCommand::Round(round)) - place
                == crate::gpu_round_recovery::round_byte_len(round@.commands)
                - vstd::layout::size_of::<crate::gpu_round_recovery::RoundCommandHeader>()
        }),
{
}

/// A step reads back every pixel of the tiles that hold pixels after it, from where it lies.
pub proof fn law_step_reads_back_what_it_brings(
    model: ResidentModel,
    memento: MementoModel,
    i: int,
    x: int,
    y: int,
)
    requires
        step_plan(model, memento) is Ok,
        forall|j: int|
            0 <= j < memento.plan.regions.len() ==> region_holds_pixels(
                #[trigger] memento.plan.regions[j],
            ),
        0 <= i < memento.plan.regions.len(),
        memento.states.len() == memento.plan.regions.len(),
        memento.states[i].memento_initialized,
        memento.plan.regions[i].local_bounds@.contains(x, y),
    ensures
        plan_reads(step_plan(model, memento)->Ok_0, memento.plan.regions[i], x, y),
        step_plan(model, memento)->Ok_0.revision == model.next_revision()->0,
{
    let states = swapped_states(memento.states);
    assert(states[i].document_initialized);
    law_readback_reads_every_pixel_where_it_lies(
        model.next_revision()->0,
        memento.plan,
        states,
        model.mirror.max_staging,
        step_plan(model, memento)->Ok_0,
        i,
        x,
        y,
    );
}

/// While a step is under way its memento holds the other side: what the document held before.
pub proof fn law_step_turns_the_memento_over(
    before: ResidentModel,
    target: TargetModel,
    limits: DeviceLimits,
    entry: EntryModel,
    direction: GpuHistoryDirection,
    prepared: PreparedGpuResidentHistorySwap,
    after: ResidentModel,
    target_after: TargetModel,
    i: int,
)
    requires
        step_reported(
            before,
            target,
            limits,
            entry,
            direction,
            Ok::<
                Option<PreparedGpuResidentHistorySwap>,
                Box<GpuResidentHistorySwapPrepareFailure>,
            >(Some(prepared)),
            after,
            target_after,
        ),
        before.history.top(direction) == Some(entry),
        before.history.pending is None,
        entry.payload is Raster,
        0 <= i < entry.payload->Raster_0.states.len(),
    ensures
        after.history.pending matches Some((pending, way)) && {
            &&& pending.id == entry.id
            &&& way == direction
            &&& pending.payload is Raster
            &&& pending.payload->Raster_0.plan == entry.payload->Raster_0.plan
            &&& pending.payload->Raster_0.states[i].key == entry.payload->Raster_0.states[i].key
            &&& pending.payload->Raster_0.states[i].document_initialized
                == entry.payload->Raster_0.states[i].memento_initialized
            &&& pending.payload->Raster_0.states[i].memento_initialized
                == entry.payload->Raster_0.states[i].document_initialized
        },
        after.recovery == before.recovery,
        after.metadata == before.metadata,
        after.mirror == before.mirror,
        after.places == before.places,
{
}

} // verus!
