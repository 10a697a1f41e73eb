use gpu_document::document::{DocumentRevision, LayerId};
use gpu_document::gpu_atlas::{AtlasLayout, LayerTileKey, SparseAtlasPlanner};
use gpu_document::gpu_cpu_mirror::{
    GpuCpuMirror, GpuCpuMirrorSnapshot, GpuMirrorPatchBatch, GpuMirrorPatchRegion,
};
use gpu_document::gpu_document_history::{GpuHistoryDirection, GpuHistoryId};
use gpu_document::gpu_document_mirror::GpuMirrorReadbackPlan;
use gpu_document::gpu_document_undo::{
    GpuMementoResidentState, GpuUndoCapturePlan, GPU_UNDO_BLOCK_BYTES,
};
use gpu_document::gpu_history_recovery::{GpuHistoryRecoveryError, GpuHistoryRecoverySpills};
use gpu_document::gpu_live_recovery::{
    GpuLiveRecovery, GpuLiveRecoveryError, GpuMirrorRecoveryPurpose,
};
use gpu_document::gpu_mirror_reconciler::GpuMirrorReconciler;
use gpu_document::gpu_raster_transition::GpuExactRasterRecoveryTransition;
use gpu_document::gpu_recovery_replay::GpuRasterRecoveryCommand;
use gpu_document::gpu_recovery_timeline::GpuRecoveryTimeline;
use gpu_document::gpu_round_target::ActiveRoundMaskTile;
use gpu_document::raster::{LinearRgba, RectU32, TileCoord};

fn premultiplied(r: f32, g: f32, b: f32, a: f32) -> LinearRgba {
    LinearRgba::from_bits(r.to_bits(), g.to_bits(), b.to_bits(), a.to_bits())
}

fn one_block_plan(
    layer: LayerId,
    revision: DocumentRevision,
) -> (GpuMirrorReadbackPlan, LayerTileKey) {
    let layout = AtlasLayout::new(32, 32, 1).unwrap();
    let key = LayerTileKey::new(layer, TileCoord::new(0, 0));
    let mut atlas = SparseAtlasPlanner::new(layout);
    let slot = atlas.allocate(key).unwrap().slot;
    let capture = GpuUndoCapturePlan::from_active_tiles(
        layout,
        &vec![ActiveRoundMaskTile {
            key,
            slot,
            local_damage: RectU32::from_xywh(0, 0, 16, 16).unwrap(),
        }],
    )
    .unwrap();
    let plan = GpuMirrorReadbackPlan::from_capture(
        revision,
        &capture,
        &vec![GpuMementoResidentState {
            key,
            slot,
            document_initialized: true,
            memento_initialized: false,
        }],
        GPU_UNDO_BLOCK_BYTES,
    )
    .unwrap();
    (plan, key)
}

fn mapped_block(
    plan: &GpuMirrorReadbackPlan,
    key: LayerTileKey,
    pixel: LinearRgba,
) -> GpuMirrorPatchBatch {
    let batch = &plan.batches()[0];
    GpuMirrorPatchBatch::from_parts(
        plan.revision(),
        batch.index(),
        vec![GpuMirrorPatchRegion {
            key,
            local_bounds: batch.regions()[0].local_bounds,
            initialized: true,
            pixels: vec![pixel; 16 * 16].into(),
        }],
        batch.byte_len(),
    )
}

fn transition(source_revision: u64, revision: u64) -> GpuExactRasterRecoveryTransition {
    let source_revision = DocumentRevision::from_raw(source_revision);
    let revision = DocumentRevision::from_raw(revision);
    let (plan, key) = one_block_plan(LayerId::from_raw(7), revision);
    let mapped = mapped_block(&plan, key, premultiplied(0.75, 0.0, 0.0, 0.75));
    let base = GpuCpuMirror::new(32, 32, 32, source_revision).unwrap().snapshot();
    GpuExactRasterRecoveryTransition::from_mirror_revision(&base, &plan, vec![mapped]).unwrap()
}

#[test]
fn out_of_order_mapping_binds_to_the_registered_history_id() {
    let first_id = GpuHistoryId::from_raw(10);
    let second_id = GpuHistoryId::from_raw(11);
    let mut spills = GpuHistoryRecoverySpills::new(4, 1_000_000).unwrap();
    spills
        .register(first_id, DocumentRevision::initial(), DocumentRevision::from_raw(1))
        .unwrap();
    spills
        .register(second_id, DocumentRevision::from_raw(1), DocumentRevision::from_raw(2))
        .unwrap();

    let second = spills.attach(transition(1, 2)).unwrap();
    assert_eq!(second.id, second_id);
    assert_eq!(spills.ready_len(), 1);
    assert_eq!(spills.pending_len(), 1);
    let first = spills.attach(transition(0, 1)).unwrap();
    assert_eq!(first.id, first_id);
    assert_eq!(spills.ready_len(), 2);
    assert_eq!(
        spills.id_for_revision(DocumentRevision::from_raw(2)),
        Some(second_id)
    );
}

#[test]
fn undo_and_redo_select_the_exact_opposite_sides() {
    let id = GpuHistoryId::from_raw(5);
    let mut spills = GpuHistoryRecoverySpills::new(1, 1_000_000).unwrap();
    spills
        .register(id, DocumentRevision::initial(), DocumentRevision::from_raw(1))
        .unwrap();
    assert_eq!(
        spills.exact_command(id, GpuHistoryDirection::Undo),
        Err(GpuHistoryRecoveryError::TransitionPending {
            id,
            revision: DocumentRevision::from_raw(1),
        })
    );
    spills.attach(transition(0, 1)).unwrap();

    let stored = spills.entry(id).unwrap().transition().unwrap();
    assert!(std::ptr::eq(
        spills.exact_command(id, GpuHistoryDirection::Undo).unwrap(),
        stored.before()
    ));
    assert!(std::ptr::eq(
        spills.exact_command(id, GpuHistoryDirection::Redo).unwrap(),
        stored.after()
    ));
}

#[test]
fn rejected_attachments_return_ownership_without_mutating_the_entry() {
    let id = GpuHistoryId::from_raw(8);
    let mut spills = GpuHistoryRecoverySpills::new(2, 1_000_000).unwrap();
    spills
        .register(id, DocumentRevision::from_raw(1), DocumentRevision::from_raw(2))
        .unwrap();

    let mismatch = spills.attach(transition(0, 2)).unwrap_err();
    assert_eq!(mismatch.transition.revision(), DocumentRevision::from_raw(2));
    assert_eq!(
        mismatch.error,
        GpuHistoryRecoveryError::SourceRevisionMismatch {
            id,
            expected: DocumentRevision::from_raw(1),
            actual: DocumentRevision::initial(),
        }
    );
    assert_eq!(spills.pending_len(), 1);
    assert_eq!(spills.resident_bytes(), 0);

    spills.attach(transition(1, 2)).unwrap();
    let duplicate = spills.attach(transition(1, 2)).unwrap_err();
    assert_eq!(
        duplicate.error,
        GpuHistoryRecoveryError::TransitionAlreadyAttached {
            id,
            revision: DocumentRevision::from_raw(2),
        }
    );
    assert_eq!(spills.ready_len(), 1);
}

#[test]
fn byte_pressure_does_not_evict_or_partially_attach_history() {
    let first = transition(0, 1);
    let byte_limit = first.retained_byte_len();
    let first_id = GpuHistoryId::from_raw(1);
    let second_id = GpuHistoryId::from_raw(2);
    let mut spills = GpuHistoryRecoverySpills::new(2, byte_limit).unwrap();
    spills
        .register(first_id, DocumentRevision::initial(), DocumentRevision::from_raw(1))
        .unwrap();
    spills
        .register(second_id, DocumentRevision::from_raw(1), DocumentRevision::from_raw(2))
        .unwrap();
    spills.attach(first).unwrap();

    let second = transition(1, 2);
    let second_bytes = second.retained_byte_len();
    let failure = spills.attach(second).unwrap_err();
    assert_eq!(
        failure.error,
        GpuHistoryRecoveryError::ByteLimitExhausted {
            resident: byte_limit,
            requested: second_bytes,
            maximum: byte_limit,
        }
    );
    assert_eq!(failure.transition.revision(), DocumentRevision::from_raw(2));
    assert_eq!(spills.ready_len(), 1);
    assert_eq!(spills.pending_len(), 1);
    assert_eq!(spills.resident_bytes(), byte_limit);

    let removed = spills.remove(first_id).unwrap();
    assert_eq!(removed.retained_byte_len(), byte_limit);
    assert_eq!(spills.resident_bytes(), 0);
    spills.attach(failure.transition).unwrap();
    assert_eq!(spills.ready_len(), 1);
    assert_eq!(spills.pending_len(), 0);
}

#[test]
fn removing_gpu_history_ownership_makes_late_mapping_untracked() {
    let id = GpuHistoryId::from_raw(3);
    let mut spills = GpuHistoryRecoverySpills::new(2, 1_000_000).unwrap();
    spills
        .register(id, DocumentRevision::initial(), DocumentRevision::from_raw(1))
        .unwrap();
    let removed = spills.remove(id).unwrap();
    assert_eq!(removed.id(), id);
    assert!(removed.transition().is_none());

    let failure = spills.attach(transition(0, 1)).unwrap_err();
    assert_eq!(
        failure.error,
        GpuHistoryRecoveryError::UntrackedRevision(DocumentRevision::from_raw(1))
    );
    assert!(spills.is_empty());
}

#[test]
fn registration_failures_preserve_existing_associations() {
    let id = GpuHistoryId::from_raw(1);
    let mut spills = GpuHistoryRecoverySpills::new(1, 1_000_000).unwrap();
    spills
        .register(id, DocumentRevision::initial(), DocumentRevision::from_raw(1))
        .unwrap();
    assert!(matches!(
        spills.register(id, DocumentRevision::from_raw(1), DocumentRevision::from_raw(2)),
        Err(GpuHistoryRecoveryError::DuplicateHistoryId { .. })
    ));
    assert!(matches!(
        spills.register(
            GpuHistoryId::from_raw(2),
            DocumentRevision::initial(),
            DocumentRevision::from_raw(1)
        ),
        Err(GpuHistoryRecoveryError::DuplicateRevision { .. })
    ));
    assert!(matches!(
        spills.register(
            GpuHistoryId::from_raw(2),
            DocumentRevision::from_raw(1),
            DocumentRevision::from_raw(3)
        ),
        Err(GpuHistoryRecoveryError::NonConsecutiveRevision { .. })
    ));
    assert_eq!(spills.len(), 1);
    assert_eq!(spills.id_for_revision(DocumentRevision::from_raw(1)), Some(id));
}

fn revision(value: u64) -> DocumentRevision {
    DocumentRevision::from_raw(value)
}

fn empty_state(spill_entries: usize) -> GpuLiveRecovery {
    let base = GpuCpuMirror::new(32, 32, 32, DocumentRevision::initial()).unwrap().snapshot();
    GpuLiveRecovery::new(base, 8, 1_000_000, spill_entries, 1_000_000).unwrap()
}

fn first_mirror_handoff() -> (GpuExactRasterRecoveryTransition, GpuCpuMirrorSnapshot) {
    let (plan, key) = one_block_plan(LayerId::from_raw(4), revision(1));
    let mapped = mapped_block(&plan, key, premultiplied(0.5, 0.0, 0.0, 0.5));
    let before = GpuCpuMirror::new(32, 32, 32, DocumentRevision::initial()).unwrap().snapshot();
    let transition = GpuExactRasterRecoveryTransition::from_mirror_revision(
        &before,
        &plan,
        vec![mapped.clone()],
    )
    .unwrap();
    let mut reconciler =
        GpuMirrorReconciler::new(32, 32, 32, DocumentRevision::initial()).unwrap();
    reconciler.register_plan(&plan).unwrap();
    reconciler.complete_batch(mapped).unwrap();
    (transition, reconciler.snapshot())
}

fn ready_state() -> (GpuLiveRecovery, GpuHistoryId) {
    let (transition, snapshot) = first_mirror_handoff();
    let timeline = GpuRecoveryTimeline::new(snapshot, 8, 1_000_000).unwrap();
    let id = GpuHistoryId::from_raw(1);
    let mut spills = GpuHistoryRecoverySpills::new(8, 1_000_000).unwrap();
    spills.register(id, DocumentRevision::initial(), revision(1)).unwrap();
    spills.attach(transition).unwrap();
    (GpuLiveRecovery::from_parts(timeline, spills), id)
}

#[test]
fn new_history_record_is_prepared_without_mutation_then_committed_once() {
    let mut state = empty_state(2);
    let id = GpuHistoryId::from_raw(1);
    let prepared = state
        .prepare_history_record(id, &vec![], revision(1), GpuRasterRecoveryCommand::MetadataOnly)
        .unwrap();
    assert_eq!(prepared.id(), id);
    assert_eq!(prepared.source_revision(), DocumentRevision::initial());
    assert_eq!(prepared.revision(), revision(1));
    assert_eq!(state.revision(), DocumentRevision::initial());
    assert!(state.spills().is_empty());
    assert!(state.timeline().journal().is_empty());

    let committed = state.commit_history_record(prepared).unwrap();
    assert_eq!(committed.id, id);
    assert_eq!(committed.revision, revision(1));
    assert!(committed.evicted_spills.is_empty());
    assert_eq!(state.revision(), revision(1));
    assert_eq!(state.timeline().journal().len(), 1);
    assert_eq!(state.spills().pending_len(), 1);
}

#[test]
fn branch_replacement_is_preflighted_and_returns_evicted_spill_ownership() {
    let mut state = empty_state(1);
    let first_id = GpuHistoryId::from_raw(1);
    let first = state
        .prepare_history_record(
            first_id,
            &vec![],
            revision(1),
            GpuRasterRecoveryCommand::MetadataOnly,
        )
        .unwrap();
    state.commit_history_record(first).unwrap();

    let second_id = GpuHistoryId::from_raw(2);
    let failure = state
        .prepare_history_record(
            second_id,
            &vec![],
            revision(2),
            GpuRasterRecoveryCommand::MetadataOnly,
        )
        .unwrap_err();
    assert!(matches!(
        failure.error,
        GpuLiveRecoveryError::Spills(GpuHistoryRecoveryError::EntryLimitExhausted { .. })
    ));
    assert_eq!(failure.command, GpuRasterRecoveryCommand::MetadataOnly);
    assert_eq!(state.revision(), revision(1));

    let second = state
        .prepare_history_record(
            second_id,
            &vec![first_id],
            revision(2),
            GpuRasterRecoveryCommand::MetadataOnly,
        )
        .unwrap();
    let committed = state.commit_history_record(second).unwrap();
    assert_eq!(committed.evicted_spills.len(), 1);
    assert_eq!(committed.evicted_spills[0].id(), first_id);
    assert_eq!(state.revision(), revision(2));
    assert!(state.spills().entry(first_id).is_none());
    assert!(state.spills().entry(second_id).is_some());
    assert_eq!(state.timeline().journal().len(), 2);
}

#[test]
fn stale_prepared_record_returns_its_complete_command() {
    let mut state = empty_state(2);
    let stale = state
        .prepare_history_record(
            GpuHistoryId::from_raw(1),
            &vec![],
            revision(1),
            GpuRasterRecoveryCommand::MetadataOnly,
        )
        .unwrap();
    let winner = state
        .prepare_history_record(
            GpuHistoryId::from_raw(2),
            &vec![],
            revision(1),
            GpuRasterRecoveryCommand::MetadataOnly,
        )
        .unwrap();
    state.commit_history_record(winner).unwrap();

    let failure = match state.commit_history_record(stale) {
        Ok(_) => panic!("stale recovery record unexpectedly committed"),
        Err(failure) => failure,
    };
    assert_eq!(
        failure.error,
        GpuLiveRecoveryError::PreparedSourceChanged {
            prepared: DocumentRevision::initial(),
            actual: revision(1),
        }
    );
    assert_eq!(
        failure.prepared.into_command(),
        GpuRasterRecoveryCommand::MetadataOnly
    );
    assert_eq!(state.timeline().journal().len(), 1);
    assert_eq!(state.spills().len(), 1);
}

#[test]
fn undo_waits_for_an_exact_spill_then_records_the_before_side() {
    let mut pending = empty_state(2);
    let id = GpuHistoryId::from_raw(1);
    let first = pending
        .prepare_history_record(id, &vec![], revision(1), GpuRasterRecoveryCommand::MetadataOnly)
        .unwrap();
    pending.commit_history_record(first).unwrap();
    assert!(matches!(
        pending.prepare_history_swap(id, GpuHistoryDirection::Undo, revision(2)),
        Err(GpuLiveRecoveryError::Spills(
            GpuHistoryRecoveryError::TransitionPending { .. }
        ))
    ));
    assert_eq!(pending.revision(), revision(1));

    let (mut ready, ready_id) = ready_state();
    let prepared = ready
        .prepare_history_swap(ready_id, GpuHistoryDirection::Undo, revision(2))
        .unwrap();
    let stored = ready.spills().entry(ready_id).unwrap().transition().unwrap();
    assert!(matches!(
        prepared.command(),
        GpuRasterRecoveryCommand::Exact(command) if command == stored.before()
    ));
    assert_eq!(ready.revision(), revision(1));

    let committed = ready.commit_history_swap(prepared).unwrap();
    assert_eq!(committed.id, ready_id);
    assert_eq!(committed.direction, GpuHistoryDirection::Undo);
    assert_eq!(committed.revision, revision(2));
    assert_eq!(ready.revision(), revision(2));
    assert_eq!(ready.timeline().journal().len(), 1);
}

#[test]
fn mapped_history_attaches_its_spill_and_retires_the_same_revision() {
    let mut state = empty_state(2);
    let id = GpuHistoryId::from_raw(1);
    let record = state
        .prepare_history_record(id, &vec![], revision(1), GpuRasterRecoveryCommand::MetadataOnly)
        .unwrap();
    let record_bytes = record.byte_len();
    state.commit_history_record(record).unwrap();
    let (transition, snapshot) = first_mirror_handoff();

    let prepared = state
        .prepare_mirror_handoff(GpuMirrorRecoveryPurpose::History(id), snapshot, transition)
        .unwrap();
    assert_eq!(prepared.purpose(), GpuMirrorRecoveryPurpose::History(id));
    assert_eq!(prepared.retired_records(), 1);
    assert_eq!(prepared.retired_bytes(), record_bytes);
    assert_eq!(prepared.attachment().unwrap().id, id);
    assert_eq!(state.timeline().base_revision(), DocumentRevision::initial());
    assert_eq!(state.timeline().journal().len(), 1);
    assert_eq!(state.spills().pending_len(), 1);

    let committed = state.commit_mirror_handoff(prepared).unwrap();
    assert_eq!(committed.purpose, GpuMirrorRecoveryPurpose::History(id));
    assert_eq!(committed.attachment.unwrap().id, id);
    assert!(committed.unused_transition.is_none());
    assert_eq!(committed.advance.retirement.records.len(), 1);
    assert_eq!(state.timeline().base_revision(), revision(1));
    assert!(state.timeline().journal().is_empty());
    assert_eq!(state.spills().ready_len(), 1);
    assert_eq!(state.spills().pending_len(), 0);
}

#[test]
fn reconcile_only_handoff_returns_the_unneeded_transition() {
    let base = GpuCpuMirror::new(32, 32, 32, DocumentRevision::initial()).unwrap().snapshot();
    let mut timeline = GpuRecoveryTimeline::new(base, 8, 1_000_000).unwrap();
    let command = GpuRasterRecoveryCommand::MetadataOnly;
    timeline.record(revision(1), command.retained_byte_len(), command).unwrap();
    let spills = GpuHistoryRecoverySpills::new(8, 1_000_000).unwrap();
    let mut state = GpuLiveRecovery::from_parts(timeline, spills);
    let (transition, snapshot) = first_mirror_handoff();

    let prepared = state
        .prepare_mirror_handoff(GpuMirrorRecoveryPurpose::ReconcileOnly, snapshot, transition)
        .unwrap();
    assert!(prepared.attachment().is_none());
    let committed = state.commit_mirror_handoff(prepared).unwrap();
    assert!(committed.attachment.is_none());
    assert_eq!(committed.unused_transition.unwrap().revision(), revision(1));
    assert_eq!(state.timeline().base_revision(), revision(1));
    assert!(state.timeline().journal().is_empty());
    assert!(state.spills().is_empty());
}

#[test]
fn wrong_mirror_purpose_returns_snapshot_and_transition_without_retirement() {
    let mut state = empty_state(2);
    let id = GpuHistoryId::from_raw(1);
    let record = state
        .prepare_history_record(id, &vec![], revision(1), GpuRasterRecoveryCommand::MetadataOnly)
        .unwrap();
    state.commit_history_record(record).unwrap();
    let (transition, snapshot) = first_mirror_handoff();

    let failure = match state.prepare_mirror_handoff(
        GpuMirrorRecoveryPurpose::ReconcileOnly,
        snapshot,
        transition,
    ) {
        Ok(_) => panic!("history mirror was allowed to discard its spill"),
        Err(failure) => failure,
    };
    assert_eq!(
        failure.error,
        GpuLiveRecoveryError::HistorySpillWouldBeDiscarded { revision: revision(1), id }
    );
    assert_eq!(failure.snapshot.revision(), revision(1));
    assert_eq!(failure.transition.revision(), revision(1));
    assert_eq!(state.timeline().base_revision(), DocumentRevision::initial());
    assert_eq!(state.timeline().journal().len(), 1);
    assert_eq!(state.spills().pending_len(), 1);
}
