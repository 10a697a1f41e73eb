use gpu_document::device::DeviceLimits;
use gpu_document::document::{DocumentRevision, LayerId};
use gpu_document::document_metadata::{
    DocumentMetadata, DocumentMetadataEditDirection, DocumentMetadataError,
};
use gpu_document::gpu_atlas::{AtlasLayout, LayerTileKey};
use gpu_document::gpu_cpu_mirror::GpuCpuMirror;
use gpu_document::gpu_document_history::{
    GpuDocumentHistoryError, GpuHistoryDirection, GpuHistoryId,
};
use gpu_document::gpu_document_mirror_dispatcher::GpuMirrorDispatchError;
use gpu_document::gpu_document_target::{
    GpuDocumentTarget, GpuDocumentTargetId, GpuDocumentTargetIds,
};
use gpu_document::gpu_document_undo::GPU_UNDO_BLOCK_BYTES;
use gpu_document::gpu_live_recovery::{GpuLiveRecovery, GpuMirrorRecoveryPurpose};
use gpu_document::gpu_recovery_replay::GpuRasterRecoveryCommand;
use gpu_document::gpu_resident_document::{
    GpuResidentDocument, GpuResidentDocumentError, GpuResidentDocumentLimits,
    GpuResidentRoundStrokeId,
};
use gpu_document::gpu_resident_metadata::GpuResidentLayerReclamation;
use gpu_document::gpu_resident_mirror::resolve_mirror_purpose;
use gpu_document::gpu_round::{RoundBounds, RoundMaskScheduler};
use gpu_document::gpu_round_recovery::{GpuRoundRecoveryCommand, RoundEvaluation};
use gpu_document::raster::TileCoord;
use gpu_document::raster_layer::RasterLayer;
use gpu_document::stroke::{RoundContact, RoundPathCommand};

fn limits() -> GpuResidentDocumentLimits {
    GpuResidentDocumentLimits {
        history_entries: 7,
        history_bytes: 8 * GPU_UNDO_BLOCK_BYTES,
        mirror_snapshot_bytes: 9 * GPU_UNDO_BLOCK_BYTES,
        mirror_staging_bytes: 2 * GPU_UNDO_BLOCK_BYTES,
        recovery_journal_entries: 11,
        recovery_journal_bytes: 12 * GPU_UNDO_BLOCK_BYTES,
        recovery_spill_entries: 7,
        recovery_spill_bytes: 13 * GPU_UNDO_BLOCK_BYTES,
    }
}

fn device() -> DeviceLimits {
    DeviceLimits {
        max_texture_dimension_2d: 8_192,
        max_buffer_size: 1 << 28,
        float32_blendable: true,
    }
}

fn layout() -> AtlasLayout {
    AtlasLayout::new(32, 8, 2).unwrap()
}

fn target() -> GpuDocumentTarget {
    GpuDocumentTarget::new(device(), layout(), &mut GpuDocumentTargetIds::new()).unwrap()
}

fn test_document(
    layout: AtlasLayout,
    initial_revision: DocumentRevision,
    limits: GpuResidentDocumentLimits,
) -> Result<GpuResidentDocument, GpuResidentDocumentError> {
    let metadata =
        DocumentMetadata::new_blank(48, 40, layout.tile_size(), initial_revision).unwrap();
    GpuResidentDocument::new_with_target_identity(
        metadata,
        layout,
        GpuDocumentTargetId::from_raw(73),
        limits,
    )
}

fn two_layer_metadata() -> (DocumentMetadata, LayerId, LayerId) {
    let mut metadata =
        DocumentMetadata::new_blank(48, 40, 8, DocumentRevision::initial()).unwrap();
    let first = metadata.active_layer();
    let create = metadata.prepare_create_layer("Second".to_string()).unwrap();
    let second = create.layer();
    metadata
        .apply_edit(
            &create,
            DocumentMetadataEditDirection::Forward,
            DocumentRevision::from_raw(1),
        )
        .unwrap();
    (metadata, first, second)
}

fn dot_bounds(from: RoundContact, _to: RoundContact) -> RoundBounds {
    let x = f32::from_bits(from.center[0]) as u32;
    let y = f32::from_bits(from.center[1]) as u32;
    RoundBounds {
        min_x: x - 2,
        min_y: y - 2,
        max_x: x + 3,
        max_y: y + 3,
    }
}

fn dot() -> Vec<RoundPathCommand> {
    let contact = RoundContact {
        center: [4.0_f32.to_bits(), 4.0_f32.to_bits()],
        radius: 2.0_f32.to_bits(),
        elapsed_micros: 0,
    };
    vec![
        RoundPathCommand::Begin(contact),
        RoundPathCommand::End {
            at: contact,
            elapsed_micros: 1,
        },
    ]
}

fn no_strokes(_command: &GpuRoundRecoveryCommand, _layer: &RasterLayer) -> RoundEvaluation {
    RoundEvaluation {
        bounds: None,
        outcomes: Vec::new(),
    }
}

#[test]
fn owner_starts_all_subsystems_at_one_revision_and_budget() {
    let layout = layout();
    let initial_revision = DocumentRevision::from_raw(19);
    let limits = limits();
    let document = test_document(layout, initial_revision, limits).unwrap();

    assert_eq!(document.target_id(), GpuDocumentTargetId::from_raw(73));
    assert!(document.atlas().layout().same(layout));
    assert_eq!(document.history().max_entries(), limits.history_entries);
    assert_eq!(document.history().max_bytes(), limits.history_bytes);
    assert_eq!(
        document.mirror().max_snapshot_bytes(),
        limits.mirror_snapshot_bytes
    );
    assert_eq!(
        document.mirror().max_staging_bytes(),
        limits.mirror_staging_bytes
    );
    assert_eq!(document.revision(), initial_revision);
    assert_eq!(document.mirror().snapshot().revision(), initial_revision);
    assert_eq!(
        document.recovery().timeline().base().revision(),
        initial_revision
    );
    assert_eq!(document.history().undo_depth(), 0);
    assert_eq!(document.mirror().pending_revision_count(), 0);
    assert_eq!(document.pending_mirror_purpose_count(), 0);
    assert!(document.pending_mirror_handoff_error().is_none());
    let wrong_target = GpuDocumentTargetId::from_raw(74);
    assert!(matches!(
        document.check_target_identity(wrong_target),
        Err(GpuResidentDocumentError::TargetMismatch {
            expected,
            actual
        }) if expected == document.target_id() && actual == wrong_target
    ));
}

#[test]
fn active_layer_selection_is_metadata_only_and_respects_the_stroke_guard() {
    let (metadata, first, second) = two_layer_metadata();
    let revision = metadata.revision();
    let target = target();
    let mut document = GpuResidentDocument::new(metadata, &target, limits()).unwrap();

    document.set_active_layer(first).unwrap();
    assert_eq!(document.metadata().active_layer(), first);
    assert_eq!(document.revision(), revision);
    assert_eq!(document.history().undo_depth(), 0);
    assert_eq!(document.recovery().revision(), revision);

    document.begin_round_stroke(&target, first).unwrap();
    assert!(matches!(
        document.set_active_layer(second),
        Err(GpuResidentDocumentError::ActiveRoundStrokeMismatch { .. })
    ));
    assert_eq!(document.metadata().active_layer(), first);
}

#[test]
fn metadata_edits_commit_one_shared_history_and_recovery_revision() {
    let (metadata, first, second) = two_layer_metadata();
    let initial_revision = metadata.revision();
    let mut document = GpuResidentDocument::new_with_target_identity(
        metadata,
        layout(),
        GpuDocumentTargetId::from_raw(73),
        limits(),
    )
    .unwrap();

    let visibility = document
        .set_layer_visibility(second, false)
        .unwrap()
        .expect("visibility changed");
    assert_eq!(
        visibility.revision,
        initial_revision.checked_next().unwrap()
    );
    assert_eq!(document.history().undo_depth(), 1);
    assert!(!document.metadata().layers()[1].visible());
    assert_eq!(document.recovery().revision(), visibility.revision);
    assert_eq!(document.mirror().snapshot().revision(), visibility.revision);
    assert!(document.recovery().spills().is_empty());
    assert!(visibility.evicted_history.is_empty());
    assert!(visibility.evicted_spills.is_empty());

    let opacity = document
        .set_layer_opacity(second, 0.25_f32.to_bits())
        .unwrap()
        .expect("opacity changed");
    assert_eq!(
        opacity.revision,
        visibility.revision.checked_next().unwrap()
    );
    assert_eq!(document.history().undo_depth(), 2);
    assert_eq!(
        document.metadata().layers()[1].opacity(),
        0.25_f32.to_bits()
    );

    let moved = document
        .move_layer(second, 0)
        .unwrap()
        .expect("layer moved");
    assert_eq!(moved.revision, opacity.revision.checked_next().unwrap());
    assert_eq!(document.metadata().layers()[0].id(), second);
    assert_eq!(document.metadata().layers()[1].id(), first);
    assert_eq!(document.recovery_snapshot().revision(), moved.revision);

    assert!(document.move_layer(second, 0).unwrap().is_none());
    assert_eq!(document.revision(), moved.revision);
    let failure = document
        .set_layer_opacity(second, f32::NAN.to_bits())
        .err()
        .expect("non-finite opacity is rejected");
    assert!(failure.edit.is_none());
    assert!(matches!(
        failure.error,
        GpuResidentDocumentError::Metadata(DocumentMetadataError::InvalidOpacity)
    ));
    assert_eq!(document.revision(), moved.revision);

    let undo_move = document
        .swap_metadata_history(GpuHistoryDirection::Undo)
        .unwrap()
        .expect("move is undoable");
    assert_eq!(undo_move.history_id, moved.history_id);
    assert_eq!(document.metadata().layers()[0].id(), first);
    assert_eq!(document.metadata().layers()[1].id(), second);
    assert_eq!(document.history().undo_depth(), 2);
    assert_eq!(document.history().redo_depth(), 1);

    document
        .swap_metadata_history(GpuHistoryDirection::Undo)
        .unwrap()
        .expect("opacity is undoable");
    assert_eq!(
        document.metadata().layers()[1].opacity(),
        1.0_f32.to_bits()
    );
    document
        .swap_metadata_history(GpuHistoryDirection::Undo)
        .unwrap()
        .expect("visibility is undoable");
    assert!(document.metadata().layers()[1].visible());
    assert_eq!(document.history().undo_depth(), 0);
    assert_eq!(document.history().redo_depth(), 3);

    let redo_visibility = document
        .swap_metadata_history(GpuHistoryDirection::Redo)
        .unwrap()
        .expect("visibility is redoable");
    assert!(!document.metadata().layers()[1].visible());
    assert_eq!(document.recovery().revision(), redo_visibility.revision);
    assert_eq!(
        document.mirror().snapshot().revision(),
        redo_visibility.revision
    );
    assert_eq!(
        document.recovery_snapshot().revision(),
        redo_visibility.revision
    );
}

#[test]
fn resident_layer_name_is_one_reversible_metadata_revision() {
    let mut document =
        test_document(layout(), DocumentRevision::initial(), limits()).unwrap();
    let layer = document.metadata().active_layer();

    let commit = document
        .rename_layer(layer, "Ink".to_string())
        .unwrap()
        .expect("name changed");
    assert_eq!(document.metadata().layers()[0].name(), "Ink");
    assert_eq!(document.recovery().revision(), commit.revision);
    assert_eq!(document.mirror().snapshot().revision(), commit.revision);
    assert!(document
        .rename_layer(layer, "Ink".to_string())
        .unwrap()
        .is_none());

    document
        .swap_metadata_history(GpuHistoryDirection::Undo)
        .unwrap()
        .expect("rename is undoable");
    assert_eq!(document.metadata().layers()[0].name(), "Layer 1");
    document
        .swap_metadata_history(GpuHistoryDirection::Redo)
        .unwrap()
        .expect("rename is redoable");
    assert_eq!(document.metadata().layers()[0].name(), "Ink");
}

#[test]
fn metadata_edit_is_rejected_unchanged_during_an_active_stroke() {
    let target = target();
    let metadata = DocumentMetadata::new_blank(48, 40, 8, DocumentRevision::initial()).unwrap();
    let mut document = GpuResidentDocument::new(metadata, &target, limits()).unwrap();
    let layer = document.metadata().active_layer();
    let edit = document
        .metadata()
        .prepare_layer_visibility(layer, false)
        .unwrap()
        .unwrap();
    document.begin_round_stroke(&target, layer).unwrap();

    let failure = document
        .apply_metadata_edit(edit.clone())
        .err()
        .expect("active stroke blocks metadata mutation");
    assert_eq!(failure.edit, Some(edit));
    assert!(matches!(
        failure.error,
        GpuResidentDocumentError::ActiveRoundStrokeMismatch { .. }
    ));
    assert!(document.metadata().layers()[0].visible());
    assert_eq!(document.history().undo_depth(), 0);
    assert_eq!(document.recovery().revision(), DocumentRevision::initial());
}

#[test]
fn empty_layer_creation_is_reversible_without_raster_or_mirror_work() {
    let mut document =
        test_document(layout(), DocumentRevision::initial(), limits()).unwrap();
    let original = document.metadata().active_layer();

    let (created, commit) = document.create_layer("Ink".to_string()).unwrap();
    assert_ne!(created, original);
    assert_eq!(document.metadata().active_layer(), created);
    assert_eq!(document.metadata().layers().len(), 2);
    assert_eq!(document.metadata().layers()[1].name(), "Ink");
    assert_eq!(document.atlas().resident_tile_count(), 0);
    assert_eq!(document.mirror().pending_revision_count(), 0);
    assert_eq!(document.recovery().revision(), commit.revision);

    document.set_active_layer(original).unwrap();
    let undone = document
        .swap_metadata_history(GpuHistoryDirection::Undo)
        .unwrap()
        .expect("creation is undoable after selection changes");
    assert_eq!(undone.history_id, commit.history_id);
    assert_eq!(document.metadata().layers().len(), 1);
    assert_eq!(document.metadata().active_layer(), original);

    document
        .swap_metadata_history(GpuHistoryDirection::Redo)
        .unwrap()
        .expect("creation is redoable");
    assert_eq!(document.metadata().layers().len(), 2);
    assert_eq!(document.metadata().active_layer(), created);

    document
        .swap_metadata_history(GpuHistoryDirection::Undo)
        .unwrap();
    let (newer, _) = document.create_layer("Paint".to_string()).unwrap();
    assert!(
        newer.get() > created.get(),
        "undone layer IDs are not reused"
    );
    assert_eq!(document.history().redo_depth(), 0);
}

#[test]
fn deleted_layer_payload_stays_reachable_then_reclaims_on_branch() {
    let target = target();
    let metadata = DocumentMetadata::new_blank(48, 40, 8, DocumentRevision::initial()).unwrap();
    let mut document = GpuResidentDocument::new(metadata, &target, limits()).unwrap();
    let original = document.metadata().active_layer();
    let (created, _) = document.create_layer("Ink".to_string()).unwrap();
    let key = LayerTileKey::new(created, TileCoord::new(0, 0));
    let id = document.begin_round_stroke(&target, created).unwrap();
    let mut scheduler = RoundMaskScheduler::new([48, 40], created, layout()).unwrap();
    document
        .schedule_round_stroke(id, &mut scheduler, &dot(), &dot_bounds)
        .unwrap();
    document.finish_round_stroke(id).unwrap();

    let deletion = document.delete_layer(created).unwrap();
    assert_eq!(document.metadata().layers().len(), 1);
    assert_eq!(document.metadata().active_layer(), original);
    assert_eq!(document.atlas().resident_tile_count(), 1);
    assert_eq!(deletion.reclamation, GpuResidentLayerReclamation::default());

    document
        .swap_metadata_history(GpuHistoryDirection::Undo)
        .unwrap()
        .expect("deletion is undoable");
    assert_eq!(document.metadata().layers().len(), 2);
    assert_eq!(document.metadata().active_layer(), created);
    assert!(document.atlas().slot(key).is_some());

    document
        .swap_metadata_history(GpuHistoryDirection::Undo)
        .unwrap()
        .expect("creation is undoable");
    assert_eq!(document.metadata().layers().len(), 1);
    assert_eq!(document.atlas().resident_tile_count(), 1);

    let (_, branch) = document.create_layer("Paint".to_string()).unwrap();
    assert_eq!(branch.reclamation.layers, 1);
    assert_eq!(branch.reclamation.atlas_tiles, 1);
    assert!(document.atlas().slot(key).is_none());
    assert_eq!(document.history().redo_depth(), 0);
}

#[test]
fn deleting_the_last_resident_layer_is_transactional() {
    let mut document =
        test_document(layout(), DocumentRevision::initial(), limits()).unwrap();
    let layer = document.metadata().active_layer();
    let failure = document
        .delete_layer(layer)
        .err()
        .expect("the last layer cannot be deleted");
    assert!(failure.edit.is_none());
    assert!(matches!(
        failure.error,
        GpuResidentDocumentError::Metadata(DocumentMetadataError::CannotDeleteLastLayer)
    ));
    assert_eq!(document.metadata().layers().len(), 1);
    assert_eq!(document.history().undo_depth(), 0);
}

#[test]
fn invalid_history_limit_fails_before_constructing_an_owner() {
    let result = GpuResidentDocument::new_with_target_identity(
        DocumentMetadata::new_blank(48, 40, 8, DocumentRevision::initial()).unwrap(),
        layout(),
        GpuDocumentTargetId::from_raw(73),
        GpuResidentDocumentLimits {
            history_entries: 0,
            ..limits()
        },
    );

    assert!(matches!(
        result,
        Err(GpuResidentDocumentError::History(
            GpuDocumentHistoryError::InvalidMaximumEntries
        ))
    ));
}

#[test]
fn invalid_mirror_budget_is_reported_at_the_owner_boundary() {
    let result = GpuResidentDocument::new_with_target_identity(
        DocumentMetadata::new_blank(48, 40, 8, DocumentRevision::initial()).unwrap(),
        layout(),
        GpuDocumentTargetId::from_raw(73),
        GpuResidentDocumentLimits {
            mirror_staging_bytes: GPU_UNDO_BLOCK_BYTES - 1,
            ..limits()
        },
    );

    assert!(matches!(
        result,
        Err(GpuResidentDocumentError::MirrorDispatch(
            GpuMirrorDispatchError::InvalidStagingBudget { .. }
        ))
    ));
}

#[test]
fn owner_rejects_metadata_for_a_different_tile_geometry() {
    let result = GpuResidentDocument::new_with_target_identity(
        DocumentMetadata::new_blank(48, 40, 16, DocumentRevision::initial()).unwrap(),
        AtlasLayout::new(32, 8, 2).unwrap(),
        GpuDocumentTargetId::from_raw(73),
        limits(),
    );

    assert!(matches!(
        result,
        Err(GpuResidentDocumentError::MetadataTileSizeMismatch {
            metadata: 16,
            atlas: 8
        })
    ));
}

#[test]
fn active_round_guard_tracks_and_reclaims_only_its_provisional_allocations() {
    let target = target();
    let metadata = DocumentMetadata::new_blank(48, 40, 8, DocumentRevision::initial()).unwrap();
    let mut document = GpuResidentDocument::new(metadata, &target, limits()).unwrap();
    let layer = document.metadata().active_layer();
    let id = document.begin_round_stroke(&target, layer).unwrap();
    let mut scheduler = RoundMaskScheduler::new([48, 40], layer, layout()).unwrap();
    let commands = dot();

    let wrong = GpuResidentRoundStrokeId(42);
    assert!(matches!(
        document.schedule_round_stroke(wrong, &mut scheduler, &commands, &dot_bounds),
        Err(GpuResidentDocumentError::ActiveRoundStrokeMismatch {
            expected: Some(expected),
            actual: Some(actual),
        }) if expected == wrong && actual == id
    ));
    assert_eq!(document.atlas().resident_tile_count(), 0);

    let batch = document
        .schedule_round_stroke(id, &mut scheduler, &commands, &dot_bounds)
        .unwrap();
    assert_eq!(batch.allocations().len(), 1);
    assert!(batch.allocations()[0].newly_allocated);
    assert_eq!(document.atlas().resident_tile_count(), 1);

    document
        .rollback_round_stroke_allocations(id, batch.allocations())
        .unwrap();
    document.finish_round_stroke(id).unwrap();
    assert_eq!(document.atlas().resident_tile_count(), 0);
    assert_eq!(document.active_round_stroke(), None);
}

#[test]
fn resident_snapshot_materializes_the_owned_revision_without_aliasing_metadata() {
    let mut document =
        test_document(layout(), DocumentRevision::from_raw(7), limits()).unwrap();
    let snapshot = document.recovery_snapshot();
    let layer = document.metadata().active_layer();
    document.set_layer_visibility(layer, false).unwrap();
    assert_eq!(document.revision(), DocumentRevision::from_raw(8));

    assert_eq!(snapshot.revision(), DocumentRevision::from_raw(7));
    let recovered = snapshot.recover_document(&no_strokes).unwrap();
    assert_eq!(
        recovered.document().revision(),
        DocumentRevision::from_raw(7)
    );
    assert_eq!(recovered.document().layers().len(), 1);
    assert!(recovered.document().layers()[0].visible());
    assert_eq!(
        recovered
            .document()
            .layer_raster(layer)
            .unwrap()
            .allocated_tile_count(),
        0
    );
}

#[test]
fn delayed_history_mapping_becomes_reconcile_only_after_eviction() {
    let base = GpuCpuMirror::new(48, 40, 8, DocumentRevision::initial())
        .unwrap()
        .snapshot();
    let limits = limits();
    let mut recovery = GpuLiveRecovery::new(
        base,
        limits.recovery_journal_entries,
        limits.recovery_journal_bytes,
        limits.recovery_spill_entries,
        limits.recovery_spill_bytes,
    )
    .unwrap();
    let first_id = GpuHistoryId::from_raw(1);
    let first_revision = DocumentRevision::from_raw(1);
    let first = recovery
        .prepare_history_record(
            first_id,
            &vec![],
            first_revision,
            GpuRasterRecoveryCommand::MetadataOnly,
        )
        .unwrap();
    recovery.commit_history_record(first).unwrap();
    assert_eq!(
        resolve_mirror_purpose(
            &recovery,
            GpuMirrorRecoveryPurpose::History(first_id),
            first_revision,
        ),
        GpuMirrorRecoveryPurpose::History(first_id)
    );

    let second_id = GpuHistoryId::from_raw(2);
    let second = recovery
        .prepare_history_record(
            second_id,
            &vec![first_id],
            DocumentRevision::from_raw(2),
            GpuRasterRecoveryCommand::MetadataOnly,
        )
        .unwrap();
    recovery.commit_history_record(second).unwrap();
    assert_eq!(
        resolve_mirror_purpose(
            &recovery,
            GpuMirrorRecoveryPurpose::History(first_id),
            first_revision,
        ),
        GpuMirrorRecoveryPurpose::ReconcileOnly
    );
}
