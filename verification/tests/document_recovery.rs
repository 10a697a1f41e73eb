use gpu_document::document::{Document, DocumentRevision, LayerId};
use gpu_document::document_metadata::{
    DocumentMetadata, DocumentMetadataEdit, DocumentMetadataEditDirection,
};
use gpu_document::gpu_cpu_mirror::GpuCpuMirror;
use gpu_document::gpu_document_recovery::{
    GpuDocumentCheckpointBuildError, GpuDocumentRecoverySnapshot, GpuDocumentRecoverySnapshotError,
};
use gpu_document::gpu_layer_recovery::GpuExactLayerRecoveryCommand;
use gpu_document::gpu_recovery_journal::GpuRecoveryJournalError;
use gpu_document::gpu_recovery_replay::GpuRasterRecoveryCommand;
use gpu_document::gpu_recovery_timeline::GpuRecoveryTimeline;
use gpu_document::gpu_round_recovery::{
    GpuRoundRecoveryCommand, RoundEvaluation, RoundPixelOutcome,
};
use gpu_document::raster::{LinearRgba, RectU32};
use gpu_document::raster_layer::RasterLayer;
use gpu_document::stroke::{RoundBrushRecipeV1, RoundContact, RoundPathCommand, StrokeMaterial};

fn premultiplied(r: f32, g: f32, b: f32, a: f32) -> LinearRgba {
    LinearRgba::from_bits(r.to_bits(), g.to_bits(), b.to_bits(), a.to_bits())
}

fn revision(value: u64) -> DocumentRevision {
    DocumentRevision::from_raw(value)
}

fn round_command(layer: LayerId) -> GpuRasterRecoveryCommand {
    let one = 1.0_f32.to_bits();
    let at = RoundContact {
        center: [8.5_f32.to_bits(), 8.5_f32.to_bits()],
        radius: 2.0_f32.to_bits(),
        elapsed_micros: 0,
    };
    GpuRoundRecoveryCommand::new(
        layer,
        RoundBrushRecipeV1::with_minimum_pressure_fraction(
            StrokeMaterial::paint([one, 0, 0], one, one).unwrap(),
            4.0_f32.to_bits(),
            one,
        )
        .unwrap(),
        vec![
            RoundPathCommand::Begin(at),
            RoundPathCommand::End {
                at,
                elapsed_micros: 1,
            },
        ],
    )
    .unwrap()
    .into()
}

fn opaque_dot(command: &GpuRoundRecoveryCommand, _layer: &RasterLayer) -> RoundEvaluation {
    let color = command.recipe().material().color();
    let paint = LinearRgba::from_bits(color[0], color[1], color[2], 1.0_f32.to_bits());
    RoundEvaluation {
        bounds: RectU32::from_xywh(8, 8, 1, 1),
        outcomes: vec![RoundPixelOutcome::Paint(paint)],
    }
}

fn keep_names(document: &Document) -> Result<Vec<String>, u64> {
    Ok(document
        .layers()
        .iter()
        .map(|layer| layer.name().to_string())
        .collect())
}

fn record(
    timeline: &mut GpuRecoveryTimeline<GpuRasterRecoveryCommand>,
    revision: DocumentRevision,
    command: GpuRasterRecoveryCommand,
) -> Result<(), GpuRecoveryJournalError> {
    let byte_len = command.retained_byte_len();
    timeline
        .record(revision, byte_len, command)
        .map_err(|failure| failure.error)
}

fn apply(metadata: &mut DocumentMetadata, edit: DocumentMetadataEdit) -> DocumentRevision {
    let next = metadata.revision().checked_next().unwrap();
    metadata
        .apply_edit(&edit, DocumentMetadataEditDirection::Forward, next)
        .unwrap();
    next
}

#[test]
fn metadata_and_rasters_reconstruct_one_editable_revision_after_device_loss() {
    let mut metadata = Document::new(32, 32, 16).unwrap().metadata().duplicate();
    let painted_layer = metadata.active_layer();
    metadata.set_revision(revision(1));

    let base = GpuCpuMirror::new(32, 32, 16, DocumentRevision::initial())
        .unwrap()
        .snapshot();
    let mut timeline = GpuRecoveryTimeline::new(base, 16, 1_000_000).unwrap();
    record(&mut timeline, metadata.revision(), round_command(painted_layer)).unwrap();

    let create = metadata.prepare_create_layer("Color".to_string()).unwrap();
    let second = create.layer();
    let at = apply(&mut metadata, create);
    record(&mut timeline, at, GpuRasterRecoveryCommand::MetadataOnly).unwrap();
    let rename = metadata
        .prepare_layer_name(second, "Highlights".to_string())
        .unwrap()
        .unwrap();
    let at = apply(&mut metadata, rename);
    record(&mut timeline, at, GpuRasterRecoveryCommand::MetadataOnly).unwrap();
    let opacity = metadata
        .prepare_layer_opacity(second, 0.5_f32.to_bits())
        .unwrap()
        .unwrap();
    let at = apply(&mut metadata, opacity);
    record(&mut timeline, at, GpuRasterRecoveryCommand::MetadataOnly).unwrap();
    let hide = metadata
        .prepare_layer_visibility(painted_layer, false)
        .unwrap()
        .unwrap();
    let at = apply(&mut metadata, hide);
    record(&mut timeline, at, GpuRasterRecoveryCommand::MetadataOnly).unwrap();
    let moved = metadata.prepare_layer_move(second, 0).unwrap().unwrap();
    let at = apply(&mut metadata, moved);
    record(&mut timeline, at, GpuRasterRecoveryCommand::MetadataOnly).unwrap();

    let snapshot =
        GpuDocumentRecoverySnapshot::new(metadata.duplicate(), timeline.snapshot()).unwrap();
    let recovered = snapshot.recover_document(&opaque_dot).unwrap();
    let document = recovered.document();

    assert_eq!(document.revision(), metadata.revision());
    assert_eq!(document.revision(), revision(6));
    assert_eq!(document.active_layer_id(), second);
    assert_eq!(document.layers().len(), 2);
    assert_eq!(document.layers()[0].id(), second);
    assert_eq!(document.layers()[0].name(), "Highlights");
    assert_eq!(document.layers()[0].opacity(), 0.5_f32.to_bits());
    assert!(!document.layers()[1].visible());
    let raster = document.layer_raster(painted_layer).unwrap();
    assert_eq!(raster.pixel(8, 8), Some(premultiplied(1.0, 0.0, 0.0, 1.0)));
    assert_eq!(raster.undo_depth(), 0);
    assert_eq!(recovered.stats().layers_recovered, 2);
    assert_eq!(recovered.stats().commands_applied, 1);

    let checkpoint = snapshot.build_checkpoint(&opaque_dot, &keep_names).unwrap();
    assert_eq!(checkpoint.revision(), metadata.revision());
    assert_eq!(checkpoint.recovery_stats(), recovered.stats());
    assert_eq!(
        checkpoint.snapshot(),
        &vec!["Highlights".to_string(), document.layers()[1].name().to_string()]
    );
}

#[test]
fn a_refused_checkpoint_hands_the_refusal_on() {
    let metadata = Document::new(32, 32, 16).unwrap().metadata().duplicate();
    let base = GpuCpuMirror::new(32, 32, 16, DocumentRevision::initial())
        .unwrap()
        .snapshot();
    let timeline: GpuRecoveryTimeline<GpuRasterRecoveryCommand> =
        GpuRecoveryTimeline::new(base, 4, 1_024).unwrap();
    let snapshot = GpuDocumentRecoverySnapshot::new(metadata, timeline.snapshot()).unwrap();
    let refuse = |document: &Document| -> Result<(), u64> { Err(document.revision().get() + 7) };
    let refused = snapshot.build_checkpoint(&opaque_dot, &refuse).unwrap_err();
    assert!(matches!(
        refused,
        GpuDocumentCheckpointBuildError::Checkpoint(7)
    ));
    assert_eq!(refused.message(), "7");
}

#[test]
fn pairing_rejects_revision_mismatch_and_returns_both_snapshots() {
    let document = Document::new(32, 32, 16).unwrap();
    let metadata = document.metadata().duplicate();
    let base = GpuCpuMirror::new(32, 32, 16, DocumentRevision::initial())
        .unwrap()
        .snapshot();
    let mut timeline = GpuRecoveryTimeline::new(base, 4, 1_024).unwrap();
    record(&mut timeline, revision(1), GpuRasterRecoveryCommand::MetadataOnly).unwrap();
    let failure = match GpuDocumentRecoverySnapshot::new(metadata, timeline.snapshot()) {
        Ok(_) => panic!("mismatched document recovery snapshots unexpectedly paired"),
        Err(failure) => failure,
    };
    assert_eq!(failure.metadata.revision(), DocumentRevision::initial());
    assert_eq!(failure.rasters.target_revision().get(), 1);
    assert!(matches!(
        failure.error,
        GpuDocumentRecoverySnapshotError::RevisionMismatch { .. }
    ));
}

#[test]
fn pairing_rejects_a_different_canvas() {
    let metadata = Document::new(32, 16, 16).unwrap().metadata().duplicate();
    let base = GpuCpuMirror::new(32, 32, 16, DocumentRevision::initial())
        .unwrap()
        .snapshot();
    let timeline: GpuRecoveryTimeline<GpuRasterRecoveryCommand> =
        GpuRecoveryTimeline::new(base, 4, 1_024).unwrap();
    let failure = match GpuDocumentRecoverySnapshot::new(metadata, timeline.snapshot()) {
        Ok(_) => panic!("a canvas of another size unexpectedly paired"),
        Err(failure) => failure,
    };
    assert_eq!(
        failure.error,
        GpuDocumentRecoverySnapshotError::GeometryMismatch {
            metadata_dimensions: [32, 16],
            raster_dimensions: [32, 32],
            metadata_tile_size: 16,
            raster_tile_size: 16,
        }
    );
}

#[test]
fn imported_sparse_layer_pixels_survive_loss_and_later_live_mutation() {
    let original = premultiplied(0.2, 0.4, 0.6, 0.8);
    let later = premultiplied(0.8, 0.4, 0.2, 0.8);
    let mut metadata = Document::new(32, 32, 16).unwrap().metadata().duplicate();
    let mut imported = RasterLayer::new(32, 32, 16).unwrap();
    let gesture = imported.begin_gesture().unwrap();
    imported.set_pixel(gesture, 20, 4, original).unwrap();
    imported.commit_gesture(gesture).unwrap();
    let create = metadata.prepare_create_layer("Imported".to_string()).unwrap();
    let imported_id = create.layer();
    let at = apply(&mut metadata, create);

    let base = GpuCpuMirror::new(32, 32, 16, DocumentRevision::initial())
        .unwrap()
        .snapshot();
    let mut timeline = GpuRecoveryTimeline::new(base, 4, 1_000_000).unwrap();
    let imported_snapshot =
        GpuExactLayerRecoveryCommand::from_raster(imported_id, &imported).unwrap();
    record(&mut timeline, at, imported_snapshot.into()).unwrap();
    let snapshot = GpuDocumentRecoverySnapshot::new(metadata, timeline.snapshot()).unwrap();

    let gesture = imported.begin_gesture().unwrap();
    imported.set_pixel(gesture, 20, 4, later).unwrap();
    imported.commit_gesture(gesture).unwrap();

    let recovered = snapshot.recover_document(&opaque_dot).unwrap();
    assert_eq!(recovered.document().revision(), revision(1));
    assert_eq!(
        recovered
            .document()
            .layer_raster(imported_id)
            .unwrap()
            .pixel(20, 4),
        Some(original)
    );
    assert_eq!(imported.pixel(20, 4), Some(later));
    assert_eq!(recovered.stats().layer_snapshots_applied, 1);
    assert_eq!(recovered.stats().commands_applied, 1);
    assert_eq!(recovered.stats().command_visits, 2);
}

#[test]
fn exact_layer_snapshot_restores_a_deletion_after_the_base_advanced() {
    let color = premultiplied(0.4, 0.2, 0.1, 0.5);
    let mut metadata = Document::new(32, 32, 16).unwrap().metadata().duplicate();
    let mut imported = RasterLayer::new(32, 32, 16).unwrap();
    let gesture = imported.begin_gesture().unwrap();
    imported.set_pixel(gesture, 20, 4, color).unwrap();
    imported.commit_gesture(gesture).unwrap();
    let create = metadata.prepare_create_layer("Reference".to_string()).unwrap();
    let restored_id = create.layer();
    apply(&mut metadata, create);
    let delete = metadata.prepare_delete_layer(restored_id).unwrap();
    apply(&mut metadata, delete.duplicate());
    assert_eq!(metadata.revision(), revision(2));
    metadata
        .apply_edit(&delete, DocumentMetadataEditDirection::Reverse, revision(3))
        .unwrap();
    assert_eq!(metadata.revision(), revision(3));

    let base = GpuCpuMirror::new(32, 32, 16, revision(2)).unwrap().snapshot();
    let mut timeline = GpuRecoveryTimeline::new(base, 4, 1_000_000).unwrap();
    let restored = GpuExactLayerRecoveryCommand::from_raster(restored_id, &imported).unwrap();
    record(&mut timeline, metadata.revision(), restored.into()).unwrap();
    let snapshot = GpuDocumentRecoverySnapshot::new(metadata, timeline.snapshot()).unwrap();

    let recovered = snapshot.recover_document(&opaque_dot).unwrap();
    assert_eq!(recovered.document().revision(), revision(3));
    assert_eq!(recovered.document().layers().len(), 2);
    assert_eq!(
        recovered
            .document()
            .layer_raster(restored_id)
            .unwrap()
            .pixel(20, 4),
        Some(color)
    );
    assert_eq!(recovered.stats().layer_snapshots_applied, 1);
}
