use gpu_document::brush::BrushError;
use gpu_document::document::{DocumentRevision, LayerId};
use gpu_document::document_metadata::DocumentMetadataError;
use gpu_document::gpu_atlas::{AtlasLayout, LayerTileKey, SparseAtlasPlanner};
use gpu_document::gpu_cpu_mirror::GpuMirrorReconcileError;
use gpu_document::gpu_document_history::GpuHistoryId;
use gpu_document::gpu_document_mirror::GpuMirrorPlanError;
use gpu_document::gpu_document_mirror_dispatcher::GpuMirrorDispatchError;
use gpu_document::gpu_document_recovery::GpuDocumentRecoverySnapshotError;
use gpu_document::gpu_document_target::{
    GpuDocumentTargetError, GpuDocumentTargetId, COMMIT_INSTANCE_BYTES, COMMIT_UNIFORM_BYTES,
};
use gpu_document::gpu_history_recovery::GpuHistoryRecoveryError;
use gpu_document::gpu_mirror_capture::{GpuMirrorReadbackError, MapRangeError};
use gpu_document::gpu_raster_recovery::GpuExactRasterRecoveryBuildError;
use gpu_document::gpu_recovery_journal::GpuRecoveryJournalError;
use gpu_document::gpu_resident_document::GpuResidentDocumentError;
use gpu_document::gpu_resident_round_stroke::GpuResidentRoundStrokeError;
use gpu_document::gpu_round_recovery::GpuRoundRecoveryBuildError;
use gpu_document::gpu_round_target::{CLEAR_INSTANCE_BYTES, ROUND_INSTANCE_BYTES};
use gpu_document::gpu_stroke::GpuStrokeCommitError;
use gpu_document::gpu_stroke_target::StrokeTargetError;
use gpu_document::raster::{RectU32, TileCoord};
use gpu_document::text::Shown;

fn key() -> LayerTileKey {
    LayerTileKey::new(LayerId::from_raw(3), TileCoord::new(10, 0))
}

#[test]
fn instance_layouts_are_tightly_packed_float_pairs() {
    assert_eq!(ROUND_INSTANCE_BYTES, 96);
    assert_eq!(CLEAR_INSTANCE_BYTES, 16);
}

#[test]
fn commit_data_is_tightly_packed_and_full_precision() {
    assert_eq!(COMMIT_UNIFORM_BYTES, 32);
    assert_eq!(COMMIT_INSTANCE_BYTES, 16);
}

#[test]
fn numbers_are_shown_in_decimal() {
    for value in [0_u64, 7, 10, 99, 100, 4_096, u64::MAX] {
        assert_eq!(value.show(), value.to_string());
    }
    assert_eq!(0_u32.show(), "0");
    assert_eq!(120_usize.show(), "120");
}

#[test]
fn places_are_shown_as_they_are_debugged() {
    let layout = AtlasLayout::new(256, 128, 1).unwrap();
    let mut atlas = SparseAtlasPlanner::new(layout);
    let slot = atlas.allocate(key()).unwrap().slot;
    let bounds = RectU32::from_xywh(1, 2, 3, 4).unwrap();
    assert_eq!(key().show(), format!("{:?}", key()));
    assert_eq!(slot.show(), format!("{slot:?}"));
    assert_eq!(layout.show(), format!("{layout:?}"));
    assert_eq!(bounds.show(), format!("{bounds:?}"));
    assert_eq!(Some(slot).show(), format!("{:?}", Some(slot)));
    assert_eq!(None::<LayerTileKey>.show(), "None");
}

#[test]
fn mirror_errors_say_what_went_wrong() {
    assert_eq!(
        GpuMirrorPlanError::BatchBudgetTooSmall {
            requested: 4_095,
            minimum: 4_096
        }
        .message(),
        "GPU mirror batch budget 4095 is smaller than one 4096-byte block"
    );
    assert_eq!(
        GpuMirrorReconcileError::BatchByteMismatch {
            revision: DocumentRevision::from_raw(7),
            index: 2,
            expected: 16,
            actual: 8,
        }
        .message(),
        "GPU mirror revision 7 batch 2 has 8 bytes, expected 16"
    );
    assert_eq!(
        GpuMirrorReconcileError::RegionOutsideTile {
            key: key(),
            bounds: RectU32::from_xywh(0, 0, 16, 16).unwrap(),
            valid_extent: [8, 4],
        }
        .message(),
        format!(
            "GPU mirror region {:?} for {:?} exceeds 8x4",
            RectU32::from_xywh(0, 0, 16, 16).unwrap(),
            key()
        )
    );
    assert_eq!(
        GpuMirrorReadbackError::MapChannelDisconnected.message(),
        "GPU mirror map channel disconnected"
    );
    assert_eq!(
        GpuMirrorDispatchError::Readback(GpuMirrorReadbackError::MapNotStarted).message(),
        "GPU mirror mapping has not started"
    );
}

#[test]
fn document_errors_say_what_went_wrong() {
    assert_eq!(
        GpuDocumentTargetError::TargetTokenMismatch {
            expected: GpuDocumentTargetId::from_raw(11),
            actual: GpuDocumentTargetId::from_raw(12),
        }
        .message(),
        "GPU token belongs to target 12, not target 11"
    );
    assert_eq!(
        GpuDocumentRecoverySnapshotError::GeometryMismatch {
            metadata_dimensions: [32, 16],
            raster_dimensions: [32, 32],
            metadata_tile_size: 16,
            raster_tile_size: 8,
        }
        .message(),
        "GPU recovery metadata 32x16 / tile 16 does not match rasters 32x32 / tile 8"
    );
    assert_eq!(
        GpuHistoryRecoveryError::InvalidEntryLimit.message(),
        "GPU history recovery entry limit must be nonzero"
    );
    assert_eq!(
        GpuRecoveryJournalError::RevisionExhausted.message().is_empty(),
        false
    );
    assert_eq!(
        GpuResidentDocumentError::Metadata(DocumentMetadataError::InvalidOpacity).message(),
        "invalid opacity"
    );
    assert!(GpuExactRasterRecoveryBuildError::EmptyCommand
        .message()
        .contains("empty"));
    assert_eq!(GpuHistoryId::from_raw(4).show(), "GpuHistoryId(4)");
}

#[test]
fn fractions_are_put_into_messages_by_the_caller() {
    let half = 0.5_f32.to_bits();
    assert_eq!(
        GpuRoundRecoveryBuildError::UnsupportedFlow(half).message("0.5"),
        "GPU round recovery currently requires full flow, got 0.5"
    );
    assert_eq!(
        GpuResidentRoundStrokeError::Recovery(GpuRoundRecoveryBuildError::UnsupportedFlow(half))
            .message("0.5"),
        "GPU round recovery currently requires full flow, got 0.5"
    );
    assert_eq!(
        GpuStrokeCommitError::InvalidBrushDiameter(0).message("0"),
        "invalid GPU stroke brush diameter 0"
    );
    assert_eq!(
        GpuStrokeCommitError::DuplicateTile(TileCoord::new(4, 5)).message(""),
        "GPU stroke contains duplicate tile (4, 5)"
    );
    assert_eq!(
        StrokeTargetError::InvalidVertexCount(2).message(""),
        "stroke vertex count 2 is not nonzero triangles"
    );
}

#[test]
fn what_the_device_says_stands_in_the_message() {
    let said = "Buffer view error: the range is not mapped";
    let error = MapRangeError::new(said.to_string());
    assert_eq!(
        GpuMirrorReadbackError::BufferAccess(error.duplicate()).message(),
        said
    );
    assert_eq!(
        StrokeTargetError::BufferAccess(error.duplicate()).message(""),
        "stroke buffer access failed: Buffer view error: the range is not mapped"
    );
    assert_eq!(BrushError::InvalidSample.message(), "brush sample is not finite");
}
