use gpu_document::document::{DocumentRevision, LayerId};
use gpu_document::gpu_atlas::{AtlasLayout, LayerTileKey, SparseAtlasPlanner};
use gpu_document::gpu_document_mirror::GpuMirrorReadbackPlan;
use gpu_document::gpu_document_mirror_dispatcher::{GpuMirrorDispatchError, GpuMirrorDispatcher};
use gpu_document::gpu_document_undo::{
    GpuMementoResidentState, GpuUndoCapturePlan, GPU_UNDO_BLOCK_BYTES,
};
use gpu_document::gpu_round_target::ActiveRoundMaskTile;
use gpu_document::raster::{RectU32, TileCoord};

fn two_batch_plan() -> GpuMirrorReadbackPlan {
    let layout = AtlasLayout::document_default();
    let key = LayerTileKey::new(LayerId::from_raw(1), TileCoord::new(0, 0));
    let mut atlas = SparseAtlasPlanner::new(layout);
    let slot = atlas.allocate(key).unwrap().slot;
    let capture = GpuUndoCapturePlan::from_active_tiles(
        layout,
        &vec![ActiveRoundMaskTile {
            key,
            slot,
            local_damage: RectU32::from_xywh(16, 16, 32, 32).unwrap(),
        }],
    )
    .unwrap();
    GpuMirrorReadbackPlan::from_capture(
        DocumentRevision::from_raw(1),
        &capture,
        &vec![GpuMementoResidentState {
            key,
            slot,
            document_initialized: true,
            memento_initialized: false,
        }],
        2 * GPU_UNDO_BLOCK_BYTES,
    )
    .unwrap()
}

#[test]
fn budgets_must_hold_at_least_one_exact_block() {
    assert!(matches!(
        GpuMirrorDispatcher::new(
            128,
            128,
            128,
            DocumentRevision::initial(),
            GPU_UNDO_BLOCK_BYTES - 1,
            GPU_UNDO_BLOCK_BYTES,
        ),
        Err(GpuMirrorDispatchError::InvalidSnapshotBudget { .. })
    ));
    assert!(matches!(
        GpuMirrorDispatcher::new(
            128,
            128,
            128,
            DocumentRevision::initial(),
            GPU_UNDO_BLOCK_BYTES,
            GPU_UNDO_BLOCK_BYTES - 1,
        ),
        Err(GpuMirrorDispatchError::InvalidStagingBudget { .. })
    ));
}

#[test]
fn capacity_checks_the_whole_capture_and_each_staging_batch() {
    let plan = two_batch_plan();
    assert_eq!(plan.byte_len(), 16_384);
    assert_eq!(plan.batches().len(), 2);

    let exact =
        GpuMirrorDispatcher::new(128, 128, 128, DocumentRevision::initial(), 16_384, 8_192)
            .unwrap();
    assert!(exact.check_capacity(&plan).is_ok());

    let snapshot_too_small =
        GpuMirrorDispatcher::new(128, 128, 128, DocumentRevision::initial(), 8_192, 8_192)
            .unwrap();
    assert!(matches!(
        snapshot_too_small.check_capacity(&plan),
        Err(GpuMirrorDispatchError::CaptureExceedsSnapshotBudget {
            requested: 16_384,
            maximum: 8_192,
        })
    ));

    let staging_too_small = GpuMirrorDispatcher::new(
        128,
        128,
        128,
        DocumentRevision::initial(),
        16_384,
        GPU_UNDO_BLOCK_BYTES,
    )
    .unwrap();
    assert!(matches!(
        staging_too_small.check_capacity(&plan),
        Err(GpuMirrorDispatchError::BatchExceedsStagingBudget {
            requested: 8_192,
            maximum: GPU_UNDO_BLOCK_BYTES,
            ..
        })
    ));
}
