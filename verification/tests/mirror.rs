use gpu_document::document::{DocumentRevision, LayerId};
use gpu_document::gpu_atlas::{AtlasLayout, LayerTileKey, SparseAtlasPlanner};
use gpu_document::gpu_cpu_mirror::{
    GpuMirrorPatchBatch, GpuMirrorPatchRegion, GpuMirrorReconcileError,
};
use gpu_document::gpu_document_mirror::{
    GpuMirrorBatchPlan, GpuMirrorPlanError, GpuMirrorReadbackPlan,
    DEFAULT_RECONCILIATION_BYTES_IN_FLIGHT,
};
use gpu_document::gpu_document_undo::{
    GpuMementoResidentState, GpuUndoCapturePlan, GPU_UNDO_BLOCK_BYTES, GPU_UNDO_BLOCK_SIZE,
};
use gpu_document::gpu_mirror_reconciler::GpuMirrorReconciler;
use gpu_document::gpu_round_target::ActiveRoundMaskTile;
use gpu_document::raster::{LinearRgba, RectU32, TileCoord};

fn premultiplied(r: f32, g: f32, b: f32, a: f32) -> LinearRgba {
    LinearRgba::from_bits(r.to_bits(), g.to_bits(), b.to_bits(), a.to_bits())
}

fn capture_and_states(
    layout: AtlasLayout,
    damages: &[(TileCoord, RectU32, bool)],
) -> (GpuUndoCapturePlan, Vec<GpuMementoResidentState>) {
    let layer = LayerId::from_raw(5);
    let mut atlas = SparseAtlasPlanner::new(layout);
    let mut active = Vec::new();
    let mut initialized = Vec::new();
    for &(tile, damage, present) in damages {
        let key = LayerTileKey::new(layer, tile);
        let slot = atlas.allocate(key).unwrap().slot;
        active.push(ActiveRoundMaskTile { key, slot, local_damage: damage });
        initialized.push((key, slot, present));
    }
    let capture = GpuUndoCapturePlan::from_active_tiles(layout, &active).unwrap();
    initialized.sort_by_key(|(key, slot, _)| {
        (slot.page().get(), slot.slot_in_page(), key.tile.y, key.tile.x)
    });
    let states = initialized
        .into_iter()
        .map(|(key, slot, document_initialized)| GpuMementoResidentState {
            key,
            slot,
            document_initialized,
            memento_initialized: !document_initialized,
        })
        .collect();
    (capture, states)
}

fn one_tile_plan(revision: u64, initialized: bool) -> (GpuMirrorReadbackPlan, LayerTileKey) {
    let layout = AtlasLayout::document_default();
    let (capture, states) = capture_and_states(
        layout,
        &[(TileCoord::new(0, 0), RectU32::from_xywh(16, 16, 16, 16).unwrap(), initialized)],
    );
    let key = capture.regions()[0].key;
    (
        GpuMirrorReadbackPlan::from_capture(
            DocumentRevision::from_raw(revision),
            &capture,
            &states,
            DEFAULT_RECONCILIATION_BYTES_IN_FLIGHT,
        )
        .unwrap(),
        key,
    )
}

fn solid_regions(batch: &GpuMirrorBatchPlan, pixel: LinearRgba) -> Vec<GpuMirrorPatchRegion> {
    batch
        .regions()
        .iter()
        .map(|region| GpuMirrorPatchRegion {
            key: region.key,
            local_bounds: region.local_bounds,
            initialized: region.initialized,
            pixels: if region.initialized {
                vec![pixel; region.local_bounds.area() as usize].into()
            } else {
                Vec::new().into()
            },
        })
        .collect()
}

fn solid_patch(batch: &GpuMirrorBatchPlan, pixel: LinearRgba) -> GpuMirrorPatchBatch {
    GpuMirrorPatchBatch::from_parts(
        batch.revision(),
        batch.index(),
        solid_regions(batch, pixel),
        batch.byte_len(),
    )
}

#[test]
fn default_tile_regions_pack_to_the_declared_byte_cap() {
    let layout = AtlasLayout::document_default();
    let damage = RectU32::from_xywh(0, 0, 128, 128).unwrap();
    let damages: Vec<_> = (0..3).map(|x| (TileCoord::new(x, 0), damage, true)).collect();
    let (capture, states) = capture_and_states(layout, &damages);
    let plan = GpuMirrorReadbackPlan::from_capture(
        DocumentRevision::initial(),
        &capture,
        &states,
        2 * 128 * 128 * 16,
    )
    .unwrap();
    assert_eq!(plan.batches().len(), 2);
    assert_eq!(plan.batches()[0].regions().len(), 2);
    assert_eq!(plan.batches()[0].byte_len(), 524_288);
    assert_eq!(plan.batches()[1].regions().len(), 1);
    assert_eq!(plan.byte_len(), 786_432);
    assert_eq!(plan.block_count(), 192);
}

#[test]
fn oversized_region_splits_only_on_block_rows() {
    let layout = AtlasLayout::new(2_048, 2_048, 1).unwrap();
    let damage = RectU32::from_xywh(0, 0, 2_048, 2_048).unwrap();
    let (capture, states) = capture_and_states(layout, &[(TileCoord::new(0, 0), damage, true)]);
    let plan = GpuMirrorReadbackPlan::from_capture(
        DocumentRevision::initial(),
        &capture,
        &states,
        DEFAULT_RECONCILIATION_BYTES_IN_FLIGHT,
    )
    .unwrap();
    assert_eq!(plan.batches().len(), 4);
    assert!(plan
        .batches()
        .iter()
        .all(|batch| batch.byte_len() == DEFAULT_RECONCILIATION_BYTES_IN_FLIGHT));
    assert!(plan.batches().iter().all(|batch| {
        let region = batch.regions()[0];
        region.extent == [2_048, 512] && region.local_bounds.min_y() % GPU_UNDO_BLOCK_SIZE == 0
    }));
    assert_eq!(plan.byte_len(), 64 * 1024 * 1024);
}

#[test]
fn absent_resident_is_metadata_only() {
    let layout = AtlasLayout::document_default();
    let damage = RectU32::from_xywh(16, 16, 16, 16).unwrap();
    let (capture, states) = capture_and_states(layout, &[(TileCoord::new(0, 0), damage, false)]);
    let plan = GpuMirrorReadbackPlan::from_capture(
        DocumentRevision::initial(),
        &capture,
        &states,
        DEFAULT_RECONCILIATION_BYTES_IN_FLIGHT,
    )
    .unwrap();
    assert_eq!(plan.batches().len(), 1);
    assert_eq!(plan.byte_len(), 0);
    assert_eq!(plan.block_count(), 0);
    assert_eq!(plan.batches()[0].regions()[0].buffer_offset, None);
}

#[test]
fn budget_smaller_than_one_block_fails_before_planning() {
    let layout = AtlasLayout::document_default();
    let (capture, states) = capture_and_states(
        layout,
        &[(TileCoord::new(0, 0), RectU32::from_xywh(0, 0, 1, 1).unwrap(), true)],
    );
    assert_eq!(
        GpuMirrorReadbackPlan::from_capture(
            DocumentRevision::initial(),
            &capture,
            &states,
            GPU_UNDO_BLOCK_BYTES - 1,
        )
        .unwrap_err(),
        GpuMirrorPlanError::BatchBudgetTooSmall {
            requested: GPU_UNDO_BLOCK_BYTES - 1,
            minimum: GPU_UNDO_BLOCK_BYTES,
        }
    );
}

#[test]
fn completed_revisions_apply_in_registration_order() {
    let red = premultiplied(1.0, 0.0, 0.0, 1.0);
    let blue = premultiplied(0.0, 0.0, 1.0, 1.0);
    let (first, key) = one_tile_plan(1, true);
    let (second, _) = one_tile_plan(2, true);
    let mut reconciler =
        GpuMirrorReconciler::new(128, 128, 128, DocumentRevision::initial()).unwrap();
    reconciler.register_plan(&first).unwrap();
    reconciler.register_plan(&second).unwrap();

    assert!(reconciler
        .complete_batch(solid_patch(&second.batches()[0], blue))
        .unwrap()
        .is_empty());
    assert_eq!(reconciler.mirror().revision(), DocumentRevision::initial());
    assert_eq!(reconciler.mirror().tile_count(), 0);

    assert_eq!(
        reconciler.complete_batch(solid_patch(&first.batches()[0], red)).unwrap(),
        vec![DocumentRevision::from_raw(1), DocumentRevision::from_raw(2)]
    );
    assert_eq!(reconciler.mirror().revision().get(), 2);
    let pixel = reconciler.mirror().tile_pixels(key).unwrap()[16 * 128 + 16];
    assert_eq!(pixel, blue);
}

#[test]
fn snapshots_keep_exact_old_pixels_after_reconciliation_advances() {
    let red = premultiplied(1.0, 0.0, 0.0, 1.0);
    let green = premultiplied(0.0, 1.0, 0.0, 1.0);
    let (first, key) = one_tile_plan(1, true);
    let (second, _) = one_tile_plan(2, true);
    let mut reconciler =
        GpuMirrorReconciler::new(128, 128, 128, DocumentRevision::initial()).unwrap();
    reconciler.register_plan(&first).unwrap();
    reconciler.complete_batch(solid_patch(&first.batches()[0], red)).unwrap();
    let snapshot = reconciler.snapshot();

    reconciler.register_plan(&second).unwrap();
    reconciler.complete_batch(solid_patch(&second.batches()[0], green)).unwrap();
    assert_eq!(snapshot.revision().get(), 1);
    assert_eq!(snapshot.tile_pixels(key).unwrap()[16 * 128 + 16], red);
    assert_eq!(reconciler.mirror().tile_pixels(key).unwrap()[16 * 128 + 16], green);
}

#[test]
fn absent_revision_removes_the_sparse_cpu_tile() {
    let color = premultiplied(0.2, 0.4, 0.6, 1.0);
    let (present, key) = one_tile_plan(1, true);
    let (absent, _) = one_tile_plan(2, false);
    let mut reconciler =
        GpuMirrorReconciler::new(128, 128, 128, DocumentRevision::initial()).unwrap();
    reconciler.register_plan(&present).unwrap();
    reconciler.complete_batch(solid_patch(&present.batches()[0], color)).unwrap();
    assert!(reconciler.mirror().tile_pixels(key).is_some());

    reconciler.register_plan(&absent).unwrap();
    reconciler
        .complete_batch(solid_patch(&absent.batches()[0], LinearRgba::transparent()))
        .unwrap();
    assert_eq!(reconciler.mirror().revision().get(), 2);
    assert!(reconciler.mirror().tile_pixels(key).is_none());
}

#[test]
fn malformed_patch_does_not_advance_or_consume_its_batch() {
    let (plan, _) = one_tile_plan(1, true);
    let mut reconciler =
        GpuMirrorReconciler::new(128, 128, 128, DocumentRevision::initial()).unwrap();
    reconciler.register_plan(&plan).unwrap();
    let mut regions = solid_regions(&plan.batches()[0], LinearRgba::transparent());
    regions[0].pixels = Vec::new().into();
    let malformed = GpuMirrorPatchBatch::from_parts(
        plan.batches()[0].revision(),
        plan.batches()[0].index(),
        regions,
        plan.batches()[0].byte_len(),
    );
    assert!(matches!(
        reconciler.complete_batch(malformed),
        Err(GpuMirrorReconcileError::InvalidPixelCount { .. })
    ));
    assert_eq!(reconciler.mirror().revision(), DocumentRevision::initial());
    assert_eq!(reconciler.pending_revision_count(), 1);

    assert_eq!(
        reconciler
            .complete_batch(solid_patch(&plan.batches()[0], LinearRgba::transparent()))
            .unwrap(),
        vec![DocumentRevision::from_raw(1)]
    );
}

#[test]
fn plan_geometry_is_rejected_before_a_revision_is_registered() {
    let layout = AtlasLayout::document_default();
    let (capture, states) = capture_and_states(
        layout,
        &[(TileCoord::new(1, 0), RectU32::from_xywh(0, 0, 16, 16).unwrap(), true)],
    );
    let plan = GpuMirrorReadbackPlan::from_capture(
        DocumentRevision::from_raw(1),
        &capture,
        &states,
        DEFAULT_RECONCILIATION_BYTES_IN_FLIGHT,
    )
    .unwrap();
    let mut reconciler =
        GpuMirrorReconciler::new(128, 128, 128, DocumentRevision::initial()).unwrap();

    assert!(matches!(
        reconciler.register_plan(&plan),
        Err(GpuMirrorReconcileError::TileOutOfBounds(_))
    ));
    assert_eq!(reconciler.pending_revision_count(), 0);
    assert_eq!(reconciler.mirror().revision(), DocumentRevision::initial());
}
