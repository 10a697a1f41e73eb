use gpu_document::document::{DocumentRevision, LayerId};
use gpu_document::gpu_atlas::{AtlasLayout, LayerTileKey, SparseAtlasPlanner};
use gpu_document::gpu_cpu_mirror::{
    GpuCpuMirror, GpuCpuMirrorSnapshot, GpuMirrorPatchBatch, GpuMirrorPatchRegion,
};
use gpu_document::gpu_document_mirror::{GpuMirrorBatchPlan, GpuMirrorReadbackPlan};
use gpu_document::gpu_document_undo::{
    GpuMementoResidentState, GpuUndoCapturePlan, GPU_UNDO_BLOCK_BYTES,
};
use gpu_document::gpu_layer_recovery::{
    replay_exact_layer_recovery_command, GpuExactLayerRecoveryBuildError,
    GpuExactLayerRecoveryCommand, GpuExactLayerRecoveryReplayError,
};
use gpu_document::gpu_raster_recovery::{
    GpuExactRasterRecoveryBuildError, GpuExactRasterRecoveryCommand,
    GpuExactRasterRecoveryMirrorError,
};
use gpu_document::gpu_raster_replay::replay_exact_raster_recovery_command;
use gpu_document::gpu_recovery_replay::{replay_gpu_raster_recovery, GpuRasterRecoveryCommand};
use gpu_document::gpu_recovery_timeline::GpuRecoveryTimeline;
use gpu_document::gpu_round_recovery::{
    GpuRoundRecoveryCommand, RoundEvaluation, RoundPixelOutcome,
};
use gpu_document::gpu_round_target::ActiveRoundMaskTile;
use gpu_document::raster::{LinearRgba, RectU32, TileCoord};
use gpu_document::raster_layer::RasterLayer;
use gpu_document::stroke::{RoundBrushRecipeV1, RoundContact, RoundPathCommand, StrokeMaterial};
use std::sync::Arc;

fn premultiplied(r: f32, g: f32, b: f32, a: f32) -> LinearRgba {
    LinearRgba::from_bits(r.to_bits(), g.to_bits(), b.to_bits(), a.to_bits())
}

fn half_red() -> LinearRgba {
    premultiplied(0.5, 0.0, 0.0, 0.5)
}

fn deep_blue() -> LinearRgba {
    premultiplied(0.0, 0.0, 0.75, 0.75)
}

fn region(
    layer: LayerId,
    tile: TileCoord,
    bounds: RectU32,
    initialized: bool,
    pixel: LinearRgba,
) -> GpuMirrorPatchRegion {
    let count = if initialized { bounds.area() as usize } else { 0 };
    GpuMirrorPatchRegion {
        key: LayerTileKey::new(layer, tile),
        local_bounds: bounds,
        initialized,
        pixels: vec![pixel; count].into(),
    }
}

fn patch_batch(plan: &GpuMirrorBatchPlan, pixel: LinearRgba) -> GpuMirrorPatchBatch {
    let regions = plan
        .regions()
        .iter()
        .map(|expected| GpuMirrorPatchRegion {
            key: expected.key,
            local_bounds: expected.local_bounds,
            initialized: expected.initialized,
            pixels: if expected.initialized {
                vec![pixel; expected.local_bounds.area() as usize].into()
            } else {
                Vec::new().into()
            },
        })
        .collect();
    GpuMirrorPatchBatch::from_parts(plan.revision(), plan.index(), regions, plan.byte_len())
}

#[test]
fn construction_is_canonical_and_returns_pixels_on_validation_failure() {
    let layer = LayerId::from_raw(1);
    let tile = TileCoord::new(0, 0);
    let first = region(
        layer,
        tile,
        RectU32::from_xywh(16, 0, 16, 16).unwrap(),
        true,
        half_red(),
    );
    let second = region(
        layer,
        tile,
        RectU32::from_xywh(0, 0, 16, 16).unwrap(),
        true,
        deep_blue(),
    );
    let command = GpuExactRasterRecoveryCommand::from_regions(32, vec![first, second]).unwrap();
    assert_eq!(command.layer(), layer);
    assert_eq!(command.tile_count(), 1);
    assert_eq!(command.region_count(), 2);
    assert_eq!(command.pixel_count(), 512);
    assert!(command.retained_byte_len() >= 512 * 16);
    let cloned = command.duplicate();
    assert!(Arc::ptr_eq(
        command.region_pixels(0, 0).unwrap(),
        cloned.region_pixels(0, 0).unwrap()
    ));

    let overlap = vec![
        region(
            layer,
            tile,
            RectU32::from_xywh(0, 0, 16, 16).unwrap(),
            true,
            half_red(),
        ),
        region(
            layer,
            tile,
            RectU32::from_xywh(0, 0, 16, 16).unwrap(),
            true,
            deep_blue(),
        ),
    ];
    let failure = GpuExactRasterRecoveryCommand::from_regions(32, overlap).unwrap_err();
    assert_eq!(
        failure.error,
        GpuExactRasterRecoveryBuildError::OverlappingRegions(tile)
    );
    assert_eq!(failure.regions.len(), 2);
    assert_eq!(failure.regions[0].pixels[0], half_red());
}

#[test]
fn replay_patches_exact_bits_and_preserves_untouched_pixels() {
    let layer_id = LayerId::from_raw(7);
    let tile = TileCoord::new(0, 0);
    let mut layer = RasterLayer::new(64, 32, 32).unwrap();
    let gesture = layer.begin_gesture().unwrap();
    layer.set_pixel(gesture, 1, 1, half_red()).unwrap();
    layer.set_pixel(gesture, 20, 4, half_red()).unwrap();
    layer.commit_gesture(gesture).unwrap();
    layer.clear_history();

    let command = GpuExactRasterRecoveryCommand::from_regions(
        32,
        vec![region(
            layer_id,
            tile,
            RectU32::from_xywh(16, 0, 16, 16).unwrap(),
            true,
            deep_blue(),
        )],
    )
    .unwrap();
    let replay = replay_exact_raster_recovery_command(layer_id, &mut layer, &command).unwrap();

    assert_eq!(layer.pixel(1, 1), Some(half_red()));
    assert_eq!(layer.pixel(20, 4), Some(deep_blue()));
    assert_eq!(replay.pixels_changed, 256);
    assert_eq!(replay.tiles_written, 1);
    assert_eq!(replay.tiles_removed, 0);
    assert_eq!(layer.undo_depth(), 0);
}

#[test]
fn complete_mirror_revision_accepts_out_of_order_batches_and_rejects_duplicates() {
    let layout = AtlasLayout::new(64, 32, 1).unwrap();
    let layer = LayerId::from_raw(8);
    let key = LayerTileKey::new(layer, TileCoord::new(0, 0));
    let mut atlas = SparseAtlasPlanner::new(layout);
    let slot = atlas.allocate(key).unwrap().slot;
    let capture = GpuUndoCapturePlan::from_active_tiles(
        layout,
        &vec![ActiveRoundMaskTile {
            key,
            slot,
            local_damage: RectU32::from_xywh(0, 0, 32, 32).unwrap(),
        }],
    )
    .unwrap();
    let revision = DocumentRevision::from_raw(4);
    let plan = GpuMirrorReadbackPlan::from_capture(
        revision,
        &capture,
        &vec![GpuMementoResidentState {
            key,
            slot,
            document_initialized: true,
            memento_initialized: true,
        }],
        2 * GPU_UNDO_BLOCK_BYTES,
    )
    .unwrap();
    assert_eq!(plan.batches().len(), 2);
    let first = patch_batch(&plan.batches()[0], half_red());
    let second = patch_batch(&plan.batches()[1], deep_blue());

    let command = GpuExactRasterRecoveryCommand::from_mirror_revision(
        &plan,
        vec![second.clone(), first.clone()],
    )
    .unwrap();
    assert_eq!(command.layer(), layer);
    assert_eq!(command.region_count(), 2);
    assert_eq!(command.pixel_count(), 1_024);

    let failure =
        GpuExactRasterRecoveryCommand::from_mirror_revision(&plan, vec![first.clone(), first])
            .unwrap_err();
    assert_eq!(
        failure.error,
        GpuExactRasterRecoveryMirrorError::DuplicateBatch(0)
    );
    assert_eq!(failure.batches.len(), 2);
}

#[test]
fn padded_edge_blocks_clip_to_the_canvas_and_absence_removes_the_tile() {
    let layer_id = LayerId::from_raw(9);
    let edge = TileCoord::new(1, 1);
    let block = RectU32::from_xywh(0, 0, 16, 16).unwrap();
    let present = GpuExactRasterRecoveryCommand::from_regions(
        16,
        vec![region(layer_id, edge, block, true, deep_blue())],
    )
    .unwrap();
    let mut layer = RasterLayer::new(18, 18, 16).unwrap();
    let replay = replay_exact_raster_recovery_command(layer_id, &mut layer, &present).unwrap();
    assert_eq!(replay.pixels_changed, 4);
    assert_eq!(layer.pixel(17, 17), Some(deep_blue()));
    assert_eq!(layer.allocated_tile_count(), 1);

    let absent = GpuExactRasterRecoveryCommand::from_regions(
        16,
        vec![region(
            layer_id,
            edge,
            RectU32::from_xywh(0, 0, 16, 16).unwrap(),
            false,
            half_red(),
        )],
    )
    .unwrap();
    let replay = replay_exact_raster_recovery_command(layer_id, &mut layer, &absent).unwrap();
    assert_eq!(replay.pixels_changed, 4);
    assert_eq!(replay.tiles_written, 0);
    assert_eq!(replay.tiles_removed, 1);
    assert_eq!(layer.allocated_tile_count(), 0);
}

fn red() -> LinearRgba {
    premultiplied(1.0, 0.0, 0.0, 1.0)
}

fn blue() -> LinearRgba {
    premultiplied(0.0, 0.0, 1.0, 1.0)
}

fn paint(layer: &mut RasterLayer, x: u32, y: u32, color: LinearRgba) {
    let gesture = layer.begin_gesture().unwrap();
    layer.set_pixel(gesture, x, y, color).unwrap();
    layer.commit_gesture(gesture).unwrap();
}

#[test]
fn capture_is_canonical_shared_and_immutable() {
    let layer_id = LayerId::from_raw(7);
    let mut source = RasterLayer::new(32, 32, 16).unwrap();
    paint(&mut source, 20, 4, red());
    paint(&mut source, 4, 20, blue());
    source.clear_history();

    let command = GpuExactLayerRecoveryCommand::from_raster(layer_id, &source).unwrap();
    assert_eq!(command.layer(), layer_id);
    assert_eq!(command.dimensions(), [32, 32]);
    assert_eq!(command.tile_size(), 16);
    assert_eq!(command.tile_count(), 2);
    assert_eq!(
        command.tiles().iter().map(|tile| tile.coord).collect::<Vec<_>>(),
        vec![TileCoord::new(1, 0), TileCoord::new(0, 1)]
    );

    let source_tiles = source.checkpoint_tiles();
    for command_tile in command.tiles().iter() {
        let source_tile =
            source_tiles.iter().find(|tile| tile.coord == command_tile.coord).unwrap();
        assert!(Arc::ptr_eq(&command_tile.pixels, &source_tile.pixels));
    }

    paint(&mut source, 20, 4, blue());
    let recovered = command.raster_layer().unwrap();
    assert_eq!(recovered.pixel(20, 4), Some(red()));
    assert_eq!(source.pixel(20, 4), Some(blue()));
    let recovered_tiles = recovered.checkpoint_tiles();
    for command_tile in command.tiles().iter() {
        let recovered_tile =
            recovered_tiles.iter().find(|tile| tile.coord == command_tile.coord).unwrap();
        assert!(Arc::ptr_eq(&command_tile.pixels, &recovered_tile.pixels));
    }
}

#[test]
fn replay_replaces_the_entire_sparse_layer_transactionally() {
    let layer_id = LayerId::from_raw(3);
    let empty = RasterLayer::new(32, 32, 16).unwrap();
    let command = GpuExactLayerRecoveryCommand::from_raster(layer_id, &empty).unwrap();
    let mut target = RasterLayer::new(32, 32, 16).unwrap();
    paint(&mut target, 4, 4, red());

    let replay = replay_exact_layer_recovery_command(layer_id, &mut target, &command).unwrap();

    assert_eq!(replay.tiles_installed, 0);
    assert_eq!(replay.previous_tiles_discarded, 1);
    assert_eq!(target.allocated_tile_count(), 0);
    assert_eq!(target.undo_depth(), 0);
}

#[test]
fn capture_rejects_nonfinite_pixels_and_replay_rejects_geometry() {
    let layer_id = LayerId::from_raw(1);
    let mut active = RasterLayer::new(16, 16, 16).unwrap();
    let active_gesture = active.begin_gesture().unwrap();
    active.set_pixel(active_gesture, 1, 1, red()).unwrap();
    assert_eq!(
        GpuExactLayerRecoveryCommand::from_raster(layer_id, &active),
        Err(GpuExactLayerRecoveryBuildError::GestureActive)
    );
    active.cancel_gesture(active_gesture).unwrap();

    let mut invalid = RasterLayer::new(16, 16, 16).unwrap();
    let mut pixels = vec![LinearRgba::transparent(); 16 * 16];
    pixels[0] = premultiplied(f32::NAN, 0.0, 0.0, 1.0);
    invalid.restore_tile(TileCoord::new(0, 0), pixels).unwrap();
    assert_eq!(
        GpuExactLayerRecoveryCommand::from_raster(layer_id, &invalid),
        Err(GpuExactLayerRecoveryBuildError::NonFinitePixel {
            tile: TileCoord::new(0, 0),
            index: 0,
        })
    );

    let valid = RasterLayer::new(16, 16, 16).unwrap();
    let command = GpuExactLayerRecoveryCommand::from_raster(layer_id, &valid).unwrap();
    let mut wrong_geometry = RasterLayer::new(32, 16, 16).unwrap();
    assert!(matches!(
        replay_exact_layer_recovery_command(layer_id, &mut wrong_geometry, &command),
        Err(GpuExactLayerRecoveryReplayError::GeometryMismatch { .. })
    ));
    assert_eq!([wrong_geometry.width(), wrong_geometry.height()], [32, 16]);
}

fn dot(layer: LayerId, color: [f32; 3]) -> GpuRoundRecoveryCommand {
    let at = RoundContact {
        center: [8.5_f32.to_bits(), 8.5_f32.to_bits()],
        radius: 2.0_f32.to_bits(),
        elapsed_micros: 0,
    };
    let material = StrokeMaterial::paint(
        [color[0].to_bits(), color[1].to_bits(), color[2].to_bits()],
        1.0_f32.to_bits(),
        1.0_f32.to_bits(),
    )
    .unwrap();
    GpuRoundRecoveryCommand::new(
        layer,
        RoundBrushRecipeV1::with_minimum_pressure_fraction(
            material,
            4.0_f32.to_bits(),
            1.0_f32.to_bits(),
        )
        .unwrap(),
        vec![
            RoundPathCommand::Begin(at),
            RoundPathCommand::End { at, elapsed_micros: 1 },
        ],
    )
    .unwrap()
}

/// A four pixel wide disc around (8.5, 8.5), fully covered and opaque.
fn disc(command: &GpuRoundRecoveryCommand, _layer: &RasterLayer) -> RoundEvaluation {
    let color = command.recipe().material().color();
    let paint = LinearRgba::from_bits(color[0], color[1], color[2], 1.0_f32.to_bits());
    let bounds = RectU32::from_min_max(6, 6, 11, 11).unwrap();
    let mut outcomes = Vec::new();
    for y in 6..11 {
        for x in 6..11 {
            let dx = x as f32 + 0.5 - 8.5;
            let dy = y as f32 + 0.5 - 8.5;
            if dx * dx + dy * dy < 4.0 {
                outcomes.push(RoundPixelOutcome::Paint(paint));
            } else {
                outcomes.push(RoundPixelOutcome::Untouched);
            }
        }
    }
    RoundEvaluation { bounds: Some(bounds), outcomes }
}

fn empty_base() -> GpuCpuMirrorSnapshot {
    GpuCpuMirror::new(32, 32, 16, DocumentRevision::initial()).unwrap().snapshot()
}

fn record(
    timeline: &mut GpuRecoveryTimeline<GpuRasterRecoveryCommand>,
    revision: u64,
    command: impl Into<GpuRasterRecoveryCommand>,
) {
    let command = command.into();
    timeline
        .record(
            DocumentRevision::from_raw(revision),
            command.retained_byte_len(),
            command,
        )
        .unwrap();
}

#[test]
fn simulated_device_loss_replays_round_then_exact_pixels_to_the_target_revision() {
    let layer = LayerId::from_raw(1);
    let mut timeline = GpuRecoveryTimeline::new(empty_base(), 8, 1_000_000).unwrap();
    record(&mut timeline, 1, dot(layer, [1.0, 0.0, 0.0]));
    let exact_blue = premultiplied(0.0, 0.0, 0.75, 0.75);
    let exact = GpuExactRasterRecoveryCommand::from_regions(
        16,
        vec![GpuMirrorPatchRegion {
            key: LayerTileKey::new(layer, TileCoord::new(0, 0)),
            local_bounds: RectU32::from_xywh(0, 0, 16, 16).unwrap(),
            initialized: true,
            pixels: vec![exact_blue; 16 * 16].into(),
        }],
    )
    .unwrap();
    record(&mut timeline, 2, exact);

    let recovered = replay_gpu_raster_recovery(&timeline.snapshot(), layer, &disc).unwrap();
    assert_eq!(recovered.revision(), DocumentRevision::from_raw(2));
    assert_eq!(recovered.raster().pixel(8, 8), Some(exact_blue));
    assert_eq!(recovered.raster().undo_depth(), 0);
    assert_eq!(recovered.stats().commands_seen, 2);
    assert_eq!(recovered.stats().commands_applied, 2);
    assert_eq!(recovered.stats().commands_skipped, 0);
    assert!(recovered.stats().pixels_changed > 0);
}

#[test]
fn per_layer_replay_skips_other_layers_and_exact_absence_reclaims_storage() {
    let selected = LayerId::from_raw(1);
    let other = LayerId::from_raw(2);
    let mut timeline = GpuRecoveryTimeline::new(empty_base(), 8, 1_000_000).unwrap();
    record(&mut timeline, 1, dot(selected, [1.0, 0.0, 0.0]));
    record(&mut timeline, 2, dot(other, [0.0, 1.0, 0.0]));
    let absent = GpuExactRasterRecoveryCommand::from_regions(
        16,
        vec![GpuMirrorPatchRegion {
            key: LayerTileKey::new(selected, TileCoord::new(0, 0)),
            local_bounds: RectU32::from_xywh(0, 0, 16, 16).unwrap(),
            initialized: false,
            pixels: Vec::new().into(),
        }],
    )
    .unwrap();
    record(&mut timeline, 3, absent);

    let recovered = replay_gpu_raster_recovery(&timeline.snapshot(), selected, &disc).unwrap();
    assert_eq!(recovered.revision(), DocumentRevision::from_raw(3));
    assert_eq!(recovered.raster().allocated_tile_count(), 0);
    assert_eq!(recovered.stats().commands_seen, 3);
    assert_eq!(recovered.stats().commands_applied, 2);
    assert_eq!(recovered.stats().commands_skipped, 1);
    assert_eq!(recovered.stats().tiles_removed, 1);
}

#[test]
fn a_second_replay_changes_nothing() {
    let layer_id = LayerId::from_raw(7);
    let mut layer = RasterLayer::new(64, 32, 32).unwrap();
    let gesture = layer.begin_gesture().unwrap();
    layer.set_pixel(gesture, 40, 4, half_red()).unwrap();
    layer.commit_gesture(gesture).unwrap();
    let command = GpuExactRasterRecoveryCommand::from_regions(
        32,
        vec![
            region(
                layer_id,
                TileCoord::new(0, 0),
                RectU32::from_xywh(16, 0, 16, 16).unwrap(),
                true,
                deep_blue(),
            ),
            region(
                layer_id,
                TileCoord::new(1, 0),
                RectU32::from_xywh(0, 0, 16, 16).unwrap(),
                false,
                deep_blue(),
            ),
        ],
    )
    .unwrap();
    let first = replay_exact_raster_recovery_command(layer_id, &mut layer, &command).unwrap();
    assert_eq!(first.pixels_changed, 257);
    assert_eq!((first.tiles_written, first.tiles_removed), (1, 1));
    let second = replay_exact_raster_recovery_command(layer_id, &mut layer, &command).unwrap();
    assert!(second.damage.is_none());
    assert_eq!(second.pixels_changed, 0);
    assert_eq!((second.tiles_written, second.tiles_removed), (0, 0));
    assert_eq!(layer.pixel(16, 0), Some(deep_blue()));
    assert_eq!(layer.pixel(40, 4), Some(LinearRgba::transparent()));
}

#[test]
fn regions_make_one_command_in_any_order() {
    let layer = LayerId::from_raw(3);
    let parts = || {
        let at = |x: u32, y: u32, left: u32, initialized: bool| {
            region(
                layer,
                TileCoord::new(x, y),
                RectU32::from_xywh(left, 0, 16, 16).unwrap(),
                initialized,
                half_red(),
            )
        };
        vec![
            at(1, 0, 16, true),
            at(0, 1, 0, false),
            at(1, 0, 0, true),
            at(0, 0, 0, true),
            at(0, 1, 0, false),
        ]
    };
    let one = GpuExactRasterRecoveryCommand::from_regions(32, parts()).unwrap();
    assert_eq!(one.tile_count(), 3);
    assert_eq!(one.region_count(), 5);
    assert_eq!(one.pixel_count(), 768);
    assert_eq!(one.retained_byte_len(), 56 + 3 * 32 + 5 * 32 + 768 * 16);
    let mut backward = parts();
    backward.reverse();
    let other = GpuExactRasterRecoveryCommand::from_regions(32, backward).unwrap();
    assert_eq!(one, other);
    let mut turned = parts();
    turned.rotate_left(2);
    let third = GpuExactRasterRecoveryCommand::from_regions(32, turned).unwrap();
    assert_eq!(one, third);
}
