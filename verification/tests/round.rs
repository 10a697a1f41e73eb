use gpu_document::document::{DocumentRevision, LayerId};
use gpu_document::gpu_atlas::{AtlasLayout, SparseAtlasPlanner};
use gpu_document::gpu_recovery_journal::GpuRecoveryJournal;
use gpu_document::gpu_round::{RoundBounds, RoundMaskError, RoundMaskScheduler};
use gpu_document::gpu_round_recovery::{
    replay_round_recovery_command, GpuRoundRecoveryBuildError, GpuRoundRecoveryCommand,
    RoundEvaluation, RoundPixelOutcome,
};
use gpu_document::raster::{LinearRgba, RectU32, TileCoord};
use gpu_document::raster_layer::RasterLayer;
use gpu_document::stroke::{
    PaintOperation, RoundBrushRecipeV1, RoundContact, RoundPathCommand, StrokeError,
    StrokeMaterial,
};

fn contact(center: [f32; 2], radius: f32, elapsed_micros: u64) -> RoundContact {
    RoundContact {
        center: center.map(f32::to_bits),
        radius: radius.to_bits(),
        elapsed_micros,
    }
}

fn bounds_on(canvas: [u32; 2]) -> impl Fn(RoundContact, RoundContact) -> RoundBounds {
    move |from, to| {
        let low = |axis: usize| {
            let low = |at: RoundContact| {
                f32::from_bits(at.center[axis]) as f64 - f32::from_bits(at.radius) as f64
            };
            (low(from).min(low(to)) - 0.5)
                .floor()
                .clamp(0.0, canvas[axis] as f64) as u32
        };
        let high = |axis: usize| {
            let high = |at: RoundContact| {
                f32::from_bits(at.center[axis]) as f64 + f32::from_bits(at.radius) as f64
            };
            (high(from).max(high(to)) + 0.5)
                .ceil()
                .clamp(0.0, canvas[axis] as f64) as u32
        };
        RoundBounds {
            min_x: low(0),
            min_y: low(1),
            max_x: high(0),
            max_y: high(1),
        }
    }
}

fn scheduler(layout: AtlasLayout, canvas: [u32; 2]) -> RoundMaskScheduler {
    RoundMaskScheduler::new(canvas, LayerId::from_raw(3), layout).unwrap()
}

fn local(center: [u32; 2], tile_origin: [u32; 2], slot: [u32; 2]) -> [f32; 2] {
    [
        slot[0] as f32 + f32::from_bits(center[0]) - tile_origin[0] as f32,
        slot[1] as f32 + f32::from_bits(center[1]) - tile_origin[1] as f32,
    ]
}

#[test]
fn a_dot_allocates_and_translates_one_tile() {
    let layout = AtlasLayout::document_default();
    let mut atlas = SparseAtlasPlanner::new(layout);
    let mut scheduler = scheduler(layout, [4_096, 4_096]);
    let dot = contact([140.0, 150.0], 4.0, 0);
    let batch = scheduler
        .schedule(
            &mut atlas,
            &vec![RoundPathCommand::Begin(dot)],
            &bounds_on([4_096, 4_096]),
        )
        .unwrap();
    assert_eq!(batch.primitives(), 1);
    assert_eq!(batch.touched_tiles().len(), 1);
    assert_eq!(batch.touched_tiles()[0].key.tile, TileCoord::new(1, 1));
    assert_eq!(batch.pages().len(), 1);
    let work = &batch.pages()[0].work[0];
    let instance = work.payload;
    let slot = work.slot.origin();
    assert_eq!(local(instance.from.center, instance.tile_origin, slot), [12.0, 22.0]);
    assert_eq!(local(instance.to.center, instance.tile_origin, slot), [12.0, 22.0]);
}

#[test]
fn one_wide_sweep_is_one_page_batch_across_many_tiles() {
    let layout = AtlasLayout::document_default();
    let mut atlas = SparseAtlasPlanner::new(layout);
    let mut scheduler = scheduler(layout, [4_096, 4_096]);
    let first = contact([20.0, 64.0], 10.0, 0);
    let last = contact([1_100.0, 64.0], 10.0, 1);
    let batch = scheduler
        .schedule(
            &mut atlas,
            &vec![
                RoundPathCommand::Begin(first),
                RoundPathCommand::Sweep {
                    from: first,
                    to: last,
                },
            ],
            &bounds_on([4_096, 4_096]),
        )
        .unwrap();
    assert_eq!(batch.touched_tiles().len(), 9);
    assert_eq!(batch.pages().len(), 1);
    assert_eq!(batch.pages()[0].work.len(), 10);
}

#[test]
fn page_count_grows_only_after_sixty_four_resident_tiles() {
    let layout = AtlasLayout::document_default();
    let mut atlas = SparseAtlasPlanner::new(layout);
    let mut scheduler = scheduler(layout, [16_384, 256]);
    let first = contact([1.0, 64.0], 1.0, 0);
    let last = contact([8_300.0, 64.0], 1.0, 1);
    let batch = scheduler
        .schedule(
            &mut atlas,
            &vec![
                RoundPathCommand::Begin(first),
                RoundPathCommand::Sweep {
                    from: first,
                    to: last,
                },
            ],
            &bounds_on([16_384, 256]),
        )
        .unwrap();
    assert_eq!(batch.touched_tiles().len(), 65);
    assert_eq!(batch.pages().len(), 2);
    assert_eq!(atlas.retained_page_count(), 2);
}

#[test]
fn incremental_commands_preserve_scheduler_continuity() {
    let layout = AtlasLayout::document_default();
    let mut atlas = SparseAtlasPlanner::new(layout);
    let mut scheduler = scheduler(layout, [512, 512]);
    let bounds = bounds_on([512, 512]);
    let first = contact([10.0, 10.0], 2.0, 0);
    let second = contact([30.0, 10.0], 3.0, 1);
    scheduler
        .schedule(&mut atlas, &vec![RoundPathCommand::Begin(first)], &bounds)
        .unwrap();
    assert!(scheduler.is_active());
    scheduler
        .schedule(
            &mut atlas,
            &vec![RoundPathCommand::Sweep {
                from: first,
                to: second,
            }],
            &bounds,
        )
        .unwrap();
    scheduler
        .schedule(
            &mut atlas,
            &vec![RoundPathCommand::End {
                at: second,
                elapsed_micros: 2,
            }],
            &bounds,
        )
        .unwrap();
    assert!(!scheduler.is_active());
}

#[test]
fn invalid_batch_changes_neither_scheduler_nor_atlas() {
    let layout = AtlasLayout::document_default();
    let mut atlas = SparseAtlasPlanner::new(layout);
    let mut scheduler = scheduler(layout, [512, 512]);
    let first = contact([10.0, 10.0], 2.0, 0);
    let wrong = contact([20.0, 10.0], 2.0, 1);
    let result = scheduler.schedule(
        &mut atlas,
        &vec![
            RoundPathCommand::Begin(first),
            RoundPathCommand::End {
                at: wrong,
                elapsed_micros: 2,
            },
        ],
        &bounds_on([512, 512]),
    );
    assert!(matches!(
        result,
        Err(RoundMaskError::Stroke(StrokeError::DiscontinuousPath))
    ));
    assert!(!scheduler.is_active());
    assert_eq!(atlas.resident_tile_count(), 0);
    assert_eq!(atlas.retained_page_count(), 0);
}

#[test]
fn edge_tiles_clip_instance_and_damage_to_the_canvas() {
    let layout = AtlasLayout::new(256, 128, 1).unwrap();
    let mut atlas = SparseAtlasPlanner::new(layout);
    let mut scheduler = scheduler(layout, [150, 140]);
    let edge = contact([149.0, 139.0], 10.0, 0);
    let batch = scheduler
        .schedule(
            &mut atlas,
            &vec![RoundPathCommand::Begin(edge)],
            &bounds_on([150, 140]),
        )
        .unwrap();
    assert_eq!(batch.touched_tiles().len(), 1);
    assert_eq!(batch.touched_tiles()[0].key.tile, TileCoord::new(1, 1));
    assert_eq!(batch.touched_tiles()[0].local_damage.max_x(), 22);
    assert_eq!(batch.touched_tiles()[0].local_damage.max_y(), 12);
    let instance = batch.pages()[0].work[0].payload;
    assert_eq!(instance.clip_max, [22, 12]);
    let inside = |x: u32, y: u32| {
        instance.clip_min[0] <= x
            && x < instance.clip_max[0]
            && instance.clip_min[1] <= y
            && y < instance.clip_max[1]
    };
    assert!(inside(21, 11));
    assert!(!inside(22, 11));
}

#[test]
fn layout_mismatch_fails_before_allocation() {
    let expected = AtlasLayout::document_default();
    let actual = AtlasLayout::new(512, 128, 1).unwrap();
    let mut atlas = SparseAtlasPlanner::new(actual);
    let mut scheduler = scheduler(expected, [512, 512]);
    let result = scheduler.schedule(
        &mut atlas,
        &vec![RoundPathCommand::Begin(contact([10.0; 2], 2.0, 0))],
        &bounds_on([512, 512]),
    );
    assert!(matches!(result, Err(RoundMaskError::LayoutMismatch { .. })));
    assert_eq!(atlas.resident_tile_count(), 0);
}

#[test]
fn buffer_growth_uses_power_of_two_capacity() {
    assert_eq!(5_000_u64.checked_next_power_of_two(), Some(8_192));
}

fn dot_commands(at: RoundContact) -> Vec<RoundPathCommand> {
    vec![
        RoundPathCommand::Begin(at),
        RoundPathCommand::End {
            at,
            elapsed_micros: at.elapsed_micros + 1,
        },
    ]
}

fn paint(color: [f32; 3], opacity: f32, flow: f32) -> StrokeMaterial {
    StrokeMaterial::paint(color.map(f32::to_bits), opacity.to_bits(), flow.to_bits()).unwrap()
}

fn recipe(material: StrokeMaterial) -> RoundBrushRecipeV1 {
    RoundBrushRecipeV1::with_minimum_pressure_fraction(
        material,
        4.0_f32.to_bits(),
        1.0_f32.to_bits(),
    )
    .unwrap()
}

fn premultiplied(r: f32, g: f32, b: f32, a: f32) -> LinearRgba {
    LinearRgba::from_bits(r.to_bits(), g.to_bits(), b.to_bits(), a.to_bits())
}

fn apply(material: StrokeMaterial, current: LinearRgba, mask: f32) -> LinearRgba {
    let amount = f32::from_bits(material.opacity()) * mask;
    let keep = 1.0 - amount;
    let source = match material.operation() {
        PaintOperation::SourceOver => {
            let color = material.color().map(f32::from_bits);
            [color[0] * amount, color[1] * amount, color[2] * amount, amount]
        }
        PaintOperation::DestinationOut => [0.0; 4],
    };
    premultiplied(
        source[0] + f32::from_bits(current.r) * keep,
        source[1] + f32::from_bits(current.g) * keep,
        source[2] + f32::from_bits(current.b) * keep,
        source[3] + f32::from_bits(current.a) * keep,
    )
}

fn dot_evaluation(command: &GpuRoundRecoveryCommand, layer: &RasterLayer) -> RoundEvaluation {
    let at = match command.commands()[0] {
        RoundPathCommand::Begin(at) => at,
        _ => unreachable!(),
    };
    let [x, y] = at.center.map(f32::from_bits);
    let radius = f32::from_bits(at.radius);
    let low = |center: f32| (center - radius - 1.0).floor().max(0.0) as u32;
    let high = |center: f32, size: u32| ((center + radius + 1.0).ceil() as u32).min(size);
    let bounds = RectU32::from_min_max(
        low(x),
        low(y),
        high(x, layer.width()),
        high(y, layer.height()),
    );
    let mut outcomes = Vec::new();
    if let Some(bounds) = bounds {
        for py in bounds.min_y()..bounds.max_y() {
            for px in bounds.min_x()..bounds.max_x() {
                let distance = (px as f32 + 0.5 - x).hypot(py as f32 + 0.5 - y);
                outcomes.push(if distance <= radius {
                    let current = layer.pixel(px, py).unwrap();
                    RoundPixelOutcome::Paint(apply(command.recipe().material(), current, 1.0))
                } else {
                    RoundPixelOutcome::Untouched
                });
            }
        }
    }
    RoundEvaluation { bounds, outcomes }
}

#[test]
fn build_rejects_incomplete_density_and_backward_time_without_losing_commands() {
    let layer = LayerId::from_raw(1);
    let at = contact([10.5, 10.5], 2.0, 10);
    let incomplete = vec![RoundPathCommand::Begin(at)];
    let failure =
        GpuRoundRecoveryCommand::new(layer, recipe(paint([0.0; 3], 1.0, 1.0)), incomplete)
            .unwrap_err();
    assert_eq!(failure.error, GpuRoundRecoveryBuildError::IncompletePath);
    assert_eq!(failure.commands, vec![RoundPathCommand::Begin(at)]);

    let density =
        GpuRoundRecoveryCommand::new(layer, recipe(paint([0.0; 3], 1.0, 0.5)), dot_commands(at))
            .unwrap_err();
    assert_eq!(
        density.error,
        GpuRoundRecoveryBuildError::UnsupportedFlow(0.5_f32.to_bits())
    );

    let mut backward = dot_commands(at);
    backward[1] = RoundPathCommand::End {
        at,
        elapsed_micros: 9,
    };
    let failure =
        GpuRoundRecoveryCommand::new(layer, recipe(paint([0.0; 3], 1.0, 1.0)), backward)
            .unwrap_err();
    assert_eq!(
        failure.error,
        GpuRoundRecoveryBuildError::TimestampMovedBackward
    );
}

#[test]
fn cpu_replay_applies_full_flow_paint_and_erase_without_allocating_empty_erase() {
    let layer = LayerId::from_raw(1);
    let at = contact([10.5, 10.5], 2.0, 0);
    let painted = GpuRoundRecoveryCommand::new(
        layer,
        recipe(paint([0.2, 0.4, 0.8], 0.5, 1.0)),
        dot_commands(at),
    )
    .unwrap();
    let erase = GpuRoundRecoveryCommand::new(
        layer,
        recipe(StrokeMaterial::eraser(0.25_f32.to_bits(), 1.0_f32.to_bits()).unwrap()),
        dot_commands(at),
    )
    .unwrap();
    let mut raster = RasterLayer::new(32, 32, 16).unwrap();

    let paint_replay =
        replay_round_recovery_command(&mut raster, &painted, &dot_evaluation).unwrap();
    assert!(paint_replay.damage.is_some());
    assert!(paint_replay.pixels_changed > 0);
    assert_eq!(raster.pixel(10, 10), Some(premultiplied(0.1, 0.2, 0.4, 0.5)));

    let erase_replay =
        replay_round_recovery_command(&mut raster, &erase, &dot_evaluation).unwrap();
    assert!(erase_replay.damage.is_some());
    assert_eq!(
        raster.pixel(10, 10),
        Some(premultiplied(0.075, 0.15, 0.3, 0.375))
    );

    let mut empty = RasterLayer::new(32, 32, 16).unwrap();
    let empty_replay =
        replay_round_recovery_command(&mut empty, &erase, &dot_evaluation).unwrap();
    assert!(empty_replay.damage.is_none());
    assert_eq!(empty.allocated_tile_count(), 0);
}

#[test]
fn journal_snapshot_replays_round_commands_in_revision_order() {
    let layer = LayerId::from_raw(1);
    let first = GpuRoundRecoveryCommand::new(
        layer,
        recipe(paint([1.0, 0.0, 0.0], 0.5, 1.0)),
        dot_commands(contact([10.5, 10.5], 2.0, 0)),
    )
    .unwrap();
    let second = GpuRoundRecoveryCommand::new(
        layer,
        recipe(paint([0.0, 0.0, 1.0], 0.5, 1.0)),
        dot_commands(contact([10.5, 10.5], 2.0, 2)),
    )
    .unwrap();
    let mut journal = GpuRecoveryJournal::new(DocumentRevision::initial(), 4, 16_384).unwrap();
    journal
        .record(DocumentRevision::from_raw(1), first.retained_byte_len(), first)
        .unwrap();
    journal
        .record(DocumentRevision::from_raw(2), second.retained_byte_len(), second)
        .unwrap();
    let snapshot = journal.snapshot();
    let mut raster = RasterLayer::new(32, 32, 16).unwrap();
    for record in snapshot.records() {
        replay_round_recovery_command(&mut raster, record.command(), &dot_evaluation).unwrap();
    }

    assert_eq!(snapshot.target_revision(), DocumentRevision::from_raw(2));
    assert_eq!(raster.pixel(10, 10), Some(premultiplied(0.25, 0.0, 0.5, 0.75)));
}
