use gpu_document::brush::{
    contact_step, BladeContact, BrushError, BrushSample, PaletteKnifeBrush,
};
use gpu_document::gpu_blade_stroke::{
    BladeGeometry, BladePose, BladeSweepOutline, ContinuousBladeError, ContinuousBladeStroke,
    GpuStrokeBatch,
};
use gpu_document::gpu_stroke::{
    commit_source_over_tiles, GpuStrokeCommitError, GpuStrokeVertex, SourceOverTile,
    StrokeTileDamage,
};
use gpu_document::gpu_stroke_target::{
    valid_premultiplied_color, validate_vertices, StrokeTargetError,
};
use gpu_document::raster::{LinearRgba, RectU32, TileCoord};
use gpu_document::raster_layer::{RasterError, RasterLayer};

fn color(r: f32, g: f32, b: f32, a: f32) -> LinearRgba {
    LinearRgba::from_bits(r.to_bits(), g.to_bits(), b.to_bits(), a.to_bits())
}

fn straight(r: f32, g: f32, b: f32, a: f32) -> LinearRgba {
    color(r * a, g * a, b * a, a)
}

fn source_over(source: LinearRgba, destination: LinearRgba) -> LinearRgba {
    let keep = 1.0 - f32::from_bits(source.a);
    let blend = |s: u32, d: u32| (f32::from_bits(s) + f32::from_bits(d) * keep).to_bits();
    LinearRgba::from_bits(
        blend(source.r, destination.r),
        blend(source.g, destination.g),
        blend(source.b, destination.b),
        blend(source.a, destination.a),
    )
}

fn layer() -> RasterLayer {
    RasterLayer::new(8, 8, 4).unwrap()
}

fn tile_with_pixel(coord: TileCoord, x: u32, y: u32, pixel: LinearRgba) -> SourceOverTile {
    let mut pixels = vec![LinearRgba::transparent(); 16];
    pixels[y as usize * 4 + x as usize] = pixel;
    SourceOverTile::new(coord, RectU32::from_xywh(x, y, 1, 1).unwrap(), pixels)
}

#[test]
fn opaque_readback_commits_as_one_undoable_gesture() {
    let mut layer = layer();
    let red = straight(0.8, 0.1, 0.05, 1.0);
    let damage = commit_source_over_tiles(
        &mut layer,
        512.0_f32.to_bits(),
        &vec![
            tile_with_pixel(TileCoord::new(0, 0), 2, 3, red),
            tile_with_pixel(TileCoord::new(1, 0), 1, 2, red),
        ],
        &source_over,
    )
    .unwrap()
    .unwrap();

    assert_eq!(layer.pixel(2, 3), Some(red));
    assert_eq!(layer.pixel(5, 2), Some(red));
    assert_eq!(damage.tile_regions().len(), 2);
    assert_eq!(damage.tile(TileCoord::new(1, 0)), RectU32::from_xywh(5, 2, 1, 1));
    assert_eq!(layer.undo_depth(), 1);
    assert_eq!(layer.undo(), Ok(true));
    assert_eq!(layer.pixel(2, 3), Some(LinearRgba::transparent()));
    assert_eq!(layer.pixel(5, 2), Some(LinearRgba::transparent()));
    assert_eq!(layer.undo_depth(), 0);
    assert_eq!(layer.undo(), Ok(false));
}

#[test]
fn translucent_readback_uses_premultiplied_source_over() {
    let mut layer = layer();
    let blue = straight(0.0, 0.0, 0.8, 1.0);
    let gesture = layer.begin_gesture().unwrap();
    layer.set_pixel(gesture, 1, 1, blue).unwrap();
    layer.commit_gesture(gesture).unwrap();
    layer.clear_history();

    let red = straight(0.8, 0.0, 0.0, 0.25);
    commit_source_over_tiles(
        &mut layer,
        48.0_f32.to_bits(),
        &vec![tile_with_pixel(TileCoord::new(0, 0), 1, 1, red)],
        &source_over,
    )
    .unwrap();
    assert_eq!(layer.pixel(1, 1), Some(color(0.2, 0.0, 0.6, 1.0)));
    layer.undo().unwrap();
    assert_eq!(layer.pixel(1, 1), Some(blue));
}

#[test]
fn transparent_or_exact_overlay_is_a_noop() {
    let mut layer = layer();
    let transparent = tile_with_pixel(TileCoord::new(0, 0), 1, 1, LinearRgba::transparent());
    assert!(
        commit_source_over_tiles(&mut layer, 16.0_f32.to_bits(), &vec![transparent], &source_over)
            .unwrap()
            .is_none()
    );
    assert_eq!(layer.allocated_tile_count(), 0);
    assert_eq!(layer.undo_depth(), 0);

    let white = straight(1.0, 1.0, 1.0, 1.0);
    let overlay = vec![tile_with_pixel(TileCoord::new(0, 0), 1, 1, white)];
    assert!(commit_source_over_tiles(&mut layer, 1.0_f32.to_bits(), &overlay, &source_over)
        .unwrap()
        .is_some());
    assert!(commit_source_over_tiles(&mut layer, 1.0_f32.to_bits(), &overlay, &source_over)
        .unwrap()
        .is_none());
    assert_eq!(layer.undo_depth(), 1);
}

#[test]
fn malformed_readback_is_rejected_before_layer_mutation() {
    let mut layer = layer();
    let coord = TileCoord::new(0, 0);
    let damage = RectU32::from_xywh(0, 0, 1, 1).unwrap();
    let diameter = 32.0_f32.to_bits();
    let invalid_length =
        SourceOverTile::new(coord, damage, vec![LinearRgba::transparent(); 15]);
    assert!(matches!(
        commit_source_over_tiles(&mut layer, diameter, &vec![invalid_length], &source_over),
        Err(GpuStrokeCommitError::InvalidTilePixelCount { .. })
    ));

    let invalid_pixel = tile_with_pixel(coord, 0, 0, color(f32::NAN, 0.0, 0.0, 1.0));
    assert!(matches!(
        commit_source_over_tiles(&mut layer, diameter, &vec![invalid_pixel], &source_over),
        Err(GpuStrokeCommitError::InvalidPixel { .. })
    ));

    let valid = tile_with_pixel(coord, 0, 0, straight(0.2, 0.3, 0.4, 1.0));
    assert!(matches!(
        commit_source_over_tiles(&mut layer, diameter, &vec![valid.clone(), valid], &source_over),
        Err(GpuStrokeCommitError::DuplicateTile(_))
    ));
    assert_eq!(layer.allocated_tile_count(), 0);
    assert_eq!(layer.undo_depth(), 0);
}

#[test]
fn overlay_refuses_bad_diameters_tiles_and_damage() {
    let mut layer = layer();
    let red = straight(1.0, 0.0, 0.0, 1.0);
    for diameter in [0.0_f32, -1.0, f32::INFINITY, f32::NAN] {
        let bits = diameter.to_bits();
        assert_eq!(
            commit_source_over_tiles(&mut layer, bits, &vec![], &source_over).unwrap_err(),
            GpuStrokeCommitError::InvalidBrushDiameter(bits)
        );
    }
    let outside = TileCoord::new(2, 0);
    assert_eq!(
        commit_source_over_tiles(
            &mut layer,
            1.0_f32.to_bits(),
            &vec![tile_with_pixel(outside, 0, 0, red)],
            &source_over
        )
        .unwrap_err(),
        GpuStrokeCommitError::Raster(RasterError::TileOutOfBounds(outside))
    );
    let mut narrow = RasterLayer::new(6, 8, 4).unwrap();
    let edge = TileCoord::new(1, 0);
    assert_eq!(
        commit_source_over_tiles(
            &mut narrow,
            1.0_f32.to_bits(),
            &vec![tile_with_pixel(edge, 2, 0, red)],
            &source_over
        )
        .unwrap_err(),
        GpuStrokeCommitError::Raster(RasterError::DamageOutsideTile {
            tile: edge,
            damage: RectU32::from_xywh(2, 0, 1, 1).unwrap(),
            valid_width: 2,
            valid_height: 4,
        })
    );
}

#[test]
fn overlay_is_refused_during_another_edit() {
    let mut layer = layer();
    layer.begin_gesture().unwrap();
    assert_eq!(
        commit_source_over_tiles(
            &mut layer,
            1.0_f32.to_bits(),
            &vec![tile_with_pixel(TileCoord::new(0, 0), 0, 0, straight(1.0, 0.0, 0.0, 1.0))],
            &source_over
        )
        .unwrap_err(),
        GpuStrokeCommitError::Raster(RasterError::GestureActive)
    );
    assert_eq!(layer.undo(), Err(RasterError::GestureActive));
}

fn sample(position: [f32; 2], pressure: f32, tilt: [f32; 2]) -> BrushSample {
    BrushSample::with_tilt(
        position.map(f32::to_bits),
        pressure.to_bits(),
        tilt.map(f32::to_bits),
    )
}

fn blade() -> PaletteKnifeBrush {
    PaletteKnifeBrush {
        color: [0.2_f32, 0.1, 0.4].map(f32::to_bits),
        diameter: 72.0_f32.to_bits(),
        opacity: 1.0_f32.to_bits(),
    }
}

fn blade_samples() -> [BrushSample; 5] {
    [
        sample([30.0, 80.0], 0.3, [0.0, 0.8]),
        sample([70.0, 92.0], 0.5, [0.3, 0.7]),
        sample([110.0, 74.0], 0.8, [0.7, 0.3]),
        sample([150.0, 100.0], 1.0, [0.8, 0.0]),
        sample([210.0, 86.0], 0.6, [0.4, -0.6]),
    ]
}

fn corners(pose: BladePose) -> [[f32; 2]; 4] {
    let [x, y] = pose.center.map(f32::from_bits);
    let [dx, dy] = pose.direction.map(f32::from_bits);
    let [along, across] = pose.half_extents.map(f32::from_bits);
    [[-1.0, -1.0], [1.0, -1.0], [1.0, 1.0], [-1.0, 1.0]].map(|[u, v]: [f32; 2]| {
        [
            x + u * along * dx - v * across * dy,
            y + u * along * dy + v * across * dx,
        ]
    })
}

fn outline(canvas: [u32; 2], points: &[[f32; 2]]) -> BladeSweepOutline {
    let edge = |axis: usize, pick: fn(f32, f32) -> f32, round: fn(f32) -> f32| {
        let reach = points.iter().map(|point| point[axis]).reduce(pick).unwrap();
        round(reach).clamp(0.0, canvas[axis] as f32) as u32
    };
    BladeSweepOutline {
        corners: points.iter().map(|point| point.map(f32::to_bits)).collect(),
        min_x: edge(0, f32::min, f32::floor),
        min_y: edge(1, f32::min, f32::floor),
        max_x: edge(0, f32::max, f32::ceil),
        max_y: edge(1, f32::max, f32::ceil),
    }
}

fn turn(sample: BrushSample, direction: [u32; 2], _last: [u32; 2]) -> [u32; 2] {
    let tilt = sample.tilt.map(f32::from_bits);
    let length = tilt[0].hypot(tilt[1]);
    if length == 0.0 {
        direction
    } else {
        tilt.map(|part| (part / length).to_bits())
    }
}

fn place(position: [u32; 2], direction: [u32; 2], pressure: u32) -> Option<BladePose> {
    let pressure = f32::from_bits(pressure);
    if f32::from_bits(position[0]) >= 1_000.0 {
        return None;
    }
    Some(BladePose {
        center: position,
        direction,
        half_extents: [36.0 * pressure, 4.0 * pressure].map(f32::to_bits),
    })
}

/// A blade of seventy-two pixels that is cut into two sweeps at every move.
fn geometry(
    canvas: [u32; 2],
) -> BladeGeometry<
    impl Fn(BrushSample, [u32; 2], [u32; 2]) -> [u32; 2],
    impl Fn([u32; 2], [u32; 2], u32) -> Option<BladePose>,
    impl Fn(BladePose) -> BladeSweepOutline,
    impl Fn(BladePose, BladePose) -> Vec<BladeSweepOutline>,
> {
    BladeGeometry {
        turn,
        place,
        touch: move |pose: BladePose| outline(canvas, &corners(pose)),
        sweep: move |from: BladePose, to: BladePose| {
            let (first, last) = (corners(from), corners(to));
            let middle = |i: usize| {
                [
                    (first[i][0] + last[i][0]) / 2.0,
                    (first[i][1] + last[i][1]) / 2.0,
                ]
            };
            vec![
                outline(canvas, &[first[0], middle(1), middle(2), first[3]]),
                outline(canvas, &[middle(0), last[1], last[2], middle(3)]),
            ]
        },
    }
}

fn merge(damage: &mut Vec<StrokeTileDamage>, batch: &GpuStrokeBatch) {
    for tile in batch.touched_tiles() {
        match damage.iter_mut().find(|known| known.coord == tile.coord) {
            Some(known) => known.local_damage = known.local_damage.union(tile.local_damage),
            None => damage.push(*tile),
        }
    }
}

#[test]
fn continuous_blade_batches_do_not_change_generated_geometry() {
    let samples = blade_samples();
    let geometry = geometry([256, 192]);
    let mut whole =
        ContinuousBladeStroke::begin(blade(), [256, 192], 64, samples[0], &geometry).unwrap();
    for sample in &samples[1..] {
        whole.update(*sample, &geometry).unwrap();
    }
    whole.finish().unwrap();
    let whole = whole.take_batch();

    let mut incremental =
        ContinuousBladeStroke::begin(blade(), [256, 192], 64, samples[0], &geometry).unwrap();
    let mut vertices: Vec<GpuStrokeVertex> = Vec::new();
    let mut sweeps = 0;
    let mut damage = Vec::new();
    let mut collect = |batch: GpuStrokeBatch| {
        vertices.extend_from_slice(batch.vertices());
        sweeps += batch.sweeps();
        merge(&mut damage, &batch);
    };
    collect(incremental.take_batch());
    for sample in &samples[1..] {
        incremental.update(*sample, &geometry).unwrap();
        collect(incremental.take_batch());
    }
    incremental.finish().unwrap();
    collect(incremental.take_batch());
    damage.sort_by_key(|tile| (tile.coord.y, tile.coord.x));

    assert_eq!(&vertices, whole.vertices());
    assert_eq!(vertices.len(), 6 * 9);
    assert_eq!(sweeps, whole.sweeps());
    assert_eq!(sweeps, 9);
    assert_eq!(&damage, whole.touched_tiles());
    assert_eq!(incremental.total_sweeps(), 9);
    assert!(incremental.take_batch().is_empty());
}

#[test]
fn zero_pressure_breaks_contact_without_emitting_geometry() {
    let geometry = geometry([128, 128]);
    let zero = sample([32.0, 32.0], 0.0, [0.0, 0.8]);
    let mut stroke =
        ContinuousBladeStroke::begin(blade(), [128, 128], 64, zero, &geometry).unwrap();
    assert!(stroke.take_batch().is_empty());

    stroke
        .update(sample([48.0, 48.0], 1.0, [0.0, 0.8]), &geometry)
        .unwrap();
    let first_contact = stroke.take_batch();
    assert_eq!(first_contact.sweeps(), 1);
    assert!(!first_contact.is_empty());

    stroke.update(zero, &geometry).unwrap();
    assert!(stroke.take_batch().is_empty());

    stroke
        .update(sample([50.0, 48.0], 1.0, [0.0, 0.8]), &geometry)
        .unwrap();
    assert_eq!(stroke.take_batch().sweeps(), 1);
    stroke
        .update(sample([60.0, 48.0], 4.0, [0.0, 0.8]), &geometry)
        .unwrap();
    assert_eq!(stroke.take_batch().sweeps(), 2);
    assert_eq!(stroke.diameter(), 72.0_f32.to_bits());
}

#[test]
fn a_blade_without_paint_stays_off_the_canvas() {
    let geometry = geometry([128, 128]);
    let clear = PaletteKnifeBrush {
        opacity: (-0.0_f32).to_bits(),
        ..blade()
    };
    let down = sample([48.0, 48.0], 1.0, [0.0, 0.8]);
    let mut stroke =
        ContinuousBladeStroke::begin(clear, [128, 128], 64, down, &geometry).unwrap();
    stroke.update(down, &geometry).unwrap();
    assert_eq!(stroke.total_sweeps(), 0);
    let one = 1.0_f32.to_bits();
    for lifted in [0.0_f32, -0.0, -3.0, f32::NEG_INFINITY] {
        assert_eq!(contact_step(lifted.to_bits(), one, true), BladeContact::Lift);
    }
    for pressed in [f32::MIN_POSITIVE, 0.5, 1.0, 7.0] {
        assert_eq!(
            contact_step(pressed.to_bits(), one, true),
            BladeContact::Sweep
        );
        assert_eq!(
            contact_step(pressed.to_bits(), one, false),
            BladeContact::Touch
        );
    }
    assert_eq!(contact_step(one, 0, true), BladeContact::Lift);
}

#[test]
fn a_finished_blade_stroke_takes_no_more_samples() {
    let geometry = geometry([4, 4]);
    let down = sample([2.0, 2.0], 1.0, [0.0, 0.8]);
    let begin = |canvas: [u32; 2], tile_size: u32, sample: BrushSample| {
        ContinuousBladeStroke::begin(blade(), canvas, tile_size, sample, &geometry)
    };
    let refusal = |result: Result<ContinuousBladeStroke, ContinuousBladeError>| {
        result.map(|_| ()).unwrap_err()
    };
    let empty = refusal(begin([0, 4], 64, down));
    assert_eq!(empty, ContinuousBladeError::EmptyCanvas);
    assert_eq!(empty.message(), "continuous blade canvas is empty");
    let flat = refusal(begin([4, 4], 0, down));
    assert_eq!(flat, ContinuousBladeError::InvalidTileSize);
    assert_eq!(flat.message(), "continuous blade tile size is zero");
    let endless = sample([f32::NAN, 2.0], 1.0, [0.0, 0.8]);
    assert_eq!(
        refusal(begin([4, 4], 4, endless)),
        ContinuousBladeError::Brush(BrushError::InvalidSample)
    );
    let away = sample([2_000.0, 2.0], 1.0, [0.0, 0.8]);
    let poseless = refusal(begin([4, 4], 4, away));
    assert_eq!(poseless, ContinuousBladeError::InvalidPose);
    assert_eq!(
        poseless.message(),
        "continuous blade generated an invalid pose"
    );

    let mut stroke = begin([4, 4], 4, down).unwrap();
    assert_eq!(
        stroke.update(endless, &geometry),
        Err(ContinuousBladeError::Brush(BrushError::InvalidSample))
    );
    assert_eq!(
        stroke.update(away, &geometry),
        Err(ContinuousBladeError::InvalidPose)
    );
    stroke.update(down, &geometry).unwrap();
    assert_eq!(stroke.total_sweeps(), 3);
    assert!(!stroke.is_finalized());
    assert_eq!(stroke.finish(), Ok(()));
    assert!(stroke.is_finalized());
    let finished = ContinuousBladeError::Brush(BrushError::StrokeFinalized);
    assert_eq!(stroke.finish(), Err(finished));
    assert_eq!(stroke.update(down, &geometry), Err(finished));
    assert_eq!(stroke.total_sweeps(), 3);
    stroke.take_batch();
    assert_eq!(GpuStrokeBatch::default(), stroke.take_batch());
}

#[test]
fn continuous_blade_damage_is_clipped_to_edge_tiles() {
    let geometry = geometry([130, 130]);
    let corner = |position: [f32; 2]| {
        let down = sample(position, 1.0, [0.0, 0.8]);
        let mut stroke =
            ContinuousBladeStroke::begin(blade(), [130, 130], 64, down, &geometry).unwrap();
        assert_eq!(stroke.sweep_room(), u32::MAX - 1);
        let batch = stroke.take_batch();
        assert_eq!(stroke.sweep_room(), u32::MAX);
        assert!(!batch.is_empty());
        for tile in batch.touched_tiles() {
            let valid_width = 64.min(130 - tile.coord.x * 64);
            let valid_height = 64.min(130 - tile.coord.y * 64);
            assert!(tile.local_damage.max_x() <= valid_width);
            assert!(tile.local_damage.max_y() <= valid_height);
        }
        batch
    };
    assert_eq!(
        corner([2.0, 2.0]).touched_tiles(),
        &vec![StrokeTileDamage {
            coord: TileCoord::new(0, 0),
            local_damage: RectU32::from_xywh(0, 0, 6, 38).unwrap(),
        }]
    );
    let far = corner([128.0, 128.0]);
    assert_eq!(far.touched_tiles().len(), 4);
    assert_eq!(
        far.touched_tiles()[3],
        StrokeTileDamage {
            coord: TileCoord::new(2, 2),
            local_damage: RectU32::from_xywh(0, 0, 2, 2).unwrap(),
        }
    );
}

fn bits(channels: [f32; 4]) -> [u32; 4] {
    channels.map(f32::to_bits)
}

#[test]
fn color_validation_preserves_full_float_premultiplied_contract() {
    assert!(valid_premultiplied_color(bits([0.2, 0.1, 0.0, 0.5])));
    assert!(valid_premultiplied_color(bits([2.0, 0.0, 0.0, 0.5])));
    assert!(valid_premultiplied_color(bits([0.0; 4])));
    assert!(!valid_premultiplied_color(bits([0.1, 0.0, 0.0, 0.0])));
    assert!(!valid_premultiplied_color(bits([f32::NAN, 0.0, 0.0, 1.0])));
    assert!(!valid_premultiplied_color(bits([-0.1, 0.0, 0.0, 1.0])));
}

#[test]
fn vertex_validation_rejects_partial_or_nonfinite_triangles() {
    let vertex = GpuStrokeVertex {
        position: [0.0_f32.to_bits(), 0.0_f32.to_bits()],
    };
    assert!(validate_vertices(&vec![vertex; 3]).is_ok());
    assert!(matches!(
        validate_vertices(&vec![vertex; 2]),
        Err(StrokeTargetError::InvalidVertexCount(2))
    ));
    assert!(matches!(
        validate_vertices(&vec![
            vertex,
            vertex,
            GpuStrokeVertex {
                position: [f32::INFINITY.to_bits(), 0.0_f32.to_bits()]
            }
        ]),
        Err(StrokeTargetError::InvalidVertex)
    ));
}
