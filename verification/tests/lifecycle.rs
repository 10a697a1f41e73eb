use gpu_document::device::DeviceLimits;
use gpu_document::document::{DocumentRevision, LayerId};
use gpu_document::document_metadata::DocumentMetadata;
use gpu_document::gpu_atlas::{AtlasLayout, LayerTileKey};
use gpu_document::gpu_document_history::{GpuHistoryDirection, GpuHistoryId};
use gpu_document::gpu_document_recovery::GpuDocumentRecoveryError;
use gpu_document::gpu_document_target::{GpuDocumentTarget, GpuDocumentTargetIds};
use gpu_document::gpu_history_archive::{
    ArchiveCandidate, ArchiveError, ArchiveResult, ArchiveStep, CandidateState, HistoryArchive,
    RoomStep,
};
use gpu_document::gpu_mirror_capture::GpuMirrorMapEvent;
use gpu_document::gpu_recovery_replay::GpuRasterRecoveryReplayError;
use gpu_document::gpu_resident_document::{
    GpuResidentDocument, GpuResidentDocumentError, GpuResidentDocumentLimits,
};
use gpu_document::gpu_resident_round_stroke::{
    GpuResidentRoundStrokeEngine, GpuResidentRoundStrokeError,
};
use gpu_document::gpu_round::RoundBounds;
use gpu_document::gpu_round_recovery::{
    GpuRoundRecoveryCommand, RoundEvaluation, RoundPixelOutcome,
};
use gpu_document::gpu_stroke::{GpuStrokeVertex, StrokeTileDamage};
use gpu_document::gpu_stroke_target::{
    SparseStrokeTarget, StrokeDeviceLimits, StrokeDisplayTile, StrokeTargetError,
};
use gpu_document::raster::{LinearRgba, RectU32, TileCoord};
use gpu_document::raster_layer::RasterLayer;
use gpu_document::stroke::{RoundBrushRecipeV1, RoundContact, RoundPathCommand, StrokeMaterial};

const ONE: u32 = 0x3f80_0000;

fn device() -> DeviceLimits {
    DeviceLimits {
        max_texture_dimension_2d: 8_192,
        max_buffer_size: 1 << 28,
        float32_blendable: true,
    }
}

fn recipe() -> RoundBrushRecipeV1 {
    RoundBrushRecipeV1::with_minimum_pressure_fraction(
        StrokeMaterial::paint([ONE, 0, 0], ONE, ONE).unwrap(),
        4.0_f32.to_bits(),
        ONE,
    )
    .unwrap()
}

fn dot() -> Vec<RoundPathCommand> {
    let at = RoundContact {
        center: [4.0_f32.to_bits(), 4.0_f32.to_bits()],
        radius: 2.0_f32.to_bits(),
        elapsed_micros: 0,
    };
    vec![
        RoundPathCommand::Begin(at),
        RoundPathCommand::End {
            at,
            elapsed_micros: 1,
        },
    ]
}

fn dot_bounds(_from: RoundContact, _to: RoundContact) -> RoundBounds {
    RoundBounds {
        min_x: 1,
        min_y: 1,
        max_x: 7,
        max_y: 7,
    }
}

fn red_dot(_command: &GpuRoundRecoveryCommand, _layer: &RasterLayer) -> RoundEvaluation {
    RoundEvaluation {
        bounds: RectU32::from_xywh(4, 4, 1, 1),
        outcomes: vec![RoundPixelOutcome::Paint(LinearRgba::from_bits(ONE, 0, 0, ONE))],
    }
}

struct Studio {
    target: GpuDocumentTarget,
    document: GpuResidentDocument,
    engine: GpuResidentRoundStrokeEngine,
}

fn studio() -> Studio {
    let layout = AtlasLayout::new(64, 16, 2).unwrap();
    let target =
        GpuDocumentTarget::new(device(), layout, &mut GpuDocumentTargetIds::new()).unwrap();
    let metadata = DocumentMetadata::new_blank(48, 40, 16, DocumentRevision::initial()).unwrap();
    let document =
        GpuResidentDocument::new(metadata, &target, GpuResidentDocumentLimits::default()).unwrap();
    let engine = GpuResidentRoundStrokeEngine::new(device(), &document).unwrap();
    Studio {
        target,
        document,
        engine,
    }
}

impl Studio {
    fn paint_dot(&mut self) -> DocumentRevision {
        self.engine
            .begin(&mut self.document, &self.target, recipe())
            .unwrap();
        self.engine
            .submit_commands(&mut self.document, &dot(), &dot_bounds)
            .unwrap();
        self.engine
            .commit(&mut self.document, &mut self.target, device())
            .unwrap()
            .unwrap()
            .commit
            .revision
    }

    fn read_back(&mut self, words: &[u32]) -> Vec<DocumentRevision> {
        let prepared = self
            .document
            .prepare_next_mirror_readback(device())
            .unwrap()
            .unwrap();
        self.document.submit_mirror_readback(prepared).unwrap();
        if !words.is_empty() {
            assert!(self
                .document
                .try_finish_mirror(GpuMirrorMapEvent::Pending)
                .unwrap()
                .is_none());
        }
        self.document
            .try_finish_mirror(GpuMirrorMapEvent::Mapped(bytemuck::cast_slice(words)))
            .unwrap()
            .unwrap()
            .applied_revisions
    }
}

fn painted_block() -> Vec<u32> {
    let mut words = vec![0_u32; 16 * 16 * 4];
    let pixel = (4 * 16 + 4) * 4;
    words[pixel] = ONE;
    words[pixel + 3] = ONE;
    words
}

#[test]
fn a_stroke_is_committed_read_back_and_undone_exactly() {
    let mut studio = studio();
    let layer = studio.document.metadata().active_layer();
    let key = LayerTileKey::new(layer, TileCoord::new(0, 0));

    let painted = studio.paint_dot();
    assert_eq!(painted, DocumentRevision::from_raw(1));
    assert_eq!(studio.document.history().undo_depth(), 1);
    assert_eq!(studio.document.mirror().pending_revision_count(), 1);

    let before_pixels = studio
        .document
        .recovery_snapshot()
        .recover_document(&red_dot)
        .unwrap();
    assert_eq!(
        before_pixels
            .document()
            .layer_raster(layer)
            .unwrap()
            .pixel(4, 4),
        Some(LinearRgba::from_bits(ONE, 0, 0, ONE))
    );

    assert_eq!(studio.read_back(&painted_block()), vec![painted]);
    let snapshot = studio.document.mirror().snapshot();
    assert_eq!(snapshot.revision(), painted);
    assert_eq!(
        snapshot.tile_pixels(key).unwrap()[4 * 16 + 4],
        LinearRgba::from_bits(ONE, 0, 0, ONE)
    );
    assert_eq!(
        snapshot.tile_pixels(key).unwrap()[0],
        LinearRgba::transparent()
    );

    let step = studio
        .document
        .prepare_history_swap(
            &mut studio.target,
            device(),
            GpuHistoryDirection::Undo,
            Ok(()),
        )
        .unwrap()
        .unwrap();
    let undone = studio
        .document
        .submit_history_swap(&mut studio.target, step)
        .unwrap();
    assert_eq!(undone.revision, DocumentRevision::from_raw(2));
    assert_eq!(studio.document.history().undo_depth(), 0);
    assert_eq!(studio.document.history().redo_depth(), 1);

    let recovered = studio
        .document
        .recovery_snapshot()
        .recover_document(&red_dot)
        .unwrap();
    assert_eq!(recovered.document().revision(), undone.revision);
    assert_eq!(
        recovered
            .document()
            .layer_raster(layer)
            .unwrap()
            .pixel(4, 4),
        Some(LinearRgba::transparent())
    );
    assert_eq!(studio.read_back(&[]), vec![undone.revision]);
    assert!(studio.document.mirror().snapshot().tile_pixels(key).is_none());
}

#[test]
fn a_cancelled_stroke_gives_its_tiles_back() {
    let mut studio = studio();
    studio
        .engine
        .begin(&mut studio.document, &studio.target, recipe())
        .unwrap();
    studio
        .engine
        .submit_commands(&mut studio.document, &dot(), &dot_bounds)
        .unwrap();
    assert_eq!(studio.document.atlas().resident_tile_count(), 1);
    studio.engine.cancel(&mut studio.document).unwrap();
    assert_eq!(studio.document.atlas().resident_tile_count(), 0);
    assert_eq!(studio.document.active_round_stroke(), None);
    assert!(matches!(
        studio
            .engine
            .commit(&mut studio.document, &mut studio.target, device()),
        Err(GpuResidentRoundStrokeError::NoActiveStroke)
    ));
}

#[test]
fn a_discarded_step_leaves_the_history_as_it_was() {
    let mut studio = studio();
    studio.paint_dot();
    studio.read_back(&painted_block());
    let step = studio
        .document
        .prepare_history_swap(
            &mut studio.target,
            device(),
            GpuHistoryDirection::Undo,
            Ok(()),
        )
        .unwrap()
        .unwrap();
    let id = studio
        .document
        .discard_history_swap(&mut studio.target, step)
        .unwrap();
    assert_eq!(id, GpuHistoryId::from_raw(1));
    assert_eq!(studio.document.history().undo_depth(), 1);
    assert_eq!(studio.document.revision(), DocumentRevision::from_raw(1));
    assert!(!studio.target.undo_swap_is_pending());
}

fn stroke_target() -> SparseStrokeTarget {
    SparseStrokeTarget::new(
        StrokeDeviceLimits {
            max_texture_array_layers: 4,
            max_texture_dimension_2d: 1_024,
            min_uniform_buffer_offset_alignment: 256,
            max_buffer_size: 1 << 20,
        },
        6,
        4,
        4,
        1,
    )
    .unwrap()
}

fn triangle() -> Vec<GpuStrokeVertex> {
    vec![
        GpuStrokeVertex {
            position: [0, 0]
        };
        3
    ]
}

#[test]
fn stroke_tiles_are_shown_placed_and_read_back_row_by_row() {
    let mut target = stroke_target();
    target.begin([ONE, 0, 0, ONE]).unwrap();
    let damage = RectU32::from_xywh(0, 0, 2, 2).unwrap();
    let touched = vec![
        StrokeTileDamage {
            coord: TileCoord::new(1, 0),
            local_damage: damage,
        },
        StrokeTileDamage {
            coord: TileCoord::new(0, 0),
            local_damage: damage,
        },
    ];
    let encoding = target.encode_batch(&triangle(), &touched).unwrap();
    assert_eq!(encoding.stats.allocated_tiles, 2);
    assert_eq!(encoding.stats.retained_pages, 2);
    assert!(encoding.draws.iter().all(|draw| draw.clear));
    assert_eq!(encoding.draws[1].slot.uniform_offset, 256);
    assert!(!target.encode_batch(&triangle(), &touched).unwrap().draws[0].clear);
    assert_eq!(
        target.prepare_presentation(),
        vec![
            StrokeDisplayTile {
                page: 1,
                layer: 0,
                origin: [0, 0],
                extent: [4, 4],
            },
            StrokeDisplayTile {
                page: 0,
                layer: 0,
                origin: [4, 0],
                extent: [2, 4],
            },
        ]
    );

    let mut readback = target.encode_readback().unwrap();
    assert_eq!(readback.bytes_per_row(), 256);
    assert_eq!(readback.byte_len(), 2 * 4 * 256);
    let mut words = vec![0_u32; 2 * 4 * 64];
    let second_tile_row_one = 4 * 64 + 64;
    words[second_tile_row_one + 4] = 7;
    words[second_tile_row_one + 7] = 9;
    assert!(matches!(
        readback.try_finish(GpuMirrorMapEvent::Pending),
        Err(StrokeTargetError::ReadbackNotStarted)
    ));
    readback.begin_map().unwrap();
    assert!(readback
        .try_finish(GpuMirrorMapEvent::Pending)
        .unwrap()
        .is_none());
    let tiles = readback
        .try_finish(GpuMirrorMapEvent::Mapped(bytemuck::cast_slice(&words)))
        .unwrap()
        .unwrap();
    assert_eq!(tiles.len(), 2);
    assert_eq!(tiles[0].coord(), TileCoord::new(0, 0));
    assert_eq!(tiles[1].coord(), TileCoord::new(1, 0));
    assert_eq!(tiles[1].local_damage(), damage);
    assert_eq!(tiles[1].pixels()[5], LinearRgba::from_bits(7, 0, 0, 9));
    assert_eq!(tiles[0].pixels()[5], LinearRgba::transparent());
    assert!(matches!(
        readback.try_finish(GpuMirrorMapEvent::Pending),
        Err(StrokeTargetError::ReadbackAlreadyFinished)
    ));
}

#[test]
fn stroke_target_refuses_what_does_not_fit() {
    let mut target = stroke_target();
    let damage = RectU32::from_xywh(0, 0, 3, 1).unwrap();
    assert!(matches!(
        target.begin([ONE, 0, 0, 0]),
        Err(StrokeTargetError::InvalidColor(_))
    ));
    assert!(matches!(
        target.encode_batch(&triangle(), &vec![]),
        Err(StrokeTargetError::NoTouchedTiles)
    ));
    assert!(matches!(
        target.encode_batch(
            &triangle(),
            &vec![StrokeTileDamage {
                coord: TileCoord::new(1, 0),
                local_damage: damage
            }]
        ),
        Err(StrokeTargetError::DamageOutsideTile {
            valid_width: 2,
            valid_height: 4,
            ..
        })
    ));
    assert!(matches!(
        target.encode_batch(
            &triangle(),
            &vec![StrokeTileDamage {
                coord: TileCoord::new(2, 0),
                local_damage: damage
            }]
        ),
        Err(StrokeTargetError::TileOutOfBounds(_))
    ));
    assert!(matches!(
        target.encode_readback(),
        Err(StrokeTargetError::EmptyReadback)
    ));
}

#[test]
fn history_is_compressed_one_entry_at_a_time() {
    let id = GpuHistoryId::from_raw;
    let candidate = |value: u64, state: CandidateState| ArchiveCandidate {
        id: id(value),
        state,
    };
    let owned = vec![id(1), id(2), id(3)];
    let candidates = vec![
        candidate(1, CandidateState::Unspilled),
        candidate(2, CandidateState::Ready),
        candidate(3, CandidateState::Archived),
    ];
    let mut archive = HistoryArchive::new();
    assert_eq!(archive.start_archive(&owned, &candidates), ArchiveStep::Idle);
    assert_eq!(archive.make_history_room(10, 10, 5, false), RoomStep::Enough);
    archive.enable_history_archive();
    assert_eq!(
        archive.start_archive(&owned, &candidates),
        ArchiveStep::Compress(id(2))
    );
    archive.compression_started(id(2));
    assert!(archive.archive_busy());
    assert_eq!(archive.start_archive(&owned, &candidates), ArchiveStep::Idle);
    assert_eq!(archive.make_history_room(10, 10, 5, false), RoomStep::Finish);
    assert_eq!(archive.make_history_room(5, 10, 5, true), RoomStep::FinishAndStop);
    assert_eq!(archive.finish_archive(ArchiveResult::Failed), None);
    assert_eq!(
        archive.start_archive(&owned, &candidates),
        ArchiveStep::Settle(id(3))
    );
    assert_eq!(archive.make_history_room(10, 10, 5, false), RoomStep::Start);
    assert_eq!(
        archive.start_archive(&vec![id(3)], &candidates),
        ArchiveStep::Compress(id(2))
    );
    archive.compression_refused(id(2));
    archive.compression_started(id(3));
    assert_eq!(archive.finish_archive(ArchiveResult::Replaced), Some(id(3)));
    assert_eq!(archive.finish_archive(ArchiveResult::Replaced), None);
    assert_eq!(
        archive.start_archive(&owned, &vec![candidate(2, CandidateState::Ready)]),
        ArchiveStep::Idle
    );
}

fn recovered_pixel(document: &GpuResidentDocument, layer: LayerId, x: u32, y: u32) -> LinearRgba {
    document
        .recovery_snapshot()
        .recover_document(&red_dot)
        .unwrap()
        .document()
        .layer_raster(layer)
        .unwrap()
        .pixel(x, y)
        .unwrap()
}

fn blue_corner() -> RasterLayer {
    let mut raster = RasterLayer::new(48, 40, 16).unwrap();
    let gesture = raster.begin_gesture().unwrap();
    raster
        .set_pixel(gesture, 47, 39, LinearRgba::from_bits(0, 0, ONE, ONE))
        .unwrap();
    raster.commit_gesture(gesture).unwrap();
    raster
}

#[test]
fn redo_brings_back_what_undo_took_away() {
    let mut studio = studio();
    let layer = studio.document.metadata().active_layer();
    let red = LinearRgba::from_bits(ONE, 0, 0, ONE);
    studio.paint_dot();
    studio.read_back(&painted_block());
    for (direction, expected, words) in [
        (GpuHistoryDirection::Undo, LinearRgba::transparent(), vec![]),
        (GpuHistoryDirection::Redo, red, painted_block()),
        (GpuHistoryDirection::Undo, LinearRgba::transparent(), vec![]),
    ] {
        let step = studio
            .document
            .prepare_history_swap(&mut studio.target, device(), direction, Ok(()))
            .unwrap()
            .unwrap();
        studio
            .document
            .submit_history_swap(&mut studio.target, step)
            .unwrap();
        assert_eq!(recovered_pixel(&studio.document, layer, 4, 4), expected);
        studio.read_back(&words);
    }
    assert_eq!(studio.document.revision(), DocumentRevision::from_raw(4));
    assert_eq!(studio.document.history().redo_depth(), 1);
}

#[test]
fn a_copied_layer_keeps_the_pixels_of_its_source() {
    let mut studio = studio();
    let source = studio.document.metadata().active_layer();
    let red = LinearRgba::from_bits(ONE, 0, 0, ONE);
    studio.paint_dot();
    studio.read_back(&painted_block());
    let (copy, commit) = studio
        .document
        .duplicate_layer(&mut studio.target, source, &red_dot)
        .unwrap();
    assert_ne!(copy, source);
    assert_eq!(commit.revision, DocumentRevision::from_raw(2));
    assert_eq!(commit.clones.len(), 1);
    assert_eq!(studio.document.atlas().resident_tile_count(), 2);
    assert_eq!(recovered_pixel(&studio.document, copy, 4, 4), red);
    assert_eq!(recovered_pixel(&studio.document, source, 4, 4), red);
    assert_eq!(
        recovered_pixel(&studio.document, copy, 5, 4),
        LinearRgba::transparent()
    );

    let missing = studio
        .document
        .duplicate_layer(&mut studio.target, LayerId::from_raw(99), &red_dot);
    assert!(missing.is_err());
    assert_eq!(studio.document.revision(), DocumentRevision::from_raw(2));
}

#[test]
fn an_imported_layer_is_brought_to_the_device_and_survives() {
    let mut studio = studio();
    let blue = LinearRgba::from_bits(0, 0, ONE, ONE);
    let (layer, commit) = studio
        .document
        .insert_raster_layer(&mut studio.target, "Imported".to_string(), blue_corner())
        .unwrap();
    assert_eq!(commit.uploads.len(), 1);
    assert_eq!(studio.document.metadata().active_layer(), layer);
    assert_eq!(recovered_pixel(&studio.document, layer, 47, 39), blue);

    let document = studio
        .document
        .recovery_snapshot()
        .recover_document(&red_dot)
        .unwrap()
        .into_document();
    let layout = AtlasLayout::new(64, 16, 2).unwrap();
    let mut ids = GpuDocumentTargetIds::new();
    let mut target = GpuDocumentTarget::new(device(), layout, &mut ids).unwrap();
    let bootstrap = GpuResidentDocument::from_cpu_document(
        &document,
        &mut target,
        GpuResidentDocumentLimits::default(),
    )
    .unwrap();
    assert_eq!(bootstrap.uploads().len(), 1);
    let reopened = bootstrap.into_document();
    assert_eq!(reopened.revision(), document.revision());
    assert_eq!(recovered_pixel(&reopened, layer, 47, 39), blue);
}

#[test]
fn a_discarded_readback_is_prepared_again() {
    let mut studio = studio();
    let painted = studio.paint_dot();
    let waiting = studio.document.mirror().pending_batch_count();
    let prepared = studio
        .document
        .prepare_next_mirror_readback(device())
        .unwrap()
        .unwrap();
    assert!(studio.document.mirror().staging_byte_len() > 0);
    studio.document.discard_mirror_readback(prepared).unwrap();
    assert_eq!(studio.document.mirror().staging_byte_len(), 0);
    assert_eq!(studio.document.mirror().pending_batch_count(), waiting);
    assert_eq!(studio.read_back(&painted_block()), vec![painted]);
}

#[test]
fn a_layer_made_after_an_undo_has_a_name_of_its_own() {
    let mut studio = studio();
    let (first, _) = studio.document.create_layer("Ink".to_string()).unwrap();
    assert!(studio
        .document
        .swap_metadata_history(GpuHistoryDirection::Undo)
        .unwrap()
        .is_some());
    assert_eq!(studio.document.metadata().layers().len(), 1);
    let (second, _) = studio.document.create_layer("Ink".to_string()).unwrap();
    assert_ne!(first, second);
    assert!(second.get() > first.get());
}

#[test]
fn loaded_paint_waits_for_the_device() {
    let mut studio = studio();
    let layer = studio.document.metadata().active_layer();
    let nan = f32::NAN.to_bits();
    assert!(matches!(
        studio
            .engine
            .begin_loaded(&mut studio.document, &studio.target, recipe(), nan),
        Err(GpuResidentRoundStrokeError::InvalidPaintLoad(bits)) if bits == nan
    ));
    studio
        .engine
        .begin_loaded(&mut studio.document, &studio.target, recipe(), ONE)
        .unwrap();
    assert!(studio.engine.stroke_is_loaded());
    for batch in 0..4 {
        assert!(!studio.engine.must_wait_for_submission());
        studio
            .engine
            .submit_commands(&mut studio.document, &dot(), &dot_bounds)
            .unwrap();
        assert_eq!(studio.engine.submitted_batches(), batch + 1);
    }
    assert!(studio.engine.must_wait_for_submission());
    studio.engine.submission_done();
    assert!(!studio.engine.must_wait_for_submission());
    assert_eq!(studio.engine.deposition_mask().active_slot_count(), 1);
    assert_eq!(studio.engine.coverage_mask().active_slot_count(), 0);
    assert_eq!(studio.engine.provisional_tile_count(), 2);

    let shown = studio
        .engine
        .prepare_composite(&studio.document, &studio.target)
        .unwrap()
        .unwrap();
    assert_eq!(shown.dispatches.len(), 1);
    assert!(studio.engine.material_preview().is_some());

    let committed = studio
        .engine
        .commit(&mut studio.document, &mut studio.target, device())
        .unwrap()
        .unwrap();
    assert_eq!(committed.commit.revision, DocumentRevision::from_raw(1));
    assert!(studio.engine.material_preview().is_none());
    let recovered = studio
        .document
        .recovery_snapshot()
        .recover_document(&red_dot);
    assert!(matches!(
        recovered,
        Err(GpuDocumentRecoveryError::Raster {
            layer: waiting,
            error: GpuRasterRecoveryReplayError::AwaitingPixels(_),
        }) if waiting == layer
    ));
}

fn small_history(entries_on_device: u64) -> Studio {
    let layout = AtlasLayout::new(64, 16, 2).unwrap();
    let target =
        GpuDocumentTarget::new(device(), layout, &mut GpuDocumentTargetIds::new()).unwrap();
    let metadata = DocumentMetadata::new_blank(48, 40, 16, DocumentRevision::initial()).unwrap();
    let limits = GpuResidentDocumentLimits {
        history_bytes: entries_on_device * 4_096,
        ..GpuResidentDocumentLimits::default()
    };
    let document = GpuResidentDocument::new(metadata, &target, limits).unwrap();
    let engine = GpuResidentRoundStrokeEngine::new(device(), &document).unwrap();
    Studio {
        target,
        document,
        engine,
    }
}

#[test]
fn older_history_is_compressed_and_comes_back_before_its_step() {
    let id = GpuHistoryId::from_raw;
    let mut studio = small_history(3);
    for _ in 0..3 {
        studio.paint_dot();
        studio.read_back(&painted_block());
    }
    assert_eq!(studio.document.history().resident_bytes(), 3 * 4_096);
    let none: Vec<GpuHistoryId> = Vec::new();
    assert_eq!(studio.document.poll_history_archive(&none), ArchiveStep::Idle);
    studio.document.enable_history_archive();
    assert_eq!(
        studio.document.poll_history_archive(&none),
        ArchiveStep::Compress(id(1))
    );
    studio.document.compression_started(id(1));
    assert!(studio.document.archive_busy());
    assert_eq!(studio.document.poll_history_archive(&none), ArchiveStep::Idle);
    assert_eq!(studio.document.finish_archive(true), Some(id(1)));
    assert_eq!(studio.document.finish_archive(true), None);
    assert!(!studio.document.archive_busy());
    assert_eq!(studio.document.history().resident_bytes(), 2 * 4_096);
    assert_eq!(studio.document.poll_history_archive(&none), ArchiveStep::Idle);

    let room = studio.document.make_history_room(4_096, false, &none);
    assert_eq!(room.step, RoomStep::Enough);
    let room = studio.document.make_history_room(2 * 4_096, false, &none);
    assert_eq!(room.step, RoomStep::Start);
    assert_eq!(room.begun, ArchiveStep::Compress(id(2)));
    studio.document.compression_refused(id(2));
    let room = studio.document.make_history_room(2 * 4_096, false, &vec![id(3)]);
    assert_eq!(room.begun, ArchiveStep::Settle(id(3)));
    assert_eq!(studio.document.history().resident_bytes(), 4_096);

    let undo = GpuHistoryDirection::Undo;
    assert_eq!(studio.document.next_hydration_bytes(undo), 4_096);
    assert_eq!(
        studio.document.check_history_swap(&studio.target, undo).unwrap(),
        Some(id(3))
    );
    let lost = studio
        .document
        .prepare_history_swap(
            &mut studio.target,
            device(),
            undo,
            Err(ArchiveError::Unavailable),
        )
        .unwrap_err();
    assert!(matches!(
        lost.error,
        GpuResidentDocumentError::Archive(ArchiveError::Unavailable)
    ));
    assert_eq!(studio.document.next_hydration_bytes(undo), 4_096);
    let step = studio
        .document
        .prepare_history_swap(&mut studio.target, device(), undo, Ok(()))
        .unwrap()
        .unwrap();
    studio
        .document
        .submit_history_swap(&mut studio.target, step)
        .unwrap();
    assert_eq!(studio.document.history().resident_bytes(), 2 * 4_096);
    assert_eq!(studio.document.next_hydration_bytes(undo), 0);
    assert_eq!(studio.document.history().redo_depth(), 1);
}

#[test]
fn a_step_waits_for_room_on_the_device() {
    let id = GpuHistoryId::from_raw;
    let mut studio = small_history(2);
    for _ in 0..2 {
        studio.paint_dot();
        studio.read_back(&painted_block());
    }
    studio.document.enable_history_archive();
    let room = studio.document.make_history_room(1, false, &vec![id(1)]);
    assert_eq!(room.begun, ArchiveStep::Settle(id(1)));
    studio.paint_dot();
    assert_eq!(studio.document.history().undo_depth(), 3);
    assert_eq!(studio.document.history().resident_bytes(), 2 * 4_096);
    studio.read_back(&painted_block());
    let undo = GpuHistoryDirection::Undo;
    for _ in 0..2 {
        let step = studio
            .document
            .prepare_history_swap(&mut studio.target, device(), undo, Ok(()))
            .unwrap()
            .unwrap();
        studio
            .document
            .submit_history_swap(&mut studio.target, step)
            .unwrap();
        studio.read_back(&painted_block());
    }
    assert_eq!(studio.document.next_hydration_bytes(undo), 4_096);
    assert!(!studio.document.has_room_for_step(undo));
    let full = studio
        .document
        .prepare_history_swap(&mut studio.target, device(), undo, Ok(()))
        .unwrap_err();
    assert!(matches!(
        full.error,
        GpuResidentDocumentError::Archive(ArchiveError::Full)
    ));
    let room = studio
        .document
        .make_history_room(4_096, false, &vec![id(2), id(3)]);
    assert_eq!(room.begun, ArchiveStep::Settle(id(3)));
    assert!(studio.document.has_room_for_step(undo));
}

fn wide_bounds(_from: RoundContact, _to: RoundContact) -> RoundBounds {
    RoundBounds {
        min_x: 0,
        min_y: 0,
        max_x: 48,
        max_y: 48,
    }
}

#[test]
fn a_broad_contact_finishes_its_surface_before_the_commit() {
    let layout = AtlasLayout::new(16, 16, 64).unwrap();
    for (bounds, broad) in [(true, true), (false, false)] {
        let target =
            GpuDocumentTarget::new(device(), layout, &mut GpuDocumentTargetIds::new()).unwrap();
        let metadata =
            DocumentMetadata::new_blank(48, 48, 16, DocumentRevision::initial()).unwrap();
        let mut document =
            GpuResidentDocument::new(metadata, &target, GpuResidentDocumentLimits::default())
                .unwrap();
        let mut engine = GpuResidentRoundStrokeEngine::new(device(), &document).unwrap();
        engine
            .begin_loaded(&mut document, &target, recipe(), ONE)
            .unwrap();
        if bounds {
            engine
                .submit_commands(&mut document, &dot(), &wide_bounds)
                .unwrap();
            assert_eq!(engine.deposition_mask().retained_page_count(), 9);
        } else {
            engine
                .submit_commands(&mut document, &dot(), &dot_bounds)
                .unwrap();
        }
        let prepared = engine.prepare_commit_surface(&document, &target).unwrap();
        assert_eq!(prepared.wait, broad);
        assert!(!prepared.refresh.unwrap().dispatches.is_empty());
        let mut target = target;
        let committed = engine
            .commit(&mut document, &mut target, device())
            .unwrap()
            .unwrap();
        assert!(committed.work.refresh.unwrap().dispatches.is_empty());
    }
    let mut studio = studio();
    assert!(matches!(
        studio
            .engine
            .prepare_commit_surface(&studio.document, &studio.target),
        Err(GpuResidentRoundStrokeError::NoActiveStroke)
    ));
}

#[test]
fn compressed_pixels_of_a_dropped_edit_are_not_kept() {
    let id = GpuHistoryId::from_raw;
    let mut studio = small_history(3);
    for _ in 0..3 {
        studio.paint_dot();
        studio.read_back(&painted_block());
    }
    let none: Vec<GpuHistoryId> = Vec::new();
    studio.document.enable_history_archive();
    assert_eq!(
        studio.document.poll_history_archive(&none),
        ArchiveStep::Compress(id(1))
    );
    studio.document.compression_started(id(1));
    studio.paint_dot();
    assert_eq!(studio.document.history().undo_depth(), 3);
    let resident = studio.document.history().resident_bytes();
    assert_eq!(studio.document.finish_archive(true), None);
    assert_eq!(studio.document.history().resident_bytes(), resident);
    assert!(!studio.document.archive_busy());

    assert_eq!(
        studio.document.poll_history_archive(&none),
        ArchiveStep::Compress(id(2))
    );
    studio.document.compression_started(id(2));
    assert_eq!(studio.document.finish_archive(false), None);
    assert_eq!(studio.document.poll_history_archive(&none), ArchiveStep::Idle);
}
