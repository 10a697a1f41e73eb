//! Batches of a round stroke.

use crate::gpu_atlas::{
    allocate_all, AtlasAllocation, AtlasError, AtlasGeometry, AtlasSlot, LayerTileKey,
    SparseAtlasPlanner,
};
use crate::gpu_material::{damaged_around, relief_slot, MaterialTarget, SurfaceModel};
use crate::gpu_resident_document::{GpuResidentDocument, GpuResidentDocumentError, ResidentModel};
use crate::gpu_resident_round_stroke::{
    given_back, ActiveRoundStroke, EngineModel, GpuResidentRoundBatchStats,
    GpuResidentRoundStrokeEngine, GpuResidentRoundStrokeError, StrokeModel, MATERIAL_SUBMISSIONS,
};
use crate::gpu_resident_strokes::relief_keys;
use crate::gpu_round::{
    schedule_reported, RoundBatchModel, RoundBounds, RoundMaskBatch, RoundMaskError,
    SchedulerModel,
};
use crate::gpu_round_target::{
    active_list, encode_reported, ActiveRoundMaskTile, RoundMaskEncoding, RoundMaskTargetError,
    RoundTargetModel,
};
use crate::keyed_map::{Key, KeyedMap};
use crate::ordering::{sort, stable_sorted, Ranked};
use crate::raster::TileCoord;
use crate::stroke::{RoundContact, RoundPathCommand};
use vstd::prelude::*;

verus! {

/// A tile that is ranked by where it lies on the canvas.
#[derive(Clone, Copy, Debug, PartialEq, Eq)]
pub struct PlacedTile {
    pub tile: ActiveRoundMaskTile,
}

impl Ranked for PlacedTile {
    /// Row by row.
    open spec fn le(self, other: Self) -> bool {
        if self.tile.key.tile.y != other.tile.key.tile.y {
            self.tile.key.tile.y < other.tile.key.tile.y
        } else {
            self.tile.key.tile.x <= other.tile.key.tile.x
        }
    }

    proof fn le_total(first: Self, second: Self) {
    }

    proof fn le_transitive(first: Self, second: Self, third: Self) {
    }

    fn not_after(&self, other: &Self) -> (le: bool) {
        if self.tile.key.tile.y != other.tile.key.tile.y {
            self.tile.key.tile.y < other.tile.key.tile.y
        } else {
            self.tile.key.tile.x <= other.tile.key.tile.x
        }
    }
}

pub open spec fn placed(tiles: Seq<ActiveRoundMaskTile>) -> Seq<PlacedTile> {
    Seq::new(tiles.len(), |i: int| PlacedTile { tile: tiles[i] })
}

/// The tiles that a batch touches, with their places.
pub open spec fn touched_tiles(batch: RoundBatchModel) -> Seq<ActiveRoundMaskTile> {
    Seq::new(
        batch.touched_tiles.len(),
        |i: int|
            ActiveRoundMaskTile {
                key: batch.touched_tiles[i].key,
                slot: batch.allocations[i].slot,
                local_damage: batch.touched_tiles[i].local_damage,
            },
    )
}

/// Whether the document holds relief for one of the first tiles.
pub open spec fn touches_relief(
    geometry: AtlasGeometry,
    places: Seq<Option<LayerTileKey>>,
    batch: RoundBatchModel,
) -> bool {
    exists|i: int|
        0 <= i < batch.touched_tiles.len() && relief_slot(
            geometry,
            places,
            (#[trigger] batch.touched_tiles[i]).key,
        ) is Some
}

/// Whether a batch has to be shown as paint with relief.
pub open spec fn needs_surface(
    stroke: StrokeModel,
    geometry: AtlasGeometry,
    places: Seq<Option<LayerTileKey>>,
    batch: RoundBatchModel,
) -> bool {
    stroke.loaded || stroke.material_surface || touches_relief(geometry, places, batch)
}

/// The tiles in order, without those whose key came just before, and without those that
/// have no relief where only tiles with relief are wanted.
pub open spec fn distinct_tiles(
    tiles: Seq<PlacedTile>,
    n: int,
) -> Seq<ActiveRoundMaskTile>
    decreases n,
{
    if n <= 0 {
        Seq::empty()
    } else {
        let rest = distinct_tiles(tiles, n - 1);
        let tile = tiles[n - 1].tile;
        if rest.len() > 0 && rest.last().key == tile.key {
            rest
        } else {
            rest.push(tile)
        }
    }
}

pub open spec fn with_relief(
    geometry: AtlasGeometry,
    places: Seq<Option<LayerTileKey>>,
    tiles: Seq<ActiveRoundMaskTile>,
    n: int,
) -> Seq<ActiveRoundMaskTile>
    decreases n,
{
    if n <= 0 {
        Seq::empty()
    } else {
        let rest = with_relief(geometry, places, tiles, n - 1);
        if relief_slot(geometry, places, tiles[n - 1].key) is Some {
            rest.push(tiles[n - 1])
        } else {
            rest
        }
    }
}

/// The tiles that need a place for their relief.
pub open spec fn surface_tiles(
    stroke: StrokeModel,
    geometry: AtlasGeometry,
    places: Seq<Option<LayerTileKey>>,
    listed: Seq<ActiveRoundMaskTile>,
    batch: RoundBatchModel,
) -> Seq<ActiveRoundMaskTile> {
    let ordered = stable_sorted(placed(listed + touched_tiles(batch)));
    let distinct = distinct_tiles(ordered, ordered.len() as int);
    if stroke.loaded {
        distinct
    } else {
        with_relief(geometry, places, distinct, distinct.len() as int)
    }
}

/// The tiles that the stroke had touched before it was shown with relief.
pub open spec fn earlier_tiles(
    stroke: StrokeModel,
    mask: RoundTargetModel,
    listed: Seq<ActiveRoundMaskTile>,
) -> bool {
    if stroke.material_surface {
        listed.len() == 0
    } else {
        active_list(mask.active_tiles, listed)
    }
}

pub open spec fn newly(allocations: Seq<AtlasAllocation>) -> Seq<AtlasAllocation>
    decreases allocations.len(),
{
    if allocations.len() == 0 {
        Seq::empty()
    } else {
        let rest = newly(allocations.drop_last());
        if allocations.last().newly_allocated {
            rest.push(allocations.last())
        } else {
            rest
        }
    }
}

pub open spec fn slots_noted(
    slots: Map<TileCoord, AtlasSlot>,
    allocations: Seq<AtlasAllocation>,
) -> Map<TileCoord, AtlasSlot>
    decreases allocations.len(),
{
    if allocations.len() == 0 {
        slots
    } else {
        slots_noted(slots, allocations.drop_last()).insert(
            allocations.last().key.tile,
            allocations.last().slot,
        )
    }
}

/// The marks of the surface once these tiles were touched.
pub open spec fn all_damaged(dirty: Map<TileCoord, ()>, tiles: Seq<ActiveRoundMaskTile>) -> Map<
    TileCoord,
    (),
>
    decreases tiles.len(),
{
    if tiles.len() == 0 {
        dirty
    } else {
        damaged_around(all_damaged(dirty, tiles.drop_last()), tiles.last().key.tile)
    }
}

/// The stroke once a batch was drawn.
pub open spec fn batch_noted(
    stroke: StrokeModel,
    scheduler: SchedulerModel,
    batch: RoundBatchModel,
    commands: Seq<RoundPathCommand>,
    surface: bool,
    material: Seq<AtlasAllocation>,
) -> StrokeModel {
    StrokeModel {
        scheduler,
        commands: if !stroke.shader_brush && !surface {
            stroke.commands + commands
        } else {
            stroke.commands
        },
        provisional: stroke.provisional + newly(material) + newly(batch.allocations),
        submitted: if batch.pages.len() > 0 && stroke.submitted < u32::MAX {
            (stroke.submitted + 1) as u32
        } else {
            stroke.submitted
        },
        material_surface: surface,
        material_slots: slots_noted(stroke.material_slots, material),
        ..stroke
    }
}

/// The engine once a batch was drawn into `mask`.
pub open spec fn batch_drawn(
    engine: EngineModel,
    stroke: StrokeModel,
    noted: StrokeModel,
    mask: RoundTargetModel,
    batch: RoundBatchModel,
    shown: Seq<ActiveRoundMaskTile>,
) -> EngineModel {
    EngineModel {
        surface: if noted.material_surface {
            SurfaceModel {
                dirty: all_damaged(
                    all_damaged(engine.surface.dirty, shown),
                    touched_tiles(batch),
                ),
                ..engine.surface
            }
        } else {
            engine.surface
        },
        active: Some(noted),
        submissions: if batch.pages.len() > 0 && stroke.loaded {
            engine.submissions + 1
        } else {
            engine.submissions
        },
        ..engine.with_used(
            stroke.loaded,
            RoundTargetModel { pending: false, pending_changes: Seq::empty(), ..mask },
        )
    }
}

/// A batch that was drawn, for the device.
#[derive(Debug)]
pub struct GpuResidentRoundSubmission {
    pub stats: GpuResidentRoundBatchStats,
    pub encoding: RoundMaskEncoding,
}

pub open spec fn batch_stats(batch: RoundBatchModel, encoding: RoundMaskEncoding) -> GpuResidentRoundBatchStats {
    GpuResidentRoundBatchStats {
        commands: batch.commands,
        primitives: batch.primitives,
        touched_tiles: batch.touched_tiles.len() as u32,
        newly_allocated_tiles: newly(batch.allocations).len() as u32,
        mask: encoding.stats,
    }
}

/// What comes of a failure after tiles were placed: they are given back, and the stroke
/// goes on from where it was.
pub open(crate) spec fn batch_undone(
    engine: EngineModel,
    stroke: StrokeModel,
    scheduler: SchedulerModel,
    document: ResidentModel,
    material: Seq<AtlasAllocation>,
    batch: RoundBatchModel,
    cause: GpuResidentRoundStrokeError,
    result: Result<GpuResidentRoundSubmission, GpuResidentRoundStrokeError>,
    engine_after: EngineModel,
    document_after: ResidentModel,
) -> bool {
    let stuck = EngineModel { active: Some(StrokeModel { scheduler, ..stroke }), ..engine };
    match given_back(document, stroke.id, material) {
        Err(error) => {
            &&& result matches Err(found) && found == GpuResidentRoundStrokeError::Resident(error)
            &&& engine_after == stuck
            &&& document_after == document
        },
        Ok(first) => match given_back(first, stroke.id, batch.allocations) {
            Err(error) => {
                &&& result matches Err(found) && found == GpuResidentRoundStrokeError::Resident(
                    error,
                )
                &&& engine_after == stuck
                &&& document_after == first
            },
            Ok(second) => {
                &&& result matches Err(found) && found == cause
                &&& engine_after == (EngineModel { active: Some(stroke), ..engine })
                &&& document_after == second
            },
        },
    }
}

/// What comes of a batch once the relief of its tiles has places.
pub open(crate) spec fn draw_reported(
    engine: EngineModel,
    stroke: StrokeModel,
    scheduler: SchedulerModel,
    document: ResidentModel,
    material: Seq<AtlasAllocation>,
    surface: bool,
    batch: RoundBatchModel,
    commands: Seq<RoundPathCommand>,
    result: Result<GpuResidentRoundSubmission, GpuResidentRoundStrokeError>,
    engine_after: EngineModel,
    document_after: ResidentModel,
) -> bool {
    exists|encoded: Result<RoundMaskEncoding, RoundMaskTargetError>, mask: RoundTargetModel|
        {
            &&& #[trigger] encode_reported(engine.used(stroke.loaded), batch, encoded, mask)
            &&& match encoded {
                Err(error) => batch_undone(
                    engine.with_used(stroke.loaded, mask),
                    stroke,
                    scheduler,
                    document,
                    material,
                    batch,
                    GpuResidentRoundStrokeError::Mask(error),
                    result,
                    engine_after,
                    document_after,
                ),
                Ok(encoding) => {
                    let noted = batch_noted(stroke, scheduler, batch, commands, surface, material);
                    &&& result matches Ok(submission)
                    &&& submission.encoding == encoding
                    &&& submission.stats == batch_stats(batch, encoding)
                    &&& document_after == document
                    &&& if surface {
                        exists|shown: Seq<ActiveRoundMaskTile>| #[trigger]
                            earlier_tiles(stroke, mask, shown) && engine_after == batch_drawn(
                                engine,
                                stroke,
                                noted,
                                mask,
                                batch,
                                shown,
                            )
                    } else {
                        engine_after == batch_drawn(
                            engine,
                            stroke,
                            noted,
                            mask,
                            batch,
                            Seq::empty(),
                        )
                    }
                },
            }
        }
}

/// What comes of a batch whose tiles have places. `document` is the document with them.
pub open(crate) spec fn batch_reported(
    engine: EngineModel,
    stroke: StrokeModel,
    scheduler: SchedulerModel,
    document: ResidentModel,
    batch: RoundBatchModel,
    commands: Seq<RoundPathCommand>,
    result: Result<GpuResidentRoundSubmission, GpuResidentRoundStrokeError>,
    engine_after: EngineModel,
    document_after: ResidentModel,
) -> bool {
    if !needs_surface(stroke, document.layout@, document.places, batch) {
        draw_reported(
            engine,
            stroke,
            scheduler,
            document,
            Seq::empty(),
            false,
            batch,
            commands,
            result,
            engine_after,
            document_after,
        )
    } else {
        exists|listed: Seq<ActiveRoundMaskTile>|
            {
                &&& #[trigger] earlier_tiles(stroke, engine.used(stroke.loaded), listed)
                &&& match allocate_all(
                    document.layout@,
                    document.places,
                    relief_keys(
                        surface_tiles(stroke, document.layout@, document.places, listed, batch),
                    ),
                ) {
                    None => batch_undone(
                        engine,
                        stroke,
                        scheduler,
                        document,
                        Seq::empty(),
                        batch,
                        GpuResidentRoundStrokeError::Resident(
                            GpuResidentDocumentError::Atlas(
                                AtlasError::CapacityExhausted {
                                    capacity: document.layout@.capacity() as u32,
                                },
                            ),
                        ),
                        result,
                        engine_after,
                        document_after,
                    ),
                    Some((places, material)) => draw_reported(
                        engine,
                        stroke,
                        scheduler,
                        ResidentModel { places, ..document },
                        material,
                        true,
                        batch,
                        commands,
                        result,
                        engine_after,
                        document_after,
                    ),
                }
            }
    }
}

/// What comes of a run of commands.
pub open(crate) spec fn submit_reported<F: Fn(RoundContact, RoundContact) -> RoundBounds>(
    bounds_of: F,
    engine: EngineModel,
    document: ResidentModel,
    commands: Seq<RoundPathCommand>,
    result: Result<GpuResidentRoundSubmission, GpuResidentRoundStrokeError>,
    engine_after: EngineModel,
    document_after: ResidentModel,
) -> bool {
    match engine.active {
        None => {
            &&& result matches Err(error) && error == GpuResidentRoundStrokeError::NoActiveStroke
            &&& engine_after == engine
            &&& document_after == document
        },
        Some(stroke) => match document.stroke_layer_error(stroke.id, stroke.scheduler.layer) {
            Some(expected) => {
                &&& result matches Err(error) && error == GpuResidentRoundStrokeError::Resident(
                    expected,
                )
                &&& engine_after == engine
                &&& document_after == document
            },
            None => exists|
                scheduled: Result<RoundMaskBatch, RoundMaskError>,
                scheduler: SchedulerModel,
                places: Seq<Option<LayerTileKey>>,
            |
                {
                    &&& #[trigger] schedule_reported(
                        bounds_of,
                        stroke.scheduler,
                        document.layout@,
                        document.places,
                        commands,
                        scheduled,
                        scheduler,
                        places,
                    )
                    &&& match scheduled {
                        Err(expected) => {
                            &&& result matches Err(error) && error
                                == GpuResidentRoundStrokeError::Resident(
                                GpuResidentDocumentError::RoundMask(expected),
                            )
                            &&& engine_after == engine
                            &&& document_after == document
                        },
                        Ok(batch) => batch_reported(
                            engine,
                            stroke,
                            scheduler,
                            ResidentModel { places, ..document },
                            batch@,
                            commands,
                            result,
                            engine_after,
                            document_after,
                        ),
                    }
                },
        },
    }
}

fn list_touched(batch: &RoundMaskBatch) -> (tiles: Vec<ActiveRoundMaskTile>)
    requires
        batch.wf(),
    ensures
        tiles@ == touched_tiles(batch@),
{
    let touched = batch.touched_tiles();
    let allocations = batch.allocations();
    let mut tiles: Vec<ActiveRoundMaskTile> = Vec::new();
    let mut i: usize = 0;
    while i < touched.len()
        invariant
            touched@ == batch@.touched_tiles,
            allocations@ == batch@.allocations,
            touched@.len() == allocations@.len(),
            i <= touched@.len(),
            tiles@ == touched_tiles(batch@).subrange(0, i as int),
        decreases touched@.len() - i,
    {
        tiles.push(
            ActiveRoundMaskTile {
                key: touched[i].key,
                slot: allocations[i].slot,
                local_damage: touched[i].local_damage,
            },
        );
        i += 1;
        assert(tiles@ =~= touched_tiles(batch@).subrange(0, i as int));
    }
    assert(tiles@ =~= touched_tiles(batch@));
    tiles
}

fn any_relief(atlas: &SparseAtlasPlanner, batch: &RoundMaskBatch) -> (found: bool)
    requires
        atlas.wf(),
    ensures
        found == touches_relief(atlas.geometry(), atlas.places(), batch@),
{
    let touched = batch.touched_tiles();
    let mut i: usize = 0;
    while i < touched.len()
        invariant
            atlas.wf(),
            touched@ == batch@.touched_tiles,
            i <= touched@.len(),
            forall|k: int|
                0 <= k < i ==> relief_slot(
                    atlas.geometry(),
                    atlas.places(),
                    (#[trigger] batch@.touched_tiles[k]).key,
                ) is None,
        decreases touched@.len() - i,
    {
        let key = touched[i].key;
        let plane = LayerTileKey::new(key.layer.material_plane(), key.tile);
        if atlas.slot(plane).is_some() {
            assert(batch@.touched_tiles[i as int].key == key);
            return true;
        }
        i += 1;
    }
    false
}

fn place_all(tiles: &Vec<ActiveRoundMaskTile>) -> (list: Vec<PlacedTile>)
    ensures
        list@ == placed(tiles@),
{
    let mut list: Vec<PlacedTile> = Vec::new();
    let mut i: usize = 0;
    while i < tiles.len()
        invariant
            i <= tiles@.len(),
            list@ == placed(tiles@).subrange(0, i as int),
        decreases tiles@.len() - i,
    {
        list.push(PlacedTile { tile: tiles[i] });
        i += 1;
        assert(list@ =~= placed(tiles@).subrange(0, i as int));
    }
    assert(list@ =~= placed(tiles@));
    list
}

/// The tiles in order, each key once.
fn order_tiles(tiles: &Vec<ActiveRoundMaskTile>) -> (distinct: Vec<ActiveRoundMaskTile>)
    ensures
        ({
            let ordered = stable_sorted(placed(tiles@));
            distinct@ == distinct_tiles(ordered, ordered.len() as int)
        }),
{
    let ordered = sort(place_all(tiles));
    let mut distinct: Vec<ActiveRoundMaskTile> = Vec::new();
    let mut i: usize = 0;
    while i < ordered.len()
        invariant
            i <= ordered@.len(),
            distinct@ == distinct_tiles(ordered@, i as int),
        decreases ordered@.len() - i,
    {
        let tile = ordered[i].tile;
        let n: usize = distinct.len();
        if n == 0 || !distinct[n - 1].key.same(tile.key) {
            distinct.push(tile);
        }
        i += 1;
    }
    distinct
}

fn keep_relief(atlas: &SparseAtlasPlanner, tiles: &Vec<ActiveRoundMaskTile>) -> (kept: Vec<
    ActiveRoundMaskTile,
>)
    requires
        atlas.wf(),
    ensures
        kept@ == with_relief(
            atlas.geometry(),
            atlas.places(),
            tiles@,
            tiles@.len() as int,
        ),
{
    let mut kept: Vec<ActiveRoundMaskTile> = Vec::new();
    let mut i: usize = 0;
    while i < tiles.len()
        invariant
            atlas.wf(),
            i <= tiles@.len(),
            kept@ == with_relief(atlas.geometry(), atlas.places(), tiles@, i as int),
        decreases tiles@.len() - i,
    {
        let tile = tiles[i];
        let plane = LayerTileKey::new(tile.key.layer.material_plane(), tile.key.tile);
        if atlas.slot(plane).is_some() {
            kept.push(tile);
        }
        i += 1;
    }
    kept
}

fn extend_newly(list: &mut Vec<AtlasAllocation>, allocations: &Vec<AtlasAllocation>)
    ensures
        final(list)@ == old(list)@ + newly(allocations@),
{
    let ghost before = list@;
    let mut i: usize = 0;
    assert(allocations@.subrange(0, 0) =~= Seq::empty());
    assert(before + newly(allocations@.subrange(0, 0)) =~= before);
    while i < allocations.len()
        invariant
            i <= allocations@.len(),
            list@ == before + newly(allocations@.subrange(0, i as int)),
        decreases allocations@.len() - i,
    {
        let allocation = allocations[i];
        assert(allocations@.subrange(0, i as int + 1).drop_last() =~= allocations@.subrange(
            0,
            i as int,
        ));
        if allocation.newly_allocated {
            list.push(allocation);
            assert(list@ =~= before + newly(allocations@.subrange(0, i as int + 1)));
        }
        i += 1;
    }
    assert(allocations@.subrange(0, i as int) =~= allocations@);
}

fn note_slots(
    slots: &mut KeyedMap<TileCoord, AtlasSlot>,
    allocations: &Vec<AtlasAllocation>,
)
    requires
        old(slots).wf(),
    ensures
        final(slots).wf(),
        final(slots)@ == slots_noted(old(slots)@, allocations@),
{
    let ghost before = slots@;
    let mut i: usize = 0;
    assert(allocations@.subrange(0, 0) =~= Seq::empty());
    while i < allocations.len()
        invariant
            i <= allocations@.len(),
            slots.wf(),
            slots@ == slots_noted(before, allocations@.subrange(0, i as int)),
        decreases allocations@.len() - i,
    {
        assert(allocations@.subrange(0, i as int + 1).drop_last() =~= allocations@.subrange(
            0,
            i as int,
        ));
        slots.insert(allocations[i].key.tile, allocations[i].slot);
        i += 1;
    }
    assert(allocations@.subrange(0, i as int) =~= allocations@);
}

fn damage_all(surface: &mut MaterialTarget, tiles: &Vec<ActiveRoundMaskTile>)
    requires
        old(surface).wf(),
    ensures
        final(surface).wf(),
        final(surface)@ == (SurfaceModel {
            dirty: all_damaged(old(surface)@.dirty, tiles@),
            ..old(surface)@
        }),
{
    let ghost before = surface@;
    let mut i: usize = 0;
    assert(tiles@.subrange(0, 0) =~= Seq::empty());
    while i < tiles.len()
        invariant
            i <= tiles@.len(),
            surface.wf(),
            surface@ == (SurfaceModel {
                dirty: all_damaged(before.dirty, tiles@.subrange(0, i as int)),
                ..before
            }),
        decreases tiles@.len() - i,
    {
        assert(tiles@.subrange(0, i as int + 1).drop_last() =~= tiles@.subrange(0, i as int));
        surface.damage(tiles[i].key.tile);
        i += 1;
    }
    assert(tiles@.subrange(0, i as int) =~= tiles@);
}

fn count_newly(allocations: &Vec<AtlasAllocation>) -> (count: u32)
    ensures
        count == newly(allocations@).len() as u32,
{
    let mut list: Vec<AtlasAllocation> = Vec::new();
    extend_newly(&mut list, allocations);
    assert(list@ =~= newly(allocations@));
    list.len() as u32
}

fn extend_commands(list: &mut Vec<RoundPathCommand>, commands: &Vec<RoundPathCommand>)
    ensures
        final(list)@ == old(list)@ + commands@,
{
    let ghost before = list@;
    let mut i: usize = 0;
    assert(before + commands@.subrange(0, 0) =~= before);
    while i < commands.len()
        invariant
            i <= commands@.len(),
            list@ == before + commands@.subrange(0, i as int),
        decreases commands@.len() - i,
    {
        list.push(commands[i]);
        i += 1;
        assert(list@ =~= before + commands@.subrange(0, i as int));
    }
    assert(commands@.subrange(0, i as int) =~= commands@);
}

impl GpuResidentRoundStrokeEngine {
    /// Whether the oldest submission of loaded paint has to be waited for before the next
    /// commands are taken.
    pub fn must_wait_for_submission(&self) -> (wait: bool)
        ensures
            wait == (self@.submissions >= MATERIAL_SUBMISSIONS),
    {
        self.material_submissions >= MATERIAL_SUBMISSIONS
    }

    /// Notes that the oldest submission of loaded paint is done.
    pub fn submission_done(&mut self)
        requires
            old(self).wf(),
        ensures
            final(self).wf(),
            final(self)@ == (EngineModel {
                submissions: if old(self)@.submissions > 0 {
                    old(self)@.submissions - 1
                } else {
                    0
                },
                ..old(self)@
            }),
    {
        if self.material_submissions > 0 {
            self.material_submissions = self.material_submissions - 1;
        }
    }

    /// Draws a run of commands. Where that fails, the tiles that it placed are given back.
    pub fn submit_commands<F: Fn(RoundContact, RoundContact) -> RoundBounds>(
        &mut self,
        document: &mut GpuResidentDocument,
        commands: &Vec<RoundPathCommand>,
        bounds_of: &F,
    ) -> (submission: Result<GpuResidentRoundSubmission, GpuResidentRoundStrokeError>)
        requires
            old(self).wf(),
            old(self)@.submissions < MATERIAL_SUBMISSIONS,
            old(document).wf(),
            forall|from: RoundContact, to: RoundContact| #[trigger]
                call_requires(*bounds_of, (from, to)),
        ensures
            final(self).wf(),
            final(document).wf(),
            submit_reported(
                *bounds_of,
                old(self)@,
                old(document)@,
                commands@,
                submission,
                final(self)@,
                final(document)@,
            ),
    {
        let ghost engine = self@;
        let mut active = match self.active.take() {
            Some(active) => active,
            None => {
                return Err(GpuResidentRoundStrokeError::NoActiveStroke);
            },
        };
        let ghost stroke = active@;
        let ghost before = document@;
        let previous = active.scheduler.active_contact;
        let scheduled = document.schedule_round_stroke(
            active.id,
            &mut active.scheduler,
            commands,
            bounds_of,
        );
        let batch = match scheduled {
            Ok(batch) => batch,
            Err(error) => {
                proof {
                    if let GpuResidentDocumentError::RoundMask(cause) = error {
                        if before.stroke_layer_error(stroke.id, stroke.scheduler.layer) is None {
                            assert(schedule_reported(
                                *bounds_of,
                                stroke.scheduler,
                                before.layout@,
                                before.places,
                                commands@,
                                Err(cause),
                                active@.scheduler,
                                document@.places,
                            ));
                        }
                    }
                }
                self.active = Some(active);
                return Err(GpuResidentRoundStrokeError::Resident(error));
            },
        };
        let ghost planned = batch;
        assert(schedule_reported(
            *bounds_of,
            stroke.scheduler,
            before.layout@,
            before.places,
            commands@,
            Ok(planned),
            active@.scheduler,
            document@.places,
        ));
        assert(document@ == (ResidentModel { places: document@.places, ..before }));
        let result = self.draw_batch(document, &mut active, previous, &batch, commands);
        self.active = Some(active);
        result
    }

    /// Draws a batch whose tiles have places.
    fn draw_batch(
        &mut self,
        document: &mut GpuResidentDocument,
        active: &mut ActiveRoundStroke,
        previous: Option<RoundContact>,
        batch: &RoundMaskBatch,
        commands: &Vec<RoundPathCommand>,
    ) -> (submission: Result<GpuResidentRoundSubmission, GpuResidentRoundStrokeError>)
        requires
            old(self).parts_wf(),
            old(self).active is None,
            old(self)@.submissions < MATERIAL_SUBMISSIONS,
            !old(self)@.mask.pending,
            !old(self)@.deposition.pending,
            old(document).wf(),
            old(document)@.stroke == Some(old(active)@.id),
            old(active).wf(),
            batch.wf(),
        ensures
            final(self).parts_wf(),
            final(self).active is None,
            !final(self)@.mask.pending,
            !final(self)@.deposition.pending,
            final(active)@.loaded == old(active)@.loaded,
            old(active)@.loaded ==> final(self)@.mask == old(self)@.mask,
            !old(active)@.loaded ==> final(self)@.deposition == old(self)@.deposition,
            final(self)@.used(old(active)@.loaded).active ==> old(self)@.used(
                old(active)@.loaded,
            ).active,
            final(document).wf(),
            final(active).wf(),
            ({
                let stroke = StrokeModel {
                    scheduler: SchedulerModel {
                        active: previous,
                        ..old(active)@.scheduler
                    },
                    ..old(active)@
                };
                batch_reported(
                    EngineModel { active: Some(stroke), ..old(self)@ },
                    stroke,
                    old(active)@.scheduler,
                    old(document)@,
                    batch@,
                    commands@,
                    submission,
                    EngineModel { active: Some(final(active)@), ..final(self)@ },
                    final(document)@,
                )
            }),
    {
        let ghost scheduler = active@.scheduler;
        let ghost stroke = StrokeModel {
            scheduler: SchedulerModel { active: previous, ..active@.scheduler },
            ..active@
        };
        let ghost engine = EngineModel { active: Some(stroke), ..self@ };
        let ghost before = document@;
        let needs = active.loaded || active.material_surface || any_relief(&document.atlas, batch);
        assert(needs == needs_surface(stroke, before.layout@, before.places, batch@));
        let mut material: Vec<AtlasAllocation> = Vec::new();
        let ghost mut listed: Seq<ActiveRoundMaskTile> = Seq::empty();
        if needs {
            let mut tiles: Vec<ActiveRoundMaskTile> = if active.material_surface {
                Vec::new()
            } else if active.loaded {
                self.deposition.active_tiles()
            } else {
                self.mask.active_tiles()
            };
            proof {
                listed = tiles@;
            }
            assert(earlier_tiles(stroke, engine.used(stroke.loaded), listed));
            let mut touched = list_touched(batch);
            tiles.append(&mut touched);
            assert(tiles@ =~= listed + touched_tiles(batch@));
            let distinct = order_tiles(&tiles);
            let wanted = if active.loaded {
                distinct
            } else {
                keep_relief(&document.atlas, &distinct)
            };
            match document.allocate_material_tiles(active.id, &wanted) {
                Ok(allocations) => {
                    material = allocations;
                },
                Err(error) => {
                    let none: Vec<AtlasAllocation> = Vec::new();
                    let result = self.undo_batch(
                        document,
                        active,
                        previous,
                        &none,
                        batch,
                        GpuResidentRoundStrokeError::Resident(error),
                    );
                    assert(none@ =~= Seq::empty());
                    return result;
                },
            }
        }
        let ghost placed_document = document@;
        let ghost given = self@;
        let loaded = active.loaded;
        let encoded = if loaded {
            self.deposition.encode_batch(batch)
        } else {
            self.mask.encode_batch(batch)
        };
        let ghost outcome = encoded;
        let ghost drawn = self@.used(loaded);
        assert(encode_reported(engine.used(stroke.loaded), batch@, outcome, drawn));
        let encoding = match encoded {
            Ok(encoding) => encoding,
            Err(error) => {
                let result = self.undo_batch(
                    document,
                    active,
                    previous,
                    &material,
                    batch,
                    GpuResidentRoundStrokeError::Mask(error),
                );
                assert(material@ =~= Seq::empty() || needs);
                return result;
            },
        };
        if !batch.is_empty() {
            let sent = if loaded {
                self.material_submissions = self.material_submissions + 1;
                self.deposition.encoded_batch_submitted()
            } else {
                self.mask.encoded_batch_submitted()
            };
            assert(sent is Ok);
            if active.submitted_batches < u32::MAX {
                active.submitted_batches = active.submitted_batches + 1;
            }
        }
        let ghost mut shown: Seq<ActiveRoundMaskTile> = Seq::empty();
        if needs {
            if !active.material_surface {
                let tiles = if loaded {
                    self.deposition.active_tiles()
                } else {
                    self.mask.active_tiles()
                };
                proof {
                    shown = tiles@;
                }
                damage_all(&mut self.surface, &tiles);
            }
            assert(earlier_tiles(stroke, drawn, shown));
            let touched = list_touched(batch);
            damage_all(&mut self.surface, &touched);
            active.material_surface = true;
            note_slots(&mut active.material_slots, &material);
            extend_newly(&mut active.provisional_allocations, &material);
        }
        if !active.shader_brush && !active.material_surface {
            extend_commands(&mut active.commands, commands);
        }
        extend_newly(&mut active.provisional_allocations, batch.allocations());
        let stats = GpuResidentRoundBatchStats {
            commands: batch.commands(),
            primitives: batch.primitives(),
            touched_tiles: batch.touched_tiles().len() as u32,
            newly_allocated_tiles: count_newly(batch.allocations()),
            mask: encoding.stats,
        };
        proof {
            let noted = batch_noted(stroke, scheduler, batch@, commands@, needs, material@);
            if !needs {
                assert(newly(material@) =~= Seq::empty());
                assert(stroke.provisional + newly(material@) =~= stroke.provisional);
            }
            assert(active@.provisional =~= noted.provisional);
            assert(active@ == noted);
            let after = EngineModel { active: Some(active@), ..self@ };
            if batch@.pages.len() == 0 {
                assert(drawn.pending_changes =~= Seq::empty());
            }
            assert(after == batch_drawn(engine, stroke, noted, drawn, batch@, shown));
        }
        Ok(GpuResidentRoundSubmission { stats, encoding })
    }

    /// Gives back what a batch placed.
    fn undo_batch(
        &mut self,
        document: &mut GpuResidentDocument,
        active: &mut ActiveRoundStroke,
        previous: Option<RoundContact>,
        material: &Vec<AtlasAllocation>,
        batch: &RoundMaskBatch,
        cause: GpuResidentRoundStrokeError,
    ) -> (submission: Result<GpuResidentRoundSubmission, GpuResidentRoundStrokeError>)
        requires
            old(document).wf(),
            old(active).wf(),
        ensures
            *final(self) == *old(self),
            final(document).wf(),
            final(active).wf(),
            final(active)@.loaded == old(active)@.loaded,
            ({
                let stroke = StrokeModel {
                    scheduler: SchedulerModel {
                        active: previous,
                        ..old(active)@.scheduler
                    },
                    ..old(active)@
                };
                batch_undone(
                    EngineModel { active: Some(stroke), ..old(self)@ },
                    stroke,
                    old(active)@.scheduler,
                    old(document)@,
                    material@,
                    batch@,
                    cause,
                    submission,
                    EngineModel { active: Some(final(active)@), ..final(self)@ },
                    final(document)@,
                )
            }),
    {
        match document.rollback_round_stroke_allocations(active.id, material) {
            Ok(_) => {},
            Err(error) => {
                return Err(GpuResidentRoundStrokeError::Resident(error));
            },
        }
        match document.rollback_round_stroke_allocations(active.id, batch.allocations()) {
            Ok(_) => {},
            Err(error) => {
                return Err(GpuResidentRoundStrokeError::Resident(error));
            },
        }
        active.scheduler.active_contact = previous;
        Err(cause)
    }
}

} // verus!
