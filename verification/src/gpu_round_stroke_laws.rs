//! What a stroke on a resident document remembers, and what it leaves when it ends.

use crate::gpu_atlas::{
    AtlasAllocation, AtlasGeometry, AtlasPageId, AtlasSlot, LayerTileKey,
};
use crate::gpu_document_mirror::region_holds_pixels;
use crate::gpu_document_target::{EncodedCommitModel, TargetModel};
use crate::gpu_mask_laws::law_touch_marks_the_tile_and_its_neighbors;
use crate::gpu_material::relief_slot;
use crate::gpu_readback_laws::{law_readback_reads_every_pixel_where_it_lies, plan_reads};
use crate::gpu_recovery_replay::GpuRasterRecoveryCommand;
use crate::gpu_resident_commit::{commit_plan, commit_prepared};
use crate::gpu_resident_document::{GpuResidentRoundStrokeId, ResidentModel};
use crate::gpu_resident_round_batch::{
    all_damaged, batch_noted, distinct_tiles, draw_reported, newly, placed, surface_tiles,
    touched_tiles, with_relief, GpuResidentRoundSubmission, PlacedTile,
};
use crate::gpu_resident_round_commit::{commit_tiles, relief_tiles, stroke_command};
use crate::gpu_resident_round_stroke::{
    abandon_reported, begin_reported, bounded_load, EngineModel, GpuResidentRoundStrokeError, StrokeModel,
};
use crate::gpu_round::{RoundBatchModel, SchedulerModel};
use crate::gpu_round_target::{ActiveRoundMaskTile, Resident};
use crate::ordering::{lemma_sorted_contains, stable_sorted};
use crate::raster::{Rect, TileCoord};
use crate::stroke::{RoundBrushRecipeV1, RoundPathCommand};
use vstd::prelude::*;

verus! {

/// A stroke begins with nothing drawn, nothing remembered and no places, on the layer that is chosen,
/// under a number that no stroke has had; the document only notes that it is under way.
pub proof fn law_stroke_begins_empty(
    engine: EngineModel,
    document: ResidentModel,
    target: TargetModel,
    recipe: RoundBrushRecipeV1,
    brush: (bool, bool, u32),
    id: GpuResidentRoundStrokeId,
    engine_after: EngineModel,
    document_after: ResidentModel,
)
    requires
        begin_reported(
            engine,
            document,
            target,
            recipe,
            brush,
            Ok::<GpuResidentRoundStrokeId, GpuResidentRoundStrokeError>(id),
            engine_after,
            document_after,
        ),
    ensures
        engine.active is None,
        document.stroke is None,
        engine_after.active matches Some(stroke) && {
            &&& stroke.id == id
            &&& stroke.recipe == recipe
            &&& stroke.scheduler.layer == document.metadata.active
            &&& stroke.scheduler.active is None
            &&& stroke.commands.len() == 0
            &&& stroke.provisional.len() == 0
            &&& stroke.submitted == 0
            &&& stroke.shader_brush == brush.0
            &&& stroke.loaded == brush.1
            &&& !stroke.material_surface
            &&& (if brush.1 {
                engine_after.deposition
            } else {
                engine_after.mask
            }).active
            &&& (if brush.1 {
                engine_after.deposition
            } else {
                engine_after.mask
            }).active_tiles == Map::<Resident, Rect>::empty()
        },
        brush.1 ==> engine_after.mask == engine.mask,
        !brush.1 ==> engine_after.deposition == engine.deposition,
        document_after.stroke == Some(id),
        document_after.next_stroke == document.next_stroke + 1,
        document_after.places == document.places,
        document_after.metadata == document.metadata,
        document_after.history == document.history,
        document_after.recovery == document.recovery,
        document_after.mirror == document.mirror,
{
}

/// Of the answers for places, those for tiles that had none before.
pub proof fn law_new_places_are_remembered(
    allocations: Seq<AtlasAllocation>,
    allocation: AtlasAllocation,
)
    ensures
        newly(allocations).contains(allocation) <==> allocations.contains(allocation)
            && allocation.newly_allocated,
    decreases allocations.len(),
{
    if allocations.len() > 0 {
        let rest = allocations.drop_last();
        law_new_places_are_remembered(rest, allocation);
        let some = newly(rest);
        let all = newly(allocations);
        if allocations.contains(allocation) {
            let i = choose|i: int| 0 <= i < allocations.len() && allocations[i] == allocation;
            if i < rest.len() {
                assert(rest[i] == allocation);
            } else if allocation.newly_allocated {
                assert(all[some.len() as int] == allocation);
            }
        }
        if all.contains(allocation) {
            let i = choose|i: int| 0 <= i < all.len() && all[i] == allocation;
            if i < some.len() {
                assert(some[i] == allocation);
            } else {
                assert(allocations[allocations.len() - 1] == allocation);
            }
        }
        if some.contains(allocation) {
            let i = choose|i: int| 0 <= i < some.len() && some[i] == allocation;
            assert(all[i] == allocation);
            let k = choose|k: int| 0 <= k < rest.len() && rest[k] == allocation;
            assert(allocations[k] == allocation);
        }
    } else {
        assert(newly(allocations).len() == 0);
    }
}

/// A batch that is drawn is remembered: its commands behind the earlier ones, so long as the stroke
/// can be replayed from them, and its new places behind the earlier ones. The document only has the
/// places more.
pub proof fn law_drawn_batch_is_remembered(
    engine: EngineModel,
    stroke: StrokeModel,
    scheduler: SchedulerModel,
    document: ResidentModel,
    material: Seq<AtlasAllocation>,
    surface: bool,
    batch: RoundBatchModel,
    commands: Seq<RoundPathCommand>,
    submission: GpuResidentRoundSubmission,
    engine_after: EngineModel,
    document_after: ResidentModel,
    allocation: AtlasAllocation,
)
    requires
        draw_reported(
            engine,
            stroke,
            scheduler,
            document,
            material,
            surface,
            batch,
            commands,
            Ok::<GpuResidentRoundSubmission, GpuResidentRoundStrokeError>(submission),
            engine_after,
            document_after,
        ),
    ensures
        document_after == document,
        engine_after.active matches Some(noted) && {
            &&& noted.id == stroke.id
            &&& noted.recipe == stroke.recipe
            &&& noted.loaded == stroke.loaded
            &&& noted.shader_brush == stroke.shader_brush
            &&& noted.scheduler == scheduler
            &&& noted.material_surface == surface
            &&& !stroke.shader_brush && !surface ==> noted.commands == stroke.commands + commands
            &&& stroke.shader_brush || surface ==> noted.commands == stroke.commands
            &&& noted.provisional.contains(allocation) <==> {
                ||| stroke.provisional.contains(allocation)
                ||| material.contains(allocation) && allocation.newly_allocated
                ||| batch.allocations.contains(allocation) && allocation.newly_allocated
            }
        },
        submission.stats.commands == batch.commands,
        submission.stats.primitives == batch.primitives,
{
    law_new_places_are_remembered(material, allocation);
    law_new_places_are_remembered(batch.allocations, allocation);
    let noted = batch_noted(stroke, scheduler, batch, commands, surface, material);
    let a = stroke.provisional;
    let b = newly(material);
    let c = newly(batch.allocations);
    assert(noted.provisional == a + b + c);
    if (a + b + c).contains(allocation) {
        let i = choose|i: int| 0 <= i < (a + b + c).len() && (a + b + c)[i] == allocation;
        if i < a.len() {
            assert(a[i] == allocation);
        } else if i < a.len() + b.len() {
            assert(b[i - a.len()] == allocation);
        } else {
            assert(c[i - a.len() - b.len()] == allocation);
        }
    }
    if a.contains(allocation) {
        let i = choose|i: int| 0 <= i < a.len() && a[i] == allocation;
        assert((a + b + c)[i] == allocation);
    }
    if b.contains(allocation) {
        let i = choose|i: int| 0 <= i < b.len() && b[i] == allocation;
        assert((a + b + c)[a.len() + i] == allocation);
    }
    if c.contains(allocation) {
        let i = choose|i: int| 0 <= i < c.len() && c[i] == allocation;
        assert((a + b + c)[a.len() + b.len() + i] == allocation);
    }
}

/// Tiles that are drawn on mark themselves and the tiles beside them for the surface, and no others.
pub proof fn law_drawn_tiles_mark_their_surroundings(
    dirty: Map<TileCoord, ()>,
    tiles: Seq<ActiveRoundMaskTile>,
    other: TileCoord,
)
    ensures
        all_damaged(dirty, tiles).contains_key(other) <==> {
            ||| dirty.contains_key(other)
            ||| exists|i: int|
                {
                    let at = (#[trigger] tiles[i]).key.tile;
                    &&& 0 <= i < tiles.len()
                    &&& (other == at || (other.y == at.y && (other.x == at.x + 1 || other.x == at.x
                        - 1)) || (other.x == at.x && (other.y == at.y + 1 || other.y == at.y - 1)))
                }
        },
    decreases tiles.len(),
{
    if tiles.len() > 0 {
        let rest = tiles.drop_last();
        law_drawn_tiles_mark_their_surroundings(dirty, rest, other);
        law_touch_marks_the_tile_and_its_neighbors(
            all_damaged(dirty, rest),
            tiles.last().key.tile,
            other,
        );
        assert(forall|i: int| #![trigger rest[i]] 0 <= i < rest.len() ==> rest[i] == tiles[i]);
        assert(tiles[tiles.len() - 1] == tiles.last());
        if all_damaged(dirty, rest).contains_key(other) && !dirty.contains_key(other) {
            let i = choose|i: int|
                {
                    let at = (#[trigger] rest[i]).key.tile;
                    &&& 0 <= i < rest.len()
                    &&& (other == at || (other.y == at.y && (other.x == at.x + 1 || other.x == at.x
                        - 1)) || (other.x == at.x && (other.y == at.y + 1 || other.y == at.y - 1)))
                };
            assert(tiles[i] == rest[i]);
        }
        if exists|i: int|
            {
                let at = (#[trigger] tiles[i]).key.tile;
                &&& 0 <= i < tiles.len()
                &&& (other == at || (other.y == at.y && (other.x == at.x + 1 || other.x == at.x
                    - 1)) || (other.x == at.x && (other.y == at.y + 1 || other.y == at.y - 1)))
            } {
            let i = choose|i: int|
                {
                    let at = (#[trigger] tiles[i]).key.tile;
                    &&& 0 <= i < tiles.len()
                    &&& (other == at || (other.y == at.y && (other.x == at.x + 1 || other.x == at.x
                        - 1)) || (other.x == at.x && (other.y == at.y + 1 || other.y == at.y - 1)))
                };
            if i < rest.len() {
                assert(rest[i] == tiles[i]);
            }
        }
    }
}

proof fn lemma_distinct_tiles(tiles: Seq<PlacedTile>, n: int, key: LayerTileKey)
    requires
        0 <= n <= tiles.len(),
    ensures
        (exists|j: int|
            0 <= j < distinct_tiles(tiles, n).len() && (#[trigger] distinct_tiles(tiles, n)[j]).key
                == key) <==> exists|i: int|
            0 <= i < n && (#[trigger] tiles[i]).tile.key == key,
    decreases n,
{
    if n > 0 {
        lemma_distinct_tiles(tiles, n - 1, key);
        let rest = distinct_tiles(tiles, n - 1);
        let all = distinct_tiles(tiles, n);
        let last = tiles[n - 1].tile;
        if exists|i: int| 0 <= i < n && (#[trigger] tiles[i]).tile.key == key {
            let i = choose|i: int| 0 <= i < n && (#[trigger] tiles[i]).tile.key == key;
            if i < n - 1 {
                let j = choose|j: int| 0 <= j < rest.len() && (#[trigger] rest[j]).key == key;
                assert(all[j] == rest[j]);
            } else if rest.len() > 0 && rest.last().key == last.key {
                assert(all[rest.len() - 1].key == key);
            } else {
                assert(all[rest.len() as int] == last);
            }
        }
        if exists|j: int| 0 <= j < all.len() && (#[trigger] all[j]).key == key {
            let j = choose|j: int| 0 <= j < all.len() && (#[trigger] all[j]).key == key;
            if j < rest.len() {
                assert(rest[j].key == key);
            } else {
                assert(tiles[n - 1].tile.key == key);
            }
        }
    }
}

proof fn lemma_with_relief(
    geometry: AtlasGeometry,
    places: Seq<Option<LayerTileKey>>,
    tiles: Seq<ActiveRoundMaskTile>,
    n: int,
    key: LayerTileKey,
)
    requires
        0 <= n <= tiles.len(),
    ensures
        (exists|j: int|
            0 <= j < with_relief(geometry, places, tiles, n).len() && (#[trigger] with_relief(
                geometry,
                places,
                tiles,
                n,
            )[j]).key == key) <==> relief_slot(geometry, places, key) is Some && exists|i: int|
            0 <= i < n && (#[trigger] tiles[i]).key == key,
    decreases n,
{
    if n > 0 {
        lemma_with_relief(geometry, places, tiles, n - 1, key);
        let rest = with_relief(geometry, places, tiles, n - 1);
        let all = with_relief(geometry, places, tiles, n);
        if exists|i: int| 0 <= i < n && (#[trigger] tiles[i]).key == key {
            let i = choose|i: int| 0 <= i < n && (#[trigger] tiles[i]).key == key;
            if relief_slot(geometry, places, key) is Some {
                if i < n - 1 {
                    let j = choose|j: int| 0 <= j < rest.len() && (#[trigger] rest[j]).key == key;
                    assert(all[j] == rest[j]);
                } else {
                    assert(all[rest.len() as int].key == key);
                }
            }
        }
        if exists|j: int| 0 <= j < all.len() && (#[trigger] all[j]).key == key {
            let j = choose|j: int| 0 <= j < all.len() && (#[trigger] all[j]).key == key;
            if j < rest.len() {
                assert(rest[j].key == key);
            } else {
                assert(tiles[n - 1].key == key);
            }
        }
    }
}

/// The surface of a stroke is computed for the tiles that the stroke had, and for those of the batch:
/// for all of them where the brush is loaded, and otherwise for those with relief.
pub proof fn law_surface_covers_the_tiles_of_the_stroke(
    stroke: StrokeModel,
    geometry: AtlasGeometry,
    places: Seq<Option<LayerTileKey>>,
    listed: Seq<ActiveRoundMaskTile>,
    batch: RoundBatchModel,
    key: LayerTileKey,
)
    ensures
        (exists|j: int|
            0 <= j < surface_tiles(stroke, geometry, places, listed, batch).len() && (
            #[trigger] surface_tiles(stroke, geometry, places, listed, batch)[j]).key == key) <==> {
            &&& stroke.loaded || relief_slot(geometry, places, key) is Some
            &&& {
                ||| exists|i: int| 0 <= i < listed.len() && (#[trigger] listed[i]).key == key
                ||| exists|i: int|
                    0 <= i < batch.touched_tiles.len() && (#[trigger] batch.touched_tiles[i]).key
                        == key
            }
        },
{
    let both = listed + touched_tiles(batch);
    let all = placed(both);
    let ordered = stable_sorted(all);
    let n = ordered.len() as int;
    let distinct = distinct_tiles(ordered, n);
    lemma_distinct_tiles(ordered, n, key);
    lemma_with_relief(geometry, places, distinct, distinct.len() as int, key);
    if exists|i: int| 0 <= i < n && (#[trigger] ordered[i]).tile.key == key {
        let i = choose|i: int| 0 <= i < n && (#[trigger] ordered[i]).tile.key == key;
        assert(ordered.contains(ordered[i]));
        lemma_sorted_contains(all, ordered[i]);
        let k = choose|k: int| 0 <= k < all.len() && all[k] == ordered[i];
        if k < listed.len() {
            assert(listed[k].key == key);
        } else {
            assert(batch.touched_tiles[k - listed.len()].key == key);
        }
    }
    if exists|i: int| 0 <= i < listed.len() && (#[trigger] listed[i]).key == key {
        let i = choose|i: int| 0 <= i < listed.len() && (#[trigger] listed[i]).key == key;
        assert(all[i].tile == listed[i]);
        assert(all.contains(all[i]));
        lemma_sorted_contains(all, all[i]);
        let k = choose|k: int| 0 <= k < ordered.len() && ordered[k] == all[i];
        assert(ordered[k].tile.key == key);
    }
    if exists|i: int|
        0 <= i < batch.touched_tiles.len() && (#[trigger] batch.touched_tiles[i]).key == key {
        let i = choose|i: int|
            0 <= i < batch.touched_tiles.len() && (#[trigger] batch.touched_tiles[i]).key == key;
        let at = listed.len() + i;
        assert(all[at].tile.key == key);
        assert(all.contains(all[at]));
        lemma_sorted_contains(all, all[at]);
        let k = choose|k: int| 0 <= k < ordered.len() && ordered[k] == all[at];
        assert(ordered[k].tile.key == key);
    }
    let named = exists|i: int| 0 <= i < n && (#[trigger] ordered[i]).tile.key == key;
    let asked = {
        ||| exists|i: int| 0 <= i < listed.len() && (#[trigger] listed[i]).key == key
        ||| exists|i: int|
            0 <= i < batch.touched_tiles.len() && (#[trigger] batch.touched_tiles[i]).key == key
    };
    assert(named == asked);
    let kept = exists|j: int| 0 <= j < distinct.len() && (#[trigger] distinct[j]).key == key;
    assert(kept == named);
    let result = surface_tiles(stroke, geometry, places, listed, batch);
    if stroke.loaded {
        assert(result == distinct);
    } else {
        assert(result == with_relief(geometry, places, distinct, distinct.len() as int));
    }
}

/// A stroke that is abandoned leaves no places: each place that it took is empty again, every other is
/// as it was, and neither the engine nor the document has a stroke under way.
pub proof fn law_abandoned_stroke_leaves_no_places(
    engine: EngineModel,
    document: ResidentModel,
    id: GpuResidentRoundStrokeId,
    allocations: Seq<AtlasAllocation>,
    engine_after: EngineModel,
    document_after: ResidentModel,
    p: int,
)
    requires
        abandon_reported(
            engine,
            document,
            id,
            allocations,
            Ok::<(), GpuResidentRoundStrokeError>(()),
            engine_after,
            document_after,
        ),
        0 <= p < document.places.len(),
    ensures
        document.stroke == Some(id),
        document_after.stroke is None,
        engine_after.active is None,
        document_after.places.len() == document.places.len(),
        document_after.places[p] == (match document.places[p] {
            Some(key) => if exists|i: int|
                0 <= i < allocations.len() && (#[trigger] allocations[i]).newly_allocated
                    && allocations[i].key == key {
                None
            } else {
                Some(key)
            },
            None => None,
        }),
        document_after.metadata == document.metadata,
        document_after.history == document.history,
        document_after.recovery == document.recovery,
        document_after.mirror == document.mirror,
{
}

/// A stroke is journaled with all its commands, on its layer and with its recipe. Where its pixels
/// cannot be replayed from commands, what is journaled is that they are still to be read back.
pub proof fn law_stroke_is_journaled_as_drawn(
    stroke: StrokeModel,
    command: GpuRasterRecoveryCommand,
)
    requires
        stroke_command(stroke, command),
    ensures
        !stroke.shader_brush && !stroke.material_surface ==> (command matches
            GpuRasterRecoveryCommand::Round(round) && round@.commands == stroke.commands
            && round@.recipe == stroke.recipe && round@.layer == stroke.scheduler.layer),
        stroke.shader_brush || stroke.material_surface ==> command
            == GpuRasterRecoveryCommand::AwaitingPixels(stroke.scheduler.layer),
{
}

/// A commit reads back every pixel that it saved for undo, in tiles that hold pixels, from where it lies.
pub proof fn law_commit_reads_back_what_it_changed(
    model: ResidentModel,
    encoded: EncodedCommitModel,
    command: GpuRasterRecoveryCommand,
    i: int,
    x: int,
    y: int,
)
    requires
        commit_plan(model, encoded) is Ok,
        forall|j: int|
            0 <= j < encoded.memento.plan.regions.len() ==> region_holds_pixels(
                #[trigger] encoded.memento.plan.regions[j],
            ),
        0 <= i < encoded.memento.plan.regions.len(),
        encoded.memento.states[i].document_initialized,
        encoded.memento.plan.regions[i].local_bounds@.contains(x, y),
    ensures
        plan_reads(
            commit_prepared(model, encoded, command).plan,
            encoded.memento.plan.regions[i],
            x,
            y,
        ),
        commit_prepared(model, encoded, command).plan.revision
            == commit_prepared(model, encoded, command).revision,
        commit_prepared(model, encoded, command).revision == model.next_revision()->0,
        commit_prepared(model, encoded, command).recovery.command == command,
        commit_prepared(model, encoded, command).recovery.revision == model.next_revision()->0,
        commit_prepared(model, encoded, command).recovery.id.0 == model.history.next_id,
{
    let plan = commit_plan(model, encoded)->Ok_0;
    law_readback_reads_every_pixel_where_it_lies(
        model.next_revision()->0,
        encoded.memento.plan,
        encoded.memento.states,
        model.mirror.max_staging,
        plan,
        i,
        x,
        y,
    );
}

proof fn lemma_relief(
    slots: Map<TileCoord, AtlasSlot>,
    tiles: Seq<ActiveRoundMaskTile>,
    n: int,
    i: int,
)
    requires
        0 <= i < n <= tiles.len(),
        slots.contains_key(tiles[i].key.tile),
    ensures
        relief_tiles(slots, tiles, n).contains(
            (ActiveRoundMaskTile {
                key: LayerTileKey {
                    layer: tiles[i].key.layer.spec_material_plane(),
                    tile: tiles[i].key.tile,
                },
                slot: slots[tiles[i].key.tile],
                local_damage: tiles[i].local_damage,
            }),
        ),
    decreases n,
{
    let all = relief_tiles(slots, tiles, n);
    let rest = relief_tiles(slots, tiles, n - 1);
    let wanted = ActiveRoundMaskTile {
        key: LayerTileKey {
            layer: tiles[i].key.layer.spec_material_plane(),
            tile: tiles[i].key.tile,
        },
        slot: slots[tiles[i].key.tile],
        local_damage: tiles[i].local_damage,
    };
    if i < n - 1 {
        lemma_relief(slots, tiles, n - 1, i);
        let k = choose|k: int| 0 <= k < rest.len() && rest[k] == wanted;
        assert(all[k] == wanted);
    } else {
        assert(all[rest.len() as int] == wanted);
    }
}

/// What a commit will save is counted for every tile of the stroke and, where the stroke has a surface,
/// for the relief of each tile that has a place for it.
pub proof fn law_commit_counts_color_and_relief(
    stroke: StrokeModel,
    tiles: Seq<ActiveRoundMaskTile>,
    i: int,
)
    requires
        0 <= i < tiles.len(),
    ensures
        commit_tiles(stroke, tiles).contains(tiles[i]),
        stroke.material_surface && stroke.material_slots.contains_key(tiles[i].key.tile)
            ==> commit_tiles(stroke, tiles).contains(
            (ActiveRoundMaskTile {
                key: LayerTileKey {
                    layer: tiles[i].key.layer.spec_material_plane(),
                    tile: tiles[i].key.tile,
                },
                slot: stroke.material_slots[tiles[i].key.tile],
                local_damage: tiles[i].local_damage,
            }),
        ),
        !stroke.material_surface ==> commit_tiles(stroke, tiles) == tiles,
{
    let all = commit_tiles(stroke, tiles);
    assert(all[i] == tiles[i]);
    if stroke.material_surface && stroke.material_slots.contains_key(tiles[i].key.tile) {
        let n = tiles.len() as int;
        lemma_relief(stroke.material_slots, tiles, n, i);
        let relief = relief_tiles(stroke.material_slots, tiles, n);
        let wanted = ActiveRoundMaskTile {
            key: LayerTileKey {
                layer: tiles[i].key.layer.spec_material_plane(),
                tile: tiles[i].key.tile,
            },
            slot: stroke.material_slots[tiles[i].key.tile],
            local_damage: tiles[i].local_damage,
        };
        let k = choose|k: int| 0 <= k < relief.len() && relief[k] == wanted;
        assert(all[n + k] == wanted);
    }
}

/// The load of a brush is kept between a twentieth and four: a number between them is taken as it is.
pub proof fn law_load_is_kept_in_bounds(load: u32)
    ensures
        0x3d4c_cccd <= bounded_load(load) <= 0x4080_0000,
        0x3d4c_cccd <= load <= 0x4080_0000 ==> bounded_load(load) == load,
        0x4080_0000 < load < 0x8000_0000 ==> bounded_load(load) == 0x4080_0000,
        load < 0x3d4c_cccd || load >= 0x8000_0000 ==> bounded_load(load) == 0x3d4c_cccd,
{
}

/// A stroke that has ended leaves nothing on the surface and no loaded paint: their pages are given up,
/// under a new generation, and the mask keeps its own.
pub proof fn law_ended_stroke_clears_the_surface(engine: EngineModel)
    ensures
        engine.finished().active is None,
        engine.finished().surface.tiles.len() == 0,
        engine.finished().surface.dirty == Map::<TileCoord, ()>::empty(),
        engine.finished().surface.pages == Map::<AtlasPageId, ()>::empty(),
        engine.finished().surface.page_span == 0,
        engine.finished().surface.generation != engine.surface.generation,
        engine.finished().surface.layout == engine.surface.layout,
        engine.finished().mask == engine.mask,
        engine.deposition.material ==> engine.finished().deposition.pages == 0
            && engine.finished().deposition.active_tiles == Map::<Resident, Rect>::empty(),
        engine.finished().target_id == engine.target_id,
        engine.finished().layout == engine.layout,
{
    reveal_with_fuel(crate::gpu_material::later_generation, 2);
}

} // verus!
