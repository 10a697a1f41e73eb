//! What replaying exact pixels does to the canvas, and why a step can be undone.

use crate::document::LayerId;
use crate::gpu_cpu_mirror::{
    layer_tiles, region_models, GpuMirrorPatchBatch, GpuMirrorPatchRegion, MirrorModel,
};
use crate::gpu_document_mirror::ReadbackPlanModel;
use crate::gpu_raster_recovery::{
    build_succeeds, exact_command, flat_regions, grouped, lemma_flat_contains, lemma_sorted_flat,
    region_fault,
    states_agree, tile_conflicts, tile_fault, tile_overlaps, ExactCommandModel, ExactRegionModel,
    ExactTileModel,
};
use crate::gpu_raster_replay::{
    changed_at, changed_rect, exact_replay_error, first_outside, lemma_all_inside,
    lemma_no_change_no_count, lemma_patch_len, lemma_replay_keeps_tiles_valid, patch_all,
    replay_step, replay_tiles, tile_after, ReplayState,
};
use crate::gpu_raster_transition::{
    region_before, regions_before, transition_built, window, TransitionModel,
};
use crate::gpu_atlas::LayerTileKey;
use crate::ordering::{lemma_sorted_contains, stable_sorted};
use crate::pixel_grid::{grid_index, lemma_grid_bound, lemma_grid_index, lemma_grid_position};
use crate::raster::{transparent, LinearRgba, Rect, TileCoord};
use crate::raster_layer::{
    pixel_at, tile_or_blank, tiles_valid, with_tile, RasterGeometry, RasterModel,
};
use vstd::prelude::*;

verus! {

/// Whether some tile of a command has this place.
pub open spec fn writes_tile(command: Seq<ExactTileModel>, coord: TileCoord) -> bool {
    exists|t: int| 0 <= t < command.len() && (#[trigger] command[t]).coord == coord
}

/// No place occurs twice, and each lies on the canvas.
pub open spec fn tiles_placed(geometry: RasterGeometry, command: Seq<ExactTileModel>) -> bool {
    &&& forall|i: int, j: int|
        #![trigger command[i], command[j]]
        0 <= i < j < command.len() ==> command[i].coord != command[j].coord
    &&& forall|t: int|
        #![trigger command[t]]
        0 <= t < command.len() ==> geometry.has_tile(command[t].coord)
}

pub(crate) proof fn lemma_placed_prefix(geometry: RasterGeometry, command: Seq<ExactTileModel>)
    requires
        command.len() > 0,
        tiles_placed(geometry, command),
    ensures
        tiles_placed(geometry, command.drop_last()),
        !writes_tile(command.drop_last(), command.last().coord),
{
    let rest = command.drop_last();
    assert forall|i: int, j: int|
        #![trigger rest[i], rest[j]]
        0 <= i < j < rest.len() implies rest[i].coord != rest[j].coord by {
        assert(command[i].coord != command[j].coord);
    }
    assert forall|t: int| #![trigger rest[t]] 0 <= t < rest.len() implies geometry.has_tile(
        rest[t].coord,
    ) by {
        assert(command[t] == rest[t]);
    }
    assert forall|t: int| 0 <= t < rest.len() implies (#[trigger] rest[t]).coord
        != command.last().coord by {
        assert(command[t].coord != command[command.len() - 1].coord);
    }
}

/// A replay writes only to the tiles that its command names.
pub proof fn law_replay_leaves_other_tiles_alone(
    geometry: RasterGeometry,
    tiles: Map<TileCoord, Seq<LinearRgba>>,
    command: Seq<ExactTileModel>,
    coord: TileCoord,
)
    requires
        !writes_tile(command, coord),
    ensures
        replay_tiles(geometry, tiles, command).tiles.contains_key(coord) == tiles.contains_key(
            coord,
        ),
        tiles.contains_key(coord) ==> replay_tiles(geometry, tiles, command).tiles[coord]
            == tiles[coord],
    decreases command.len(),
{
    if command.len() > 0 {
        let rest = command.drop_last();
        assert(command[command.len() - 1].coord != coord);
        assert(!writes_tile(rest, coord)) by {
            if writes_tile(rest, coord) {
                let t = choose|t: int| 0 <= t < rest.len() && (#[trigger] rest[t]).coord == coord;
                assert(command[t].coord == coord);
            }
        }
        law_replay_leaves_other_tiles_alone(geometry, tiles, rest, coord);
    }
}

proof fn lemma_replay_valid(
    geometry: RasterGeometry,
    tiles: Map<TileCoord, Seq<LinearRgba>>,
    command: Seq<ExactTileModel>,
)
    requires
        geometry.valid(),
        tiles_valid(geometry, tiles),
        tiles_placed(geometry, command),
    ensures
        tiles_valid(geometry, replay_tiles(geometry, tiles, command).tiles),
    decreases command.len(),
{
    if command.len() > 0 {
        lemma_placed_prefix(geometry, command);
        lemma_replay_valid(geometry, tiles, command.drop_last());
        assert(command[command.len() - 1] == command.last());
        lemma_replay_keeps_tiles_valid(
            geometry,
            replay_tiles(geometry, tiles, command.drop_last()),
            command.last(),
        );
    }
}

/// After a replay each pixel of the canvas in a named tile holds what the command makes of it.
pub proof fn law_replay_writes_exact_pixels(
    geometry: RasterGeometry,
    tiles: Map<TileCoord, Seq<LinearRgba>>,
    command: Seq<ExactTileModel>,
    at: int,
    x: int,
    y: int,
)
    requires
        geometry.valid(),
        tiles_valid(geometry, tiles),
        tiles_placed(geometry, command),
        0 <= at < command.len(),
        0 <= x < geometry.tile_bounds(command[at].coord).width(),
        0 <= y < geometry.tile_bounds(command[at].coord).height(),
    ensures
        tile_or_blank(
            geometry,
            replay_tiles(geometry, tiles, command).tiles,
            command[at].coord,
        )[grid_index(geometry.tile_size, x, y)] == tile_after(
            geometry,
            tile_or_blank(geometry, tiles, command[at].coord),
            command[at],
        )[grid_index(geometry.tile_size, x, y)],
    decreases command.len(),
{
    let rest = command.drop_last();
    let coord = command[at].coord;
    let state = replay_tiles(geometry, tiles, rest);
    let k = grid_index(geometry.tile_size, x, y);
    lemma_placed_prefix(geometry, command);
    if at < rest.len() {
        assert(rest[at] == command[at]);
        law_replay_writes_exact_pixels(geometry, tiles, rest, at, x, y);
        assert(command[command.len() - 1].coord != coord);
        let next = replay_step(geometry, state, command.last());
        assert(next.tiles.contains_key(coord) == state.tiles.contains_key(coord));
        assert(state.tiles.contains_key(coord) ==> next.tiles[coord] == state.tiles[coord]);
    } else {
        let tile = command.last();
        law_replay_leaves_other_tiles_alone(geometry, tiles, rest, coord);
        lemma_replay_valid(geometry, tiles, rest);
        let before = tile_or_blank(geometry, state.tiles, coord);
        assert(before == tile_or_blank(geometry, tiles, coord));
        let after = tile_after(geometry, before, tile);
        let valid = geometry.tile_bounds(coord);
        let width = valid.width();
        let height = valid.height();
        lemma_patch_len(before, geometry.tile_size, width, height, tile.regions);
        lemma_grid_bound(geometry.tile_size, geometry.tile_size, x, y);
        assert(after.len() == geometry.tile_len());
        if changed_rect(before, after, geometry.tile_size, width, width * height) is None {
            lemma_no_change_no_count(before, after, geometry.tile_size, width, width * height);
            let n = grid_index(width, x, y);
            lemma_grid_bound(width, height, x, y);
            lemma_grid_index(width, x, y);
            assert(height * width == width * height) by (nonlinear_arith);
            assert(!changed_at(before, after, geometry.tile_size, width, n));
        } else {
            let next = replay_step(geometry, state, tile);
            assert(next.tiles == with_tile(state.tiles, coord, after));
            assert(tile_or_blank(geometry, next.tiles, coord)[k] == after[k]);
        }
    }
}

/// A pixel that every region over it sets to one color has that color after all are written. One
/// that no region reaches keeps its own.
proof fn lemma_patch_pixel(
    base: Seq<LinearRgba>,
    stride: int,
    limit_x: int,
    limit_y: int,
    regions: Seq<ExactRegionModel>,
    x: int,
    y: int,
    color: LinearRgba,
)
    requires
        0 <= x < limit_x <= stride,
        0 <= y < limit_y,
        grid_index(stride, x, y) < base.len(),
        forall|r: int|
            #![trigger regions[r]]
            0 <= r < regions.len() && regions[r].bounds.contains(x, y)
                ==> regions[r].pixels[grid_index(
                regions[r].bounds.width(),
                x - regions[r].bounds.min_x,
                y - regions[r].bounds.min_y,
            )] == color,
        (forall|r: int|
            #![trigger regions[r]]
            0 <= r < regions.len() ==> !regions[r].bounds.contains(x, y)) ==> base[grid_index(
            stride,
            x,
            y,
        )] == color,
    ensures
        patch_all(base, stride, limit_x, limit_y, regions)[grid_index(stride, x, y)] == color,
    decreases regions.len(),
{
    if regions.len() > 0 {
        let rest = regions.drop_last();
        let last = regions.last();
        let k = grid_index(stride, x, y);
        assert(regions[regions.len() - 1] == last);
        lemma_grid_index(stride, x, y);
        lemma_patch_len(base, stride, limit_x, limit_y, rest);
        if !last.bounds.contains(x, y) {
            assert forall|r: int|
                #![trigger rest[r]]
                0 <= r < rest.len() && rest[r].bounds.contains(
                    x,
                    y,
                ) implies rest[r].pixels[grid_index(
                rest[r].bounds.width(),
                x - rest[r].bounds.min_x,
                y - rest[r].bounds.min_y,
            )] == color by {
                assert(regions[r] == rest[r]);
            }
            if forall|r: int|
                #![trigger rest[r]]
                0 <= r < rest.len() ==> !rest[r].bounds.contains(x, y) {
                assert forall|r: int|
                    #![trigger regions[r]]
                    0 <= r < regions.len() implies !regions[r].bounds.contains(x, y) by {
                    if r < rest.len() {
                        assert(rest[r] == regions[r]);
                    }
                }
            }
            lemma_patch_pixel(base, stride, limit_x, limit_y, rest, x, y, color);
        }
    }
}

/// What of a patch region stands in a command.
pub open spec fn piece(region: GpuMirrorPatchRegion) -> ExactRegionModel {
    ExactRegionModel { bounds: region.local_bounds@, pixels: region.pixels@ }
}

pub(crate) open(crate) spec fn has_piece(tile: ExactTileModel, region: GpuMirrorPatchRegion) -> bool {
    exists|r: int| 0 <= r < tile.regions.len() && #[trigger] tile.regions[r] == piece(region)
}

spec fn comes_from(
    regions: Seq<GpuMirrorPatchRegion>,
    coord: TileCoord,
    part: ExactRegionModel,
) -> bool {
    exists|i: int|
        0 <= i < regions.len() && (#[trigger] regions[i]).key.tile == coord
            && regions[i].initialized && piece(regions[i]) == part
}

spec fn named_by(regions: Seq<GpuMirrorPatchRegion>, tile: ExactTileModel) -> bool {
    exists|i: int|
        0 <= i < regions.len() && (#[trigger] regions[i]).key.tile == tile.coord
            && regions[i].initialized == tile.initialized
}

pub(crate) open(crate) spec fn grouped_in(tiles: Seq<ExactTileModel>, region: GpuMirrorPatchRegion) -> bool {
    exists|t: int|
        0 <= t < tiles.len() && (#[trigger] tiles[t]).coord == region.key.tile && (
        region.initialized ==> has_piece(tiles[t], region))
}

proof fn lemma_agree_prefix(regions: Seq<GpuMirrorPatchRegion>)
    requires
        regions.len() > 0,
        states_agree(regions),
    ensures
        states_agree(regions.drop_last()),
{
    let rest = regions.drop_last();
    assert forall|i: int, j: int|
        #![trigger rest[i], rest[j]]
        0 <= i < rest.len() && 0 <= j < rest.len() && rest[i].key.tile
            == rest[j].key.tile implies rest[i].initialized == rest[j].initialized by {
        assert(rest[i] == regions[i] && rest[j] == regions[j]);
    }
}

/// A group has the state of a region that it was made from.
proof fn lemma_grouped_named(regions: Seq<GpuMirrorPatchRegion>, t: int)
    requires
        states_agree(regions),
        0 <= t < grouped(regions).len(),
    ensures
        named_by(regions, grouped(regions)[t]),
    decreases regions.len(),
{
    if regions.len() > 0 {
        let rest = regions.drop_last();
        let end = regions.len() - 1;
        let earlier = grouped(rest);
        let tile = grouped(regions)[t];
        lemma_agree_prefix(regions);
        if t < earlier.len() {
            lemma_grouped_named(rest, t);
            let i = choose|i: int|
                0 <= i < rest.len() && (#[trigger] rest[i]).key.tile == earlier[t].coord
                    && rest[i].initialized == earlier[t].initialized;
            assert(regions[i] == rest[i]);
            assert(tile.coord == earlier[t].coord && tile.initialized == earlier[t].initialized);
        } else {
            assert(regions[end].key.tile == tile.coord);
        }
    }
}

/// What a group holds comes from a region of its tile.
proof fn lemma_grouped_parts(regions: Seq<GpuMirrorPatchRegion>, t: int, r: int)
    requires
        states_agree(regions),
        0 <= t < grouped(regions).len(),
        0 <= r < grouped(regions)[t].regions.len(),
    ensures
        comes_from(regions, grouped(regions)[t].coord, grouped(regions)[t].regions[r]),
    decreases regions.len(),
{
    if regions.len() > 0 {
        let rest = regions.drop_last();
        let end = regions.len() - 1;
        let last = regions.last();
        let earlier = grouped(rest);
        let tile = grouped(regions)[t];
        lemma_agree_prefix(regions);
        if t < earlier.len() && r < earlier[t].regions.len() {
            lemma_grouped_parts(rest, t, r);
            let part = earlier[t].regions[r];
            let i = choose|i: int|
                0 <= i < rest.len() && (#[trigger] rest[i]).key.tile == earlier[t].coord
                    && rest[i].initialized && piece(rest[i]) == part;
            assert(regions[i] == rest[i]);
            assert(tile.regions[r] == part);
        } else {
            if t < earlier.len() {
                lemma_grouped_named(rest, t);
                let i = choose|i: int|
                    0 <= i < rest.len() && (#[trigger] rest[i]).key.tile == earlier[t].coord
                        && rest[i].initialized == earlier[t].initialized;
                assert(regions[i] == rest[i]);
            }
            assert(regions[end] == last);
            assert(tile.coord == last.key.tile);
            assert(tile.regions[r] == piece(last));
            assert(last.initialized);
        }
    }
}

/// Every region stands in a group of its tile.
pub(crate) proof fn lemma_grouped_keeps(regions: Seq<GpuMirrorPatchRegion>, i: int)
    requires
        states_agree(regions),
        0 <= i < regions.len(),
    ensures
        grouped_in(grouped(regions), regions[i]),
    decreases regions.len(),
{
    let rest = regions.drop_last();
    let last = regions.last();
    let earlier = grouped(rest);
    let tiles = grouped(regions);
    lemma_agree_prefix(regions);
    if i < rest.len() {
        assert(rest[i] == regions[i]);
        lemma_grouped_keeps(rest, i);
        let t = choose|t: int|
            0 <= t < earlier.len() && (#[trigger] earlier[t]).coord == rest[i].key.tile && (
            rest[i].initialized ==> has_piece(earlier[t], rest[i]));
        assert(tiles[t].coord == regions[i].key.tile);
        if regions[i].initialized {
            let r = choose|r: int|
                0 <= r < earlier[t].regions.len() && #[trigger] earlier[t].regions[r] == piece(
                    rest[i],
                );
            assert(tiles[t].regions[r] == piece(regions[i]));
            assert(has_piece(tiles[t], regions[i]));
        }
    } else {
        let p = tiles.len() - 1;
        assert(tiles[p].coord == last.key.tile);
        if last.initialized {
            if earlier.len() > 0 && earlier.last().coord == last.key.tile {
                lemma_grouped_named(rest, p);
                let o = choose|o: int|
                    0 <= o < rest.len() && (#[trigger] rest[o]).key.tile == earlier[p].coord
                        && rest[o].initialized == earlier[p].initialized;
                assert(regions[o] == rest[o]);
                assert(regions[regions.len() - 1] == last);
                assert(earlier[p].initialized);
            }
            let r = tiles[p].regions.len() - 1;
            assert(tiles[p].regions[r] == piece(last));
            assert(has_piece(tiles[p], last));
        }
    }
}

/// Whether a step that empties a tile reached all that stood in it: each pixel of the canvas lies
/// in a region of the step, or was transparent.
pub open spec fn clears_only_what_it_reads(
    geometry: RasterGeometry,
    tiles: Map<TileCoord, Seq<LinearRgba>>,
    regions: Seq<GpuMirrorPatchRegion>,
) -> bool {
    forall|coord: TileCoord, x: int, y: int|
        #![trigger tile_or_blank(geometry, tiles, coord)[grid_index(geometry.tile_size, x, y)]]
        0 <= x < geometry.tile_bounds(coord).width() && 0 <= y < geometry.tile_bounds(
            coord,
        ).height() && (exists|i: int|
            0 <= i < regions.len() && (#[trigger] regions[i]).key.tile == coord
                && !regions[i].initialized) && !(exists|i: int|
            0 <= i < regions.len() && (#[trigger] regions[i]).key.tile == coord
                && regions[i].local_bounds@.contains(x, y)) ==> tile_or_blank(
            geometry,
            tiles,
            coord,
        )[grid_index(geometry.tile_size, x, y)] == transparent()
}

proof fn lemma_states_agree(tile_size: u32, regions: Seq<GpuMirrorPatchRegion>)
    requires
        build_succeeds(tile_size, regions),
    ensures
        states_agree(regions),
{
    assert forall|i: int, j: int|
        #![trigger regions[i], regions[j]]
        0 <= i < regions.len() && 0 <= j < regions.len() && regions[i].key.tile
            == regions[j].key.tile implies regions[i].initialized == regions[j].initialized by {
        assert(tile_fault(regions, regions[i].key.tile) is None);
        assert(!tile_conflicts(regions, regions[i].key.tile));
        if i < j {
        } else if j < i {
        }
    }
}

proof fn lemma_sorted_states_agree(regions: Seq<GpuMirrorPatchRegion>)
    requires
        states_agree(regions),
    ensures
        states_agree(stable_sorted(regions)),
{
    let sorted = stable_sorted(regions);
    assert forall|i: int, j: int|
        #![trigger sorted[i], sorted[j]]
        0 <= i < sorted.len() && 0 <= j < sorted.len() && sorted[i].key.tile
            == sorted[j].key.tile implies sorted[i].initialized == sorted[j].initialized by {
        let a = lemma_origin(regions, i);
        let b = lemma_origin(regions, j);
        assert(regions[a].initialized == regions[b].initialized);
    }
}

/// Where a region stood before sorting.
proof fn lemma_origin(regions: Seq<GpuMirrorPatchRegion>, i: int) -> (at: int)
    requires
        0 <= i < stable_sorted(regions).len(),
    ensures
        0 <= at < regions.len(),
        regions[at] == stable_sorted(regions)[i],
{
    let sorted = stable_sorted(regions);
    lemma_sorted_contains(regions, sorted[i]);
    assert(sorted.contains(sorted[i]));
    choose|at: int| 0 <= at < regions.len() && regions[at] == sorted[i]
}

/// Where a region stands after sorting.
proof fn lemma_place(regions: Seq<GpuMirrorPatchRegion>, at: int) -> (i: int)
    requires
        0 <= at < regions.len(),
    ensures
        0 <= i < stable_sorted(regions).len(),
        regions[at] == stable_sorted(regions)[i],
{
    let sorted = stable_sorted(regions);
    lemma_sorted_contains(regions, regions[at]);
    assert(regions.contains(regions[at]));
    choose|i: int| 0 <= i < sorted.len() && regions[at] == sorted[i]
}

/// A window holds the pixels of what it was cut from.
proof fn lemma_window(base: Seq<LinearRgba>, stride: int, bounds: Rect, x: int, y: int)
    requires
        bounds.contains(x, y),
    ensures
        window(base, stride, bounds)[grid_index(
            bounds.width(),
            x - bounds.min_x,
            y - bounds.min_y,
        )] == base[grid_index(stride, x, y)],
{
    let width = bounds.width();
    lemma_grid_index(width, x - bounds.min_x, y - bounds.min_y);
    lemma_grid_bound(width, bounds.height(), x - bounds.min_x, y - bounds.min_y);
    assert(bounds.height() * width == width * bounds.height()) by (nonlinear_arith);
}

/// What replaying the command that holds earlier pixels makes of one pixel of the canvas.
proof fn lemma_pixel_after_before(
    geometry: RasterGeometry,
    base: Map<LayerTileKey, Seq<LinearRgba>>,
    layer: LayerId,
    tile_size: u32,
    arrived: Seq<GpuMirrorPatchRegion>,
    earlier: Seq<GpuMirrorPatchRegion>,
    middle: Map<TileCoord, Seq<LinearRgba>>,
    coord: TileCoord,
    x: int,
    y: int,
)
    requires
        geometry.valid(),
        geometry.tile_size == tile_size,
        tiles_valid(geometry, layer_tiles(base, layer)),
        tiles_valid(geometry, middle),
        region_models(earlier) == regions_before(base, tile_size as int, arrived),
        build_succeeds(tile_size, earlier),
        layer == earlier[0].key.layer,
        tiles_placed(geometry, grouped(stable_sorted(earlier))),
        geometry.has_tile(coord),
        0 <= x < geometry.tile_bounds(coord).width(),
        0 <= y < geometry.tile_bounds(coord).height(),
        !(exists|i: int|
            0 <= i < arrived.len() && (#[trigger] arrived[i]).key.tile == coord
                && arrived[i].local_bounds@.contains(x, y)) && layer_tiles(
            base,
            layer,
        ).contains_key(coord) ==> tile_or_blank(geometry, middle, coord)[grid_index(
            geometry.tile_size,
            x,
            y,
        )] == layer_tiles(base, layer)[coord][grid_index(geometry.tile_size, x, y)],
        !(exists|i: int| 0 <= i < arrived.len() && (#[trigger] arrived[i]).key.tile == coord)
            ==> tile_or_blank(geometry, middle, coord)[grid_index(geometry.tile_size, x, y)]
            == tile_or_blank(geometry, layer_tiles(base, layer), coord)[grid_index(
            geometry.tile_size,
            x,
            y,
        )],
    ensures
        tile_or_blank(
            geometry,
            replay_tiles(geometry, middle, grouped(stable_sorted(earlier))).tiles,
            coord,
        )[grid_index(geometry.tile_size, x, y)] == tile_or_blank(
            geometry,
            layer_tiles(base, layer),
            coord,
        )[grid_index(geometry.tile_size, x, y)],
{
    let sorted = stable_sorted(earlier);
    let command = grouped(sorted);
    let k = grid_index(geometry.tile_size, x, y);
    let tiles = layer_tiles(base, layer);
    lemma_states_agree(tile_size, earlier);
    lemma_sorted_states_agree(earlier);
    lemma_grid_bound(geometry.tile_size, geometry.tile_size, x, y);
    let before = regions_before(base, tile_size as int, arrived);
    assert(region_models(earlier).len() == earlier.len());
    assert(before.len() == arrived.len());
    assert forall|i: int| #![trigger earlier[i]] 0 <= i < earlier.len() implies earlier[i]@
        == region_before(base, tile_size as int, arrived[i]@) && earlier[i].key == arrived[i].key
        && earlier[i].local_bounds@ == arrived[i].local_bounds@ && earlier[i].key.layer
        == layer by {
        assert(region_models(earlier)[i] == earlier[i]@);
        assert(before[i] == region_before(base, tile_size as int, arrived[i]@));
        assert(region_fault(tile_size, earlier, i) is None);
    }
    if writes_tile(command, coord) {
        let t = choose|t: int| 0 <= t < command.len() && (#[trigger] command[t]).coord == coord;
        law_replay_writes_exact_pixels(geometry, middle, command, t, x, y);
        lemma_grouped_named(sorted, t);
        let s = choose|s: int|
            0 <= s < sorted.len() && (#[trigger] sorted[s]).key.tile == coord
                && sorted[s].initialized == command[t].initialized;
        let a = lemma_origin(earlier, s);
        assert(earlier[a].key == LayerTileKey { layer, tile: coord });
        assert(earlier[a].initialized == base.contains_key(LayerTileKey { layer, tile: coord }));
        if command[t].initialized {
            assert(tiles.contains_key(coord));
            let color = tiles[coord][k];
            let regions = command[t].regions;
            let start = tile_or_blank(geometry, middle, coord);
            let valid = geometry.tile_bounds(coord);
            assert forall|r: int|
                #![trigger regions[r]]
                0 <= r < regions.len() && regions[r].bounds.contains(
                    x,
                    y,
                ) implies regions[r].pixels[grid_index(
                regions[r].bounds.width(),
                x - regions[r].bounds.min_x,
                y - regions[r].bounds.min_y,
            )] == color by {
                lemma_grouped_parts(sorted, t, r);
                let i = choose|i: int|
                    0 <= i < sorted.len() && (#[trigger] sorted[i]).key.tile == coord
                        && sorted[i].initialized && piece(sorted[i]) == regions[r];
                let b = lemma_origin(earlier, i);
                assert(earlier[b].pixels@ == window(
                    tiles[coord],
                    tile_size as int,
                    regions[r].bounds,
                ));
                lemma_window(tiles[coord], tile_size as int, regions[r].bounds, x, y);
            }
            if forall|r: int|
                #![trigger regions[r]]
                0 <= r < regions.len() ==> !regions[r].bounds.contains(x, y) {
                assert forall|i: int|
                    0 <= i < arrived.len() && (#[trigger] arrived[i]).key.tile
                        == coord implies !arrived[i].local_bounds@.contains(x, y) by {
                    assert(earlier[i].key == arrived[i].key);
                    let at = lemma_place(earlier, i);
                    lemma_grouped_keeps(sorted, at);
                    let u = choose|u: int|
                        0 <= u < command.len() && (#[trigger] command[u]).coord
                            == sorted[at].key.tile && (sorted[at].initialized ==> has_piece(
                            command[u],
                            sorted[at],
                        ));
                    assert(u == t) by {
                        if u < t {
                            assert(command[u].coord != command[t].coord);
                        } else if t < u {
                            assert(command[t].coord != command[u].coord);
                        }
                    }
                    assert(earlier[i].initialized);
                    let r = choose|r: int|
                        0 <= r < command[u].regions.len() && #[trigger] command[u].regions[r]
                            == piece(sorted[at]);
                    assert(regions[r] == piece(earlier[i]));
                }
                assert(start[k] == color);
            }
            lemma_patch_pixel(
                start,
                geometry.tile_size,
                valid.width(),
                valid.height(),
                regions,
                x,
                y,
                color,
            );
        } else {
            assert(!tiles.contains_key(coord));
        }
    } else {
        law_replay_leaves_other_tiles_alone(geometry, middle, command, coord);
        assert forall|i: int| 0 <= i < arrived.len() implies (#[trigger] arrived[i]).key.tile
            != coord by {
            assert(earlier[i].key == arrived[i].key);
            let at = lemma_place(earlier, i);
            lemma_grouped_keeps(sorted, at);
            let u = choose|u: int|
                0 <= u < command.len() && (#[trigger] command[u]).coord == sorted[at].key.tile && (
                sorted[at].initialized ==> has_piece(command[u], sorted[at]));
            assert(command[u].coord == arrived[i].key.tile);
        }
    }
}

/// A pixel that no arrived region reaches is what it was after the later pixels are replayed,
/// unless its tile was emptied.
proof fn lemma_pixel_outside_regions(
    geometry: RasterGeometry,
    tiles: Map<TileCoord, Seq<LinearRgba>>,
    arrived: Seq<GpuMirrorPatchRegion>,
    ordered: Seq<GpuMirrorPatchRegion>,
    coord: TileCoord,
    x: int,
    y: int,
)
    requires
        geometry.valid(),
        tiles_valid(geometry, tiles),
        states_agree(arrived),
        states_agree(ordered),
        forall|region: GpuMirrorPatchRegion| #[trigger]
            ordered.contains(region) ==> arrived.contains(region),
        tiles_placed(geometry, grouped(stable_sorted(ordered))),
        clears_only_what_it_reads(geometry, tiles, arrived),
        geometry.has_tile(coord),
        0 <= x < geometry.tile_bounds(coord).width(),
        0 <= y < geometry.tile_bounds(coord).height(),
        !(exists|i: int|
            0 <= i < arrived.len() && (#[trigger] arrived[i]).key.tile == coord
                && arrived[i].local_bounds@.contains(x, y)),
    ensures
        tile_or_blank(
            geometry,
            replay_tiles(geometry, tiles, grouped(stable_sorted(ordered))).tiles,
            coord,
        )[grid_index(geometry.tile_size, x, y)] == tile_or_blank(geometry, tiles, coord)[grid_index(
            geometry.tile_size,
            x,
            y,
        )],
{
    let sorted = stable_sorted(ordered);
    let command = grouped(sorted);
    let k = grid_index(geometry.tile_size, x, y);
    let start = tile_or_blank(geometry, tiles, coord);
    lemma_sorted_states_agree(ordered);
    lemma_grid_bound(geometry.tile_size, geometry.tile_size, x, y);
    if writes_tile(command, coord) {
        let t = choose|t: int| 0 <= t < command.len() && (#[trigger] command[t]).coord == coord;
        law_replay_writes_exact_pixels(geometry, tiles, command, t, x, y);
        lemma_grouped_named(sorted, t);
        let s = choose|s: int|
            0 <= s < sorted.len() && (#[trigger] sorted[s]).key.tile == coord
                && sorted[s].initialized == command[t].initialized;
        let a = lemma_origin(ordered, s);
        assert(ordered.contains(ordered[a]));
        let b = choose|b: int| 0 <= b < arrived.len() && arrived[b] == ordered[a];
        assert(arrived[b].key.tile == coord);
        if command[t].initialized {
            let regions = command[t].regions;
            let valid = geometry.tile_bounds(coord);
            assert forall|r: int|
                #![trigger regions[r]]
                0 <= r < regions.len() implies !regions[r].bounds.contains(x, y) by {
                lemma_grouped_parts(sorted, t, r);
                let i = choose|i: int|
                    0 <= i < sorted.len() && (#[trigger] sorted[i]).key.tile == coord
                        && sorted[i].initialized && piece(sorted[i]) == regions[r];
                let o = lemma_origin(ordered, i);
                assert(ordered.contains(ordered[o]));
                let c = choose|c: int| 0 <= c < arrived.len() && arrived[c] == ordered[o];
                assert(arrived[c].local_bounds@ == regions[r].bounds);
            }
            lemma_patch_pixel(
                start,
                geometry.tile_size,
                valid.width(),
                valid.height(),
                regions,
                x,
                y,
                start[k],
            );
        } else {
            assert(start[k] == transparent());
        }
    } else {
        law_replay_leaves_other_tiles_alone(geometry, tiles, command, coord);
    }
}

proof fn lemma_flat_agree(
    batches: Seq<GpuMirrorPatchBatch>,
)
    requires
        states_agree(flat_regions(batches)),
    ensures
        states_agree(flat_regions(stable_sorted(batches))),
{
    let arrived = flat_regions(batches);
    let ordered = flat_regions(stable_sorted(batches));
    lemma_sorted_flat(batches);
    assert forall|i: int, j: int|
        #![trigger ordered[i], ordered[j]]
        0 <= i < ordered.len() && 0 <= j < ordered.len() && ordered[i].key.tile
            == ordered[j].key.tile implies ordered[i].initialized == ordered[j].initialized by {
        assert(ordered.contains(ordered[i]) && ordered.contains(ordered[j]));
        assert(arrived.contains(ordered[i]) && arrived.contains(ordered[j]));
        let a = choose|a: int| 0 <= a < arrived.len() && arrived[a] == ordered[i];
        let b = choose|b: int| 0 <= b < arrived.len() && arrived[b] == ordered[j];
        assert(arrived[a].initialized == arrived[b].initialized);
    }
}

/// Undoing a step of exact pixels restores the canvas: where the later pixels of a transition are
/// replayed on the layer that it began from, replaying its earlier pixels gives that layer back,
/// at every pixel of the canvas. A step that empties a tile must have read all that stood there.
pub proof fn law_earlier_pixels_take_a_step_back(
    base: MirrorModel,
    plan: ReadbackPlanModel,
    batches: Seq<GpuMirrorPatchBatch>,
    transition: TransitionModel,
    x: int,
    y: int,
)
    requires
        transition_built(base, plan, batches, transition),
        base.geometry.valid(),
        transition.before.valid(),
        transition.after.valid(),
        tiles_valid(base.geometry, layer_tiles(base.tiles, transition.before.layer)),
        first_outside(
            base.geometry,
            transition.before.tiles,
            transition.before.tiles.len() as int,
        ) is None,
        first_outside(
            base.geometry,
            transition.after.tiles,
            transition.after.tiles.len() as int,
        ) is None,
        clears_only_what_it_reads(
            base.geometry,
            layer_tiles(base.tiles, transition.before.layer),
            flat_regions(batches),
        ),
        0 <= x < base.geometry.width,
        0 <= y < base.geometry.height,
    ensures
        ({
            let tiles = layer_tiles(base.tiles, transition.before.layer);
            let later = replay_tiles(base.geometry, tiles, transition.after.tiles).tiles;
            let restored = replay_tiles(base.geometry, later, transition.before.tiles).tiles;
            pixel_at(base.geometry, restored, x, y) == pixel_at(base.geometry, tiles, x, y)
        }),
{
    let geometry = base.geometry;
    let tile_size = plan.layout@.tile_size as u32;
    let layer = transition.before.layer;
    let tiles = layer_tiles(base.tiles, layer);
    let arrived = flat_regions(batches);
    let ordered = flat_regions(stable_sorted(batches));
    let earlier = choose|earlier: Seq<GpuMirrorPatchRegion>|
        {
            &&& region_models(earlier) == regions_before(base.tiles, tile_size as int, arrived)
            &&& #[trigger] build_succeeds(tile_size, earlier)
            &&& transition.before == exact_command(tile_size, earlier, earlier)
        };
    let later = replay_tiles(geometry, tiles, transition.after.tiles).tiles;
    let coord = geometry.tile_of(x, y);
    let lx = x % geometry.tile_size;
    let ly = y % geometry.tile_size;
    lemma_all_inside(
        geometry,
        transition.before.tiles,
        transition.before.tiles.len() as int,
    );
    lemma_all_inside(geometry, transition.after.tiles, transition.after.tiles.len() as int);
    assert(tiles_placed(geometry, transition.before.tiles));
    assert(tiles_placed(geometry, transition.after.tiles));
    lemma_states_agree(tile_size, arrived);
    lemma_flat_agree(batches);
    lemma_sorted_flat(batches);
    lemma_replay_valid(geometry, tiles, transition.after.tiles);
    lemma_local_place(geometry, x, y);
    if !(exists|i: int|
        0 <= i < arrived.len() && (#[trigger] arrived[i]).key.tile == coord
            && arrived[i].local_bounds@.contains(lx, ly)) {
        lemma_pixel_outside_regions(geometry, tiles, arrived, ordered, coord, lx, ly);
    }
    lemma_pixel_after_before(
        geometry,
        base.tiles,
        layer,
        tile_size,
        arrived,
        earlier,
        later,
        coord,
        lx,
        ly,
    );
    let k = geometry.index_of(x, y);
    lemma_grid_bound(geometry.tile_size, geometry.tile_size, lx, ly);
}

/// A pixel of the canvas lies in a tile of the canvas, inside the tile's part of it.
proof fn lemma_local_place(geometry: RasterGeometry, x: int, y: int)
    requires
        geometry.valid(),
        0 <= x < geometry.width,
        0 <= y < geometry.height,
    ensures
        geometry.has_tile(geometry.tile_of(x, y)),
        0 <= x % geometry.tile_size < geometry.tile_bounds(geometry.tile_of(x, y)).width(),
        0 <= y % geometry.tile_size < geometry.tile_bounds(geometry.tile_of(x, y)).height(),
        x % geometry.tile_size < geometry.tile_size,
        y % geometry.tile_size < geometry.tile_size,
{
    let size = geometry.tile_size;
    lemma_grid_position(size, x);
    lemma_grid_position(size, y);
    assert(x / size <= x) by (nonlinear_arith)
        requires
            x >= 0,
            size > 0,
    ;
    assert(y / size <= y) by (nonlinear_arith)
        requires
            y >= 0,
            size > 0,
    ;
}

/// Writing regions over two tiles either leaves a pixel of both alone or gives it one color.
proof fn lemma_patch_two(
    first: Seq<LinearRgba>,
    second: Seq<LinearRgba>,
    stride: int,
    limit_x: int,
    limit_y: int,
    regions: Seq<ExactRegionModel>,
    k: int,
)
    requires
        0 <= k < first.len(),
        k < second.len(),
    ensures
        ({
            let a = patch_all(first, stride, limit_x, limit_y, regions);
            let b = patch_all(second, stride, limit_x, limit_y, regions);
            a[k] == b[k] || (a[k] == first[k] && b[k] == second[k])
        }),
    decreases regions.len(),
{
    if regions.len() > 0 {
        let rest = regions.drop_last();
        lemma_patch_two(first, second, stride, limit_x, limit_y, rest, k);
        lemma_patch_len(first, stride, limit_x, limit_y, rest);
        lemma_patch_len(second, stride, limit_x, limit_y, rest);
    }
}

/// Where no pixel differs, no rectangle is around one that does.
proof fn lemma_nothing_changed(
    before: Seq<LinearRgba>,
    after: Seq<LinearRgba>,
    stride: int,
    width: int,
    n: int,
)
    requires
        forall|k: int| 0 <= k < n ==> !#[trigger] changed_at(before, after, stride, width, k),
    ensures
        changed_rect(before, after, stride, width, n) is None,
    decreases n,
{
    if n > 0 {
        lemma_nothing_changed(before, after, stride, width, n - 1);
    }
}

/// The `t`th tile of a command that was replayed holds what the command would make of it.
proof fn lemma_tile_is_settled(
    geometry: RasterGeometry,
    tiles: Map<TileCoord, Seq<LinearRgba>>,
    command: Seq<ExactTileModel>,
    t: int,
)
    requires
        geometry.valid(),
        tiles_valid(geometry, tiles),
        tiles_placed(geometry, command),
        0 <= t < command.len(),
    ensures
        ({
            let valid = geometry.tile_bounds(command[t].coord);
            let now = tile_or_blank(
                geometry,
                replay_tiles(geometry, tiles, command).tiles,
                command[t].coord,
            );
            changed_rect(
                now,
                tile_after(geometry, now, command[t]),
                geometry.tile_size,
                valid.width(),
                valid.width() * valid.height(),
            ) is None
        }),
{
    let tile = command[t];
    let size = geometry.tile_size;
    let valid = geometry.tile_bounds(tile.coord);
    let width = valid.width();
    let height = valid.height();
    let base = tile_or_blank(geometry, tiles, tile.coord);
    let settled = replay_tiles(geometry, tiles, command).tiles;
    let now = tile_or_blank(geometry, settled, tile.coord);
    let after = tile_after(geometry, now, tile);
    lemma_replay_valid(geometry, tiles, command);
    assert(geometry.has_tile(tile.coord));
    assert(width > 0 && height > 0 && width <= size && height <= size);
    assert forall|n: int| 0 <= n < width * height implies !#[trigger] changed_at(
        now,
        after,
        size,
        width,
        n,
    ) by {
        let x = n % width;
        let y = n / width;
        lemma_grid_position(width, n);
        assert(y < height) by (nonlinear_arith)
            requires
                n < width * height,
                n == y * width + x,
                0 <= x < width,
        ;
        let k = grid_index(size, x, y);
        lemma_grid_bound(size, size, x, y);
        law_replay_writes_exact_pixels(geometry, tiles, command, t, x, y);
        assert(base.len() == geometry.tile_len());
        assert(now.len() == geometry.tile_len());
        if tile.initialized {
            lemma_patch_two(base, now, size, width, height, tile.regions, k);
        }
    }
    lemma_nothing_changed(now, after, size, width, width * height);
}

proof fn lemma_settled_prefix(
    geometry: RasterGeometry,
    tiles: Map<TileCoord, Seq<LinearRgba>>,
    command: Seq<ExactTileModel>,
    n: int,
)
    requires
        geometry.valid(),
        tiles_valid(geometry, tiles),
        tiles_placed(geometry, command),
        0 <= n <= command.len(),
    ensures
        replay_tiles(
            geometry,
            replay_tiles(geometry, tiles, command).tiles,
            command.subrange(0, n),
        ) == untouched(replay_tiles(geometry, tiles, command).tiles),
    decreases n,
{
    if n > 0 {
        let prefix = command.subrange(0, n);
        assert(prefix.drop_last() =~= command.subrange(0, n - 1));
        assert(prefix.last() == command[n - 1]);
        lemma_settled_prefix(geometry, tiles, command, n - 1);
        lemma_tile_is_settled(geometry, tiles, command, n - 1);
    }
}

/// What a replay has done that changed nothing.
pub open spec fn untouched(tiles: Map<TileCoord, Seq<LinearRgba>>) -> ReplayState {
    ReplayState {
        tiles,
        damage: Map::empty(),
        pixels_changed: 0,
        tiles_written: 0,
        tiles_removed: 0,
    }
}

/// A command that was replayed on a layer can be replayed on it again, and then changes nothing:
/// no pixel, no tile, no damage.
pub proof fn law_second_replay_changes_nothing(
    layer_id: LayerId,
    layer: RasterModel,
    command: ExactCommandModel,
)
    requires
        layer.geometry.valid(),
        tiles_valid(layer.geometry, layer.tiles),
        command.valid(),
        exact_replay_error(layer_id, layer.geometry, command) is None,
    ensures
        ({
            let once = RasterModel {
                tiles: replay_tiles(layer.geometry, layer.tiles, command.tiles).tiles,
                ..layer
            };
            &&& exact_replay_error(layer_id, once.geometry, command) is None
            &&& replay_tiles(once.geometry, once.tiles, command.tiles) == untouched(once.tiles)
        }),
{
    let count = command.tiles.len() as int;
    lemma_all_inside(layer.geometry, command.tiles, count);
    lemma_settled_prefix(layer.geometry, layer.tiles, command.tiles, count);
    assert(command.tiles.subrange(0, count) =~= command.tiles);
}

/// Pixels that were read back and made into a command are the layer's pixels after its replay: each
/// place of a region has the region's pixel, and is empty where the tile was.
pub proof fn law_replayed_regions_give_their_pixels_back(
    geometry: RasterGeometry,
    tiles: Map<TileCoord, Seq<LinearRgba>>,
    tile_size: u32,
    arrived: Seq<GpuMirrorPatchRegion>,
    ordered: Seq<GpuMirrorPatchRegion>,
    i: int,
    x: int,
    y: int,
)
    requires
        geometry.valid(),
        tiles_valid(geometry, tiles),
        build_succeeds(tile_size, arrived),
        forall|region: GpuMirrorPatchRegion| #[trigger]
            ordered.contains(region) <==> arrived.contains(region),
        tiles_placed(geometry, exact_command(tile_size, arrived, ordered).tiles),
        0 <= i < arrived.len(),
        0 <= x < geometry.tile_size,
        0 <= y < geometry.tile_size,
        arrived[i].key.tile.x * geometry.tile_size + x < geometry.width,
        arrived[i].key.tile.y * geometry.tile_size + y < geometry.height,
        arrived[i].local_bounds@.min_x <= x < arrived[i].local_bounds@.max_x,
        arrived[i].local_bounds@.min_y <= y < arrived[i].local_bounds@.max_y,
    ensures
        ({
            let bounds = arrived[i].local_bounds@;
            tile_or_blank(
                geometry,
                replay_tiles(
                    geometry,
                    tiles,
                    exact_command(tile_size, arrived, ordered).tiles,
                ).tiles,
                arrived[i].key.tile,
            )[y * geometry.tile_size + x] == if arrived[i].initialized {
                arrived[i].pixels@[(y - bounds.min_y) * (bounds.max_x - bounds.min_x) + (x
                    - bounds.min_x)]
            } else {
                transparent()
            }
        }),
        exact_command(tile_size, arrived, ordered).layer == arrived[i].key.layer,
{
    let sorted = stable_sorted(ordered);
    let command = grouped(sorted);
    let region = arrived[i];
    let coord = region.key.tile;
    let k = grid_index(geometry.tile_size, x, y);
    let start = tile_or_blank(geometry, tiles, coord);
    lemma_states_agree(tile_size, arrived);
    assert(region_fault(tile_size, arrived, i) is None);
    assert(states_agree(ordered)) by {
        assert forall|a: int, b: int|
            #![trigger ordered[a], ordered[b]]
            0 <= a < ordered.len() && 0 <= b < ordered.len() && ordered[a].key.tile
                == ordered[b].key.tile implies ordered[a].initialized == ordered[b].initialized by {
            assert(ordered.contains(ordered[a]) && ordered.contains(ordered[b]));
            let c = choose|c: int| 0 <= c < arrived.len() && arrived[c] == ordered[a];
            let d = choose|d: int| 0 <= d < arrived.len() && arrived[d] == ordered[b];
            assert(arrived[c].initialized == arrived[d].initialized);
        }
    }
    lemma_sorted_states_agree(ordered);
    lemma_grid_bound(geometry.tile_size, geometry.tile_size, x, y);
    assert(arrived.contains(region));
    assert(ordered.contains(region));
    let at = choose|at: int| 0 <= at < ordered.len() && ordered[at] == region;
    let s = lemma_place(ordered, at);
    lemma_grouped_keeps(sorted, s);
    assert(grouped_in(command, region));
    let t = choose|t: int|
        0 <= t < command.len() && (#[trigger] command[t]).coord == region.key.tile && (
        region.initialized ==> has_piece(command[t], region));
    law_replay_writes_exact_pixels(geometry, tiles, command, t, x, y);
    lemma_grouped_named(sorted, t);
    let n = choose|n: int|
        0 <= n < sorted.len() && (#[trigger] sorted[n]).key.tile == command[t].coord
            && sorted[n].initialized == command[t].initialized;
    assert(sorted[n].initialized == sorted[s].initialized);
    if region.initialized {
        let regions = command[t].regions;
        let valid = geometry.tile_bounds(coord);
        let color = region.pixels@[grid_index(
            region.local_bounds@.width(),
            x - region.local_bounds@.min_x,
            y - region.local_bounds@.min_y,
        )];
        assert forall|r: int|
            #![trigger regions[r]]
            0 <= r < regions.len() && regions[r].bounds.contains(
                x,
                y,
            ) implies regions[r].pixels[grid_index(
            regions[r].bounds.width(),
            x - regions[r].bounds.min_x,
            y - regions[r].bounds.min_y,
        )] == color by {
            lemma_grouped_parts(sorted, t, r);
            let m = choose|m: int|
                0 <= m < sorted.len() && (#[trigger] sorted[m]).key.tile == coord
                    && sorted[m].initialized && piece(sorted[m]) == regions[r];
            let o = lemma_origin(ordered, m);
            assert(ordered.contains(ordered[o]));
            let c = choose|c: int| 0 <= c < arrived.len() && arrived[c] == ordered[o];
            assert(arrived[c].local_bounds@.contains(x, y));
            if c != i {
                assert(tile_fault(arrived, arrived[i].key.tile) is None);
                assert(arrived[c].local_bounds@.overlaps(arrived[i].local_bounds@));
                assert(arrived[i].local_bounds@.overlaps(arrived[c].local_bounds@));
                if c < i {
                    assert(tile_overlaps(arrived, coord));
                } else {
                    assert(tile_overlaps(arrived, coord));
                }
            }
        }
        assert(has_piece(command[t], region));
        assert(exists|r: int| 0 <= r < regions.len() && #[trigger] regions[r] == piece(region));
        lemma_patch_pixel(
            start,
            geometry.tile_size,
            valid.width(),
            valid.height(),
            regions,
            x,
            y,
            color,
        );
    }
}

/// The pixels that a revision brought are in the later side of its transition: replaying it gives each
/// place of a region the pixel that arrived, whatever the layer looked like.
pub proof fn law_later_pixels_take_a_step_forward(
    base: MirrorModel,
    plan: ReadbackPlanModel,
    batches: Seq<GpuMirrorPatchBatch>,
    transition: TransitionModel,
    tiles: Map<TileCoord, Seq<LinearRgba>>,
    i: int,
    x: int,
    y: int,
)
    requires
        transition_built(base, plan, batches, transition),
        base.geometry.valid(),
        tiles_valid(base.geometry, tiles),
        tiles_placed(base.geometry, transition.after.tiles),
        0 <= i < flat_regions(batches).len(),
        0 <= x < base.geometry.tile_size,
        0 <= y < base.geometry.tile_size,
        flat_regions(batches)[i]@.key.tile.x * base.geometry.tile_size + x < base.geometry.width,
        flat_regions(batches)[i]@.key.tile.y * base.geometry.tile_size + y < base.geometry.height,
        flat_regions(batches)[i]@.bounds.contains(x, y),
    ensures
        ({
            let region = flat_regions(batches)[i]@;
            tile_or_blank(
                base.geometry,
                replay_tiles(base.geometry, tiles, transition.after.tiles).tiles,
                region.key.tile,
            )[y * base.geometry.tile_size + x] == if region.initialized {
                region.pixels[(y - region.bounds.min_y) * (region.bounds.max_x
                    - region.bounds.min_x) + (x - region.bounds.min_x)]
            } else {
                transparent()
            }
        }),
        transition.after.layer == flat_regions(batches)[i]@.key.layer,
        transition.source_revision == base.revision,
        transition.revision == plan.revision,
{
    let tile_size = plan.layout@.tile_size as u32;
    let arrived = flat_regions(batches);
    let ordered = flat_regions(stable_sorted(batches));
    assert forall|region: GpuMirrorPatchRegion| #[trigger]
        ordered.contains(region) <==> arrived.contains(region) by {
        lemma_flat_contains(batches, region);
        lemma_flat_contains(stable_sorted(batches), region);
        if arrived.contains(region) {
            let b = choose|b: int|
                0 <= b < batches.len() && (#[trigger] batches[b]).regions@.contains(region);
            assert(batches.contains(batches[b]));
            lemma_sorted_contains(batches, batches[b]);
            let c = choose|c: int|
                0 <= c < stable_sorted(batches).len() && stable_sorted(batches)[c] == batches[b];
            assert(stable_sorted(batches)[c].regions@.contains(region));
        }
        if ordered.contains(region) {
            let sorted = stable_sorted(batches);
            let b = choose|b: int|
                0 <= b < sorted.len() && (#[trigger] sorted[b]).regions@.contains(region);
            assert(sorted.contains(sorted[b]));
            lemma_sorted_contains(batches, sorted[b]);
            let c = choose|c: int| 0 <= c < batches.len() && batches[c] == sorted[b];
            assert(batches[c].regions@.contains(region));
        }
    }
    law_replayed_regions_give_their_pixels_back(
        base.geometry,
        tiles,
        tile_size,
        arrived,
        ordered,
        i,
        x,
        y,
    );
}

} // verus!
