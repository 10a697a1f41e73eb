//! What a replay of exact pixels reports, which regions make a command, and what a captured layer keeps.

use crate::document::LayerId;
use crate::gpu_cpu_mirror::{GpuMirrorPatchRegion, PatchRegionModel};
use crate::gpu_layer_recovery::{
    layer_captured, law_captured_layer_keeps_its_pixels, restored_layer,
    GpuExactLayerRecoveryBuildError, GpuExactLayerRecoveryCommand,
};
use crate::gpu_raster_laws::{
    law_replay_leaves_other_tiles_alone, law_replay_writes_exact_pixels, lemma_placed_prefix,
    tiles_placed, writes_tile,
};
use crate::gpu_raster_recovery::{
    build_succeeds, exact_byte_len, region_fault, tile_conflicts, tile_fault, tile_overlaps,
    ExactTileModel,
};
use crate::gpu_raster_replay::{changed_at, changed_count, changed_rect, replay_tiles, tile_after};
use crate::pixel_grid::{lemma_grid_bound, lemma_grid_index, lemma_grid_position, lemma_grid_row};
use crate::raster::{LinearRgba, Rect, TileCoord};
use crate::raster_layer::{
    pixel_at, tile_or_blank, tiles_valid, RasterGeometry, RasterModel,
};
use vstd::prelude::*;

verus! {

/// The pixel of a tile differs between two states of a layer, on the canvas.
pub open spec fn pixel_differs(
    geometry: RasterGeometry,
    before: Map<TileCoord, Seq<LinearRgba>>,
    after: Map<TileCoord, Seq<LinearRgba>>,
    tile: TileCoord,
    x: int,
    y: int,
) -> bool {
    &&& 0 <= x < geometry.tile_size
    &&& 0 <= y < geometry.tile_size
    &&& tile.x * geometry.tile_size + x < geometry.width
    &&& tile.y * geometry.tile_size + y < geometry.height
    &&& tile_or_blank(geometry, before, tile)[y * geometry.tile_size + x] != tile_or_blank(
        geometry,
        after,
        tile,
    )[y * geometry.tile_size + x]
}

/// The rectangle holds every pixel of the tile that differs, and each of its sides touches one.
pub open spec fn bounds_differences(
    geometry: RasterGeometry,
    before: Map<TileCoord, Seq<LinearRgba>>,
    after: Map<TileCoord, Seq<LinearRgba>>,
    tile: TileCoord,
    bounds: Rect,
) -> bool {
    let size = geometry.tile_size;
    &&& forall|x: int, y: int| #[trigger]
        pixel_differs(geometry, before, after, tile, x, y) ==> bounds.contains(
            tile.x * size + x,
            tile.y * size + y,
        )
    &&& exists|x: int, y: int| #[trigger]
        pixel_differs(geometry, before, after, tile, x, y) && bounds.min_x == tile.x * size + x
    &&& exists|x: int, y: int| #[trigger]
        pixel_differs(geometry, before, after, tile, x, y) && bounds.min_y == tile.y * size + y
    &&& exists|x: int, y: int| #[trigger]
        pixel_differs(geometry, before, after, tile, x, y) && bounds.max_x == tile.x * size + x + 1
    &&& exists|x: int, y: int| #[trigger]
        pixel_differs(geometry, before, after, tile, x, y) && bounds.max_y == tile.y * size + y + 1
}

spec fn step_rect(
    geometry: RasterGeometry,
    tiles: Map<TileCoord, Seq<LinearRgba>>,
    tile: ExactTileModel,
) -> Option<Rect> {
    let valid = geometry.tile_bounds(tile.coord);
    let before = tile_or_blank(geometry, tiles, tile.coord);
    changed_rect(
        before,
        tile_after(geometry, before, tile),
        geometry.tile_size,
        valid.width(),
        valid.width() * valid.height(),
    )
}

proof fn lemma_damage_elsewhere(
    geometry: RasterGeometry,
    tiles: Map<TileCoord, Seq<LinearRgba>>,
    command: Seq<ExactTileModel>,
    coord: TileCoord,
)
    requires
        !writes_tile(command, coord),
    ensures
        !replay_tiles(geometry, tiles, command).damage.contains_key(coord),
    decreases command.len(),
{
    if command.len() > 0 {
        let rest = command.drop_last();
        assert(command[command.len() - 1].coord != coord);
        assert(!writes_tile(rest, coord)) by {
            if writes_tile(rest, coord) {
                let t = choose|t: int| 0 <= t < rest.len() && (#[trigger] rest[t]).coord == coord;
                assert(command[t].coord == coord);
            }
        }
        lemma_damage_elsewhere(geometry, tiles, rest, coord);
    }
}

proof fn lemma_damage(
    geometry: RasterGeometry,
    tiles: Map<TileCoord, Seq<LinearRgba>>,
    command: Seq<ExactTileModel>,
    at: int,
)
    requires
        tiles_placed(geometry, command),
        0 <= at < command.len(),
    ensures
        ({
            let damage = replay_tiles(geometry, tiles, command).damage;
            let coord = command[at].coord;
            let valid = geometry.tile_bounds(coord);
            match step_rect(geometry, tiles, command[at]) {
                Some(rect) => damage.contains_key(coord) && damage[coord] == rect.translated(
                    valid.min_x,
                    valid.min_y,
                ),
                None => !damage.contains_key(coord),
            }
        }),
    decreases command.len(),
{
    let rest = command.drop_last();
    lemma_placed_prefix(geometry, command);
    if at < rest.len() {
        assert(rest[at] == command[at]);
        lemma_damage(geometry, tiles, rest, at);
        assert(command[at].coord != command[command.len() - 1].coord);
    } else {
        let coord = command.last().coord;
        law_replay_leaves_other_tiles_alone(geometry, tiles, rest, coord);
        lemma_damage_elsewhere(geometry, tiles, rest, coord);
        let middle = replay_tiles(geometry, tiles, rest);
        assert(tile_or_blank(geometry, middle.tiles, coord) == tile_or_blank(
            geometry,
            tiles,
            coord,
        ));
    }
}

proof fn lemma_rect(
    before: Seq<LinearRgba>,
    after: Seq<LinearRgba>,
    stride: int,
    width: int,
    n: int,
)
    ensures
        match changed_rect(before, after, stride, width, n) {
            Some(rect) => {
                &&& forall|k: int| #[trigger]
                    changed_at(before, after, stride, width, k) && 0 <= k < n ==> rect.contains(
                        k % width,
                        k / width,
                    )
                &&& exists|k: int| #[trigger]
                    changed_at(before, after, stride, width, k) && 0 <= k < n && k % width
                        == rect.min_x
                &&& exists|k: int| #[trigger]
                    changed_at(before, after, stride, width, k) && 0 <= k < n && k / width
                        == rect.min_y
                &&& exists|k: int| #[trigger]
                    changed_at(before, after, stride, width, k) && 0 <= k < n && k % width + 1
                        == rect.max_x
                &&& exists|k: int| #[trigger]
                    changed_at(before, after, stride, width, k) && 0 <= k < n && k / width + 1
                        == rect.max_y
            },
            None => forall|k: int| #[trigger]
                changed_at(before, after, stride, width, k) ==> !(0 <= k < n),
        },
    decreases n,
{
    if n > 0 {
        lemma_rect(before, after, stride, width, n - 1);
    }
}

/// A pixel of the canvas part of a tile has a number, and the number gives the pixel back.
proof fn lemma_numbered(geometry: RasterGeometry, tile: TileCoord, x: int, y: int)
    requires
        geometry.valid(),
        geometry.has_tile(tile),
        0 <= x < geometry.tile_size,
        0 <= y < geometry.tile_size,
        tile.x * geometry.tile_size + x < geometry.width,
        tile.y * geometry.tile_size + y < geometry.height,
    ensures
        ({
            let valid = geometry.tile_bounds(tile);
            let n = y * valid.width() + x;
            &&& 0 <= n < valid.width() * valid.height()
            &&& n % valid.width() == x
            &&& n / valid.width() == y
            &&& x < valid.width() <= geometry.tile_size
            &&& y < valid.height() <= geometry.tile_size
        }),
{
    let valid = geometry.tile_bounds(tile);
    lemma_grid_index(valid.width(), x, y);
    lemma_grid_bound(valid.width(), valid.height(), x, y);
    assert(valid.height() * valid.width() == valid.width() * valid.height()) by (nonlinear_arith);
}

proof fn lemma_number_differs(
    geometry: RasterGeometry,
    tiles: Map<TileCoord, Seq<LinearRgba>>,
    command: Seq<ExactTileModel>,
    at: int,
    n: int,
)
    requires
        geometry.valid(),
        tiles_valid(geometry, tiles),
        tiles_placed(geometry, command),
        0 <= at < command.len(),
        0 <= n < geometry.tile_bounds(command[at].coord).width() * geometry.tile_bounds(
            command[at].coord,
        ).height(),
    ensures
        ({
            let coord = command[at].coord;
            let valid = geometry.tile_bounds(coord);
            let before = tile_or_blank(geometry, tiles, coord);
            let after = tile_after(geometry, before, command[at]);
            changed_at(before, after, geometry.tile_size, valid.width(), n) == pixel_differs(
                geometry,
                tiles,
                replay_tiles(geometry, tiles, command).tiles,
                coord,
                n % valid.width(),
                n / valid.width(),
            )
        }),
{
    let coord = command[at].coord;
    assert(geometry.has_tile(command[at].coord));
    let valid = geometry.tile_bounds(coord);
    lemma_grid_position(valid.width(), n);
    assert(valid.width() * valid.height() == valid.height() * valid.width()) by (nonlinear_arith);
    lemma_grid_row(valid.width(), valid.height(), n);
    law_replay_writes_exact_pixels(
        geometry,
        tiles,
        command,
        at,
        n % valid.width(),
        n / valid.width(),
    );
}

/// A replay of exact pixels damages just the tiles in which a pixel of the canvas differs afterwards,
/// and in each the smallest rectangle around the pixels that differ.
pub proof fn law_exact_replay_damages_what_it_changes(
    geometry: RasterGeometry,
    tiles: Map<TileCoord, Seq<LinearRgba>>,
    command: Seq<ExactTileModel>,
    tile: TileCoord,
)
    requires
        geometry.valid(),
        tiles_valid(geometry, tiles),
        tiles_placed(geometry, command),
    ensures
        ({
            let state = replay_tiles(geometry, tiles, command);
            &&& state.damage.contains_key(tile) <==> exists|x: int, y: int| #[trigger]
                pixel_differs(geometry, tiles, state.tiles, tile, x, y)
            &&& state.damage.contains_key(tile) ==> bounds_differences(
                geometry,
                tiles,
                state.tiles,
                tile,
                state.damage[tile],
            )
        }),
{
    let state = replay_tiles(geometry, tiles, command);
    let size = geometry.tile_size;
    if writes_tile(command, tile) {
        let at = choose|t: int| 0 <= t < command.len() && (#[trigger] command[t]).coord == tile;
        assert(geometry.has_tile(command[at].coord));
        let valid = geometry.tile_bounds(tile);
        let width = valid.width();
        let count = width * valid.height();
        let before = tile_or_blank(geometry, tiles, tile);
        let after = tile_after(geometry, before, command[at]);
        lemma_damage(geometry, tiles, command, at);
        lemma_rect(before, after, size, width, count);
        assert forall|x: int, y: int| #[trigger]
            pixel_differs(geometry, tiles, state.tiles, tile, x, y) implies 0 <= y * width + x
            < count && changed_at(before, after, size, width, y * width + x) && (y * width + x)
            % width == x && (y * width + x) / width == y by {
            lemma_numbered(geometry, tile, x, y);
            lemma_number_differs(geometry, tiles, command, at, y * width + x);
        }
        assert forall|k: int| #[trigger]
            changed_at(before, after, size, width, k) && 0 <= k < count implies pixel_differs(
            geometry,
            tiles,
            state.tiles,
            tile,
            k % width,
            k / width,
        ) by {
            lemma_number_differs(geometry, tiles, command, at, k);
        }
        match step_rect(geometry, tiles, command[at]) {
            Some(rect) => {
                assert(bounds_differences(
                    geometry,
                    tiles,
                    state.tiles,
                    tile,
                    state.damage[tile],
                )) by {
                    let left = choose|k: int| #[trigger]
                        changed_at(before, after, size, width, k) && 0 <= k < count && k % width
                            == rect.min_x;
                    let top = choose|k: int| #[trigger]
                        changed_at(before, after, size, width, k) && 0 <= k < count && k / width
                            == rect.min_y;
                    let right = choose|k: int| #[trigger]
                        changed_at(before, after, size, width, k) && 0 <= k < count && k % width + 1
                            == rect.max_x;
                    let bottom = choose|k: int| #[trigger]
                        changed_at(before, after, size, width, k) && 0 <= k < count && k / width + 1
                            == rect.max_y;
                    assert(pixel_differs(
                        geometry,
                        tiles,
                        state.tiles,
                        tile,
                        left % width,
                        left / width,
                    ));
                    assert(pixel_differs(
                        geometry,
                        tiles,
                        state.tiles,
                        tile,
                        top % width,
                        top / width,
                    ));
                    assert(pixel_differs(
                        geometry,
                        tiles,
                        state.tiles,
                        tile,
                        right % width,
                        right / width,
                    ));
                    assert(pixel_differs(
                        geometry,
                        tiles,
                        state.tiles,
                        tile,
                        bottom % width,
                        bottom / width,
                    ));
                }
            },
            None => {},
        }
    } else {
        lemma_damage_elsewhere(geometry, tiles, command, tile);
        law_replay_leaves_other_tiles_alone(geometry, tiles, command, tile);
    }
}

/// The numbers of the pixels that differ in the canvas part of a tile.
pub open spec fn differing(
    geometry: RasterGeometry,
    before: Map<TileCoord, Seq<LinearRgba>>,
    after: Map<TileCoord, Seq<LinearRgba>>,
    tile: TileCoord,
) -> Set<int> {
    let width = geometry.tile_bounds(tile).width();
    Set::new(
        |n: int|
            0 <= n < width * geometry.tile_bounds(tile).height() && pixel_differs(
                geometry,
                before,
                after,
                tile,
                n % width,
                n / width,
            ),
    )
}

/// How many pixels differ in the first `n` tiles of a command.
pub open spec fn differences(
    geometry: RasterGeometry,
    before: Map<TileCoord, Seq<LinearRgba>>,
    after: Map<TileCoord, Seq<LinearRgba>>,
    command: Seq<ExactTileModel>,
    n: int,
) -> int
    decreases n,
{
    if n <= 0 {
        0
    } else {
        differences(geometry, before, after, command, n - 1) + differing(
            geometry,
            before,
            after,
            command[n - 1].coord,
        ).len()
    }
}

proof fn lemma_count(
    before: Seq<LinearRgba>,
    after: Seq<LinearRgba>,
    stride: int,
    width: int,
    n: int,
)
    requires
        0 <= n,
    ensures
        Set::new(|k: int| 0 <= k < n && changed_at(before, after, stride, width, k)).finite(),
        changed_count(before, after, stride, width, n) == Set::new(
            |k: int| 0 <= k < n && changed_at(before, after, stride, width, k),
        ).len(),
        changed_count(before, after, stride, width, n) > 0 <==> changed_rect(
            before,
            after,
            stride,
            width,
            n,
        ) is Some,
    decreases n,
{
    let all = Set::new(|k: int| 0 <= k < n && changed_at(before, after, stride, width, k));
    if n > 0 {
        lemma_count(before, after, stride, width, n - 1);
        let rest = Set::new(|k: int| 0 <= k < n - 1 && changed_at(before, after, stride, width, k));
        if changed_at(before, after, stride, width, n - 1) {
            assert(all =~= rest.insert(n - 1));
        } else {
            assert(all =~= rest);
        }
    } else {
        assert(all =~= Set::<int>::empty());
    }
}

spec fn step_count(
    geometry: RasterGeometry,
    tiles: Map<TileCoord, Seq<LinearRgba>>,
    tile: ExactTileModel,
) -> int {
    let valid = geometry.tile_bounds(tile.coord);
    let before = tile_or_blank(geometry, tiles, tile.coord);
    changed_count(
        before,
        tile_after(geometry, before, tile),
        geometry.tile_size,
        valid.width(),
        valid.width() * valid.height(),
    )
}

spec fn step_counts(
    geometry: RasterGeometry,
    tiles: Map<TileCoord, Seq<LinearRgba>>,
    command: Seq<ExactTileModel>,
    n: int,
) -> int
    decreases n,
{
    if n <= 0 {
        0
    } else {
        step_counts(geometry, tiles, command, n - 1) + step_count(geometry, tiles, command[n - 1])
    }
}

proof fn lemma_step_counts_prefix(
    geometry: RasterGeometry,
    tiles: Map<TileCoord, Seq<LinearRgba>>,
    first: Seq<ExactTileModel>,
    second: Seq<ExactTileModel>,
    n: int,
)
    requires
        n <= first.len(),
        n <= second.len(),
        forall|t: int| 0 <= t < n ==> #[trigger] first[t] == second[t],
    ensures
        step_counts(geometry, tiles, first, n) == step_counts(geometry, tiles, second, n),
    decreases n,
{
    if n > 0 {
        lemma_step_counts_prefix(geometry, tiles, first, second, n - 1);
        assert(first[n - 1] == second[n - 1]);
    }
}

proof fn lemma_counts(
    geometry: RasterGeometry,
    tiles: Map<TileCoord, Seq<LinearRgba>>,
    command: Seq<ExactTileModel>,
)
    requires
        geometry.valid(),
        tiles_placed(geometry, command),
    ensures
        replay_tiles(geometry, tiles, command).pixels_changed == step_counts(
            geometry,
            tiles,
            command,
            command.len() as int,
        ),
    decreases command.len(),
{
    if command.len() > 0 {
        let rest = command.drop_last();
        lemma_placed_prefix(geometry, command);
        lemma_counts(geometry, tiles, rest);
        lemma_step_counts_prefix(geometry, tiles, rest, command, rest.len() as int);
        let coord = command.last().coord;
        law_replay_leaves_other_tiles_alone(geometry, tiles, rest, coord);
        let middle = replay_tiles(geometry, tiles, rest);
        assert(tile_or_blank(geometry, middle.tiles, coord) == tile_or_blank(
            geometry,
            tiles,
            coord,
        ));
        let valid = geometry.tile_bounds(coord);
        let before = tile_or_blank(geometry, tiles, coord);
        assert(geometry.has_tile(command[command.len() - 1].coord));
        assert(0 <= valid.width() * valid.height()) by (nonlinear_arith)
            requires
                valid.width() >= 0,
                valid.height() >= 0,
        ;
        lemma_count(
            before,
            tile_after(geometry, before, command.last()),
            geometry.tile_size,
            valid.width(),
            valid.width() * valid.height(),
        );
    }
}

proof fn lemma_differences(
    geometry: RasterGeometry,
    tiles: Map<TileCoord, Seq<LinearRgba>>,
    command: Seq<ExactTileModel>,
    n: int,
)
    requires
        geometry.valid(),
        tiles_valid(geometry, tiles),
        tiles_placed(geometry, command),
        0 <= n <= command.len(),
    ensures
        step_counts(geometry, tiles, command, n) == differences(
            geometry,
            tiles,
            replay_tiles(geometry, tiles, command).tiles,
            command,
            n,
        ),
    decreases n,
{
    if n > 0 {
        lemma_differences(geometry, tiles, command, n - 1);
        let coord = command[n - 1].coord;
        assert(geometry.has_tile(command[n - 1].coord));
        let valid = geometry.tile_bounds(coord);
        let count = valid.width() * valid.height();
        let before = tile_or_blank(geometry, tiles, coord);
        let after = tile_after(geometry, before, command[n - 1]);
        assert(0 <= valid.width() * valid.height()) by (nonlinear_arith)
            requires
                valid.width() >= 0,
                valid.height() >= 0,
        ;
        lemma_count(before, after, geometry.tile_size, valid.width(), count);
        let changed = Set::new(
            |k: int|
                0 <= k < count && changed_at(before, after, geometry.tile_size, valid.width(), k),
        );
        let differing = differing(
            geometry,
            tiles,
            replay_tiles(geometry, tiles, command).tiles,
            coord,
        );
        assert forall|k: int| changed.contains(k) == differing.contains(k) by {
            if 0 <= k < count {
                lemma_number_differs(geometry, tiles, command, n - 1, k);
            }
        }
        assert(changed =~= differing);
    }
}

/// A replay of exact pixels counts the pixels of the canvas that differ afterwards.
pub proof fn law_exact_replay_counts_its_changes(
    geometry: RasterGeometry,
    tiles: Map<TileCoord, Seq<LinearRgba>>,
    command: Seq<ExactTileModel>,
)
    requires
        geometry.valid(),
        tiles_valid(geometry, tiles),
        tiles_placed(geometry, command),
    ensures
        replay_tiles(geometry, tiles, command).pixels_changed == differences(
            geometry,
            tiles,
            replay_tiles(geometry, tiles, command).tiles,
            command,
            command.len() as int,
        ),
{
    lemma_counts(geometry, tiles, command);
    lemma_differences(geometry, tiles, command, command.len() as int);
}

/// A region can stand in a command: it lies in its tile on whole blocks, and brings a finite pixel for
/// each place, or none where the tile is empty.
pub open spec fn region_is_sound(tile_size: u32, region: PatchRegionModel) -> bool {
    let bounds = region.bounds;
    &&& bounds.max_x <= tile_size && bounds.max_y <= tile_size
    &&& bounds.min_x % 16 == 0 && bounds.min_y % 16 == 0
    &&& bounds.max_x % 16 == 0 && bounds.max_y % 16 == 0
    &&& region.pixels.len() == if region.initialized {
        (bounds.max_x - bounds.min_x) * (bounds.max_y - bounds.min_y)
    } else {
        0
    }
    &&& forall|k: int|
        #![trigger region.pixels[k]]
        0 <= k < region.pixels.len() ==> {
            let pixel = region.pixels[k];
            &&& pixel.r % 0x8000_0000 < 0x7f80_0000
            &&& pixel.g % 0x8000_0000 < 0x7f80_0000
            &&& pixel.b % 0x8000_0000 < 0x7f80_0000
            &&& pixel.a % 0x8000_0000 < 0x7f80_0000
        }
}

proof fn lemma_finite(bits: u32)
    requires
        crate::raster::channel_is_finite(bits),
    ensures
        bits % 0x8000_0000 < 0x7f80_0000,
{
    assert(bits & 0x7f80_0000 != 0x7f80_0000 ==> bits % 0x8000_0000 < 0x7f80_0000) by (bit_vector);
}

/// Regions that make a command belong to one layer, are each sound, agree on whether their tile holds
/// pixels, and never cover a pixel twice.
pub proof fn law_command_regions_are_sound(
    tile_size: u32,
    regions: Seq<GpuMirrorPatchRegion>,
    i: int,
    j: int,
)
    requires
        build_succeeds(tile_size, regions),
        0 <= i < regions.len(),
        0 <= j < regions.len(),
    ensures
        tile_size > 0,
        region_is_sound(tile_size, regions[i]@),
        regions[i]@.key.layer == regions[j]@.key.layer,
        regions[i]@.key == regions[j]@.key ==> regions[i]@.initialized == regions[j]@.initialized,
        i != j && regions[i]@.key == regions[j]@.key && regions[i]@.initialized ==> forall|
            x: int,
            y: int,
        |
            #![trigger regions[i]@.bounds.contains(x, y)]
            !(regions[i]@.bounds.contains(x, y) && regions[j]@.bounds.contains(x, y)),
{
    assert(region_fault(tile_size, regions, i) is None);
    assert(region_fault(tile_size, regions, j) is None);
    assert(tile_fault(regions, regions[i].key.tile) is None);
    let region = regions[i];
    assert forall|k: int| #![trigger region@.pixels[k]] 0 <= k < region@.pixels.len() implies {
        let pixel = region@.pixels[k];
        &&& pixel.r % 0x8000_0000 < 0x7f80_0000
        &&& pixel.g % 0x8000_0000 < 0x7f80_0000
        &&& pixel.b % 0x8000_0000 < 0x7f80_0000
        &&& pixel.a % 0x8000_0000 < 0x7f80_0000
    } by {
        let pixel = region.pixels@[k];
        assert(crate::raster::pixel_finite(region.pixels@[k]));
        lemma_finite(pixel.r);
        lemma_finite(pixel.g);
        lemma_finite(pixel.b);
        lemma_finite(pixel.a);
    }
    let (a, b) = if i < j {
        (i, j)
    } else {
        (j, i)
    };
    if i != j && regions[i]@.key == regions[j]@.key {
        assert(!tile_conflicts(regions, regions[i].key.tile));
        assert(!tile_overlaps(regions, regions[i].key.tile));
        assert(regions[a].key.tile == regions[b].key.tile);
        if regions[i]@.initialized {
            assert(!regions[a].local_bounds@.overlaps(regions[b].local_bounds@));
        }
    }
}

/// A layer that is captured comes back with every pixel as it was; it is captured just where no edit is
/// under way, all its pixels are finite, and it can be counted.
pub proof fn law_layer_comes_back_as_captured(
    layer: LayerId,
    raster: RasterModel,
    command: GpuExactLayerRecoveryCommand,
    x: int,
    y: int,
)
    requires
        layer_captured(
            layer,
            raster,
            Ok::<GpuExactLayerRecoveryCommand, GpuExactLayerRecoveryBuildError>(command),
        ),
        raster.geometry.valid(),
        tiles_valid(raster.geometry, raster.tiles),
        0 <= x < raster.geometry.width,
        0 <= y < raster.geometry.height,
    ensures
        command@.layer == layer,
        raster.gesture is None,
        restored_layer(command@).geometry == raster.geometry,
        pixel_at(raster.geometry, restored_layer(command@).tiles, x, y) == pixel_at(
            raster.geometry,
            raster.tiles,
            x,
            y,
        ),
{
    law_captured_layer_keeps_its_pixels(raster, command@, x, y);
}

/// What a command holds in memory grows by sixteen bytes for each pixel, and by a header for each
/// region and each tile.
pub proof fn law_commands_are_counted_by_their_parts(tiles: int, regions: int, pixels: int)
    requires
        0 <= tiles,
        0 <= regions,
        0 <= pixels,
    ensures
        exact_byte_len(tiles, regions, pixels + 1) == exact_byte_len(tiles, regions, pixels) + 16,
        exact_byte_len(tiles, regions + 1, pixels) == exact_byte_len(tiles, regions, pixels)
            + vstd::layout::size_of::<crate::gpu_raster_recovery::ExactRegionHeader>(),
        exact_byte_len(tiles + 1, regions, pixels) == exact_byte_len(tiles, regions, pixels)
            + vstd::layout::size_of::<crate::gpu_raster_recovery::ExactTileHeader>(),
        exact_byte_len(0, 0, 0) == vstd::layout::size_of::<
            crate::gpu_raster_recovery::ExactCommandHeader,
        >(),
{
    let region = vstd::layout::size_of::<crate::gpu_raster_recovery::ExactRegionHeader>() as int;
    let tile = vstd::layout::size_of::<crate::gpu_raster_recovery::ExactTileHeader>() as int;
    assert((regions + 1) * region == regions * region + region) by (nonlinear_arith);
    assert((tiles + 1) * tile == tiles * tile + tile) by (nonlinear_arith);
    assert(0 * region == 0 && 0 * tile == 0) by (nonlinear_arith);
}

} // verus!
