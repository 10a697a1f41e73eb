//! What a stroke leaves on its layer, and where its tiles lie meanwhile.

use crate::gpu_mirror_capture::{pixel_of, words_of, words_read};
use crate::gpu_readback_laws::spells_pixel;
use crate::gpu_stroke::{
    all_blended, blended_by, changed_area, colors_equal, covered, names_tile, overlaid,
    overlaid_damage, overlaid_tiles, overlay_error, overlay_reported, overlays_error,
    GpuStrokeVertex, SourceOverModel, SourceOverTile, StrokeTileDamage,
};
use crate::gpu_stroke_target::{
    aligned, all_touched_error, buffer_index, creation_error, display_of, encode_reported,
    next_slot, row_pitch, slot_ensured, slots_ensured, steps_over, stroke_read, tile_pitch,
    tile_read, tiles_displayed, tiles_listed, touched_error, ReadbackModel, StrokeBatchEncoding,
    StrokeDeviceLimits, StrokeDisplayTile, StrokeDraw, StrokeSlot, StrokeTargetError,
    StrokeTargetModel, StrokeTile,
};
use crate::pixel_grid::{lemma_grid_bound, lemma_grid_index, lemma_grid_position, lemma_grid_row};
use crate::raster::{LinearRgba, Rect, TileCoord};
use crate::raster_layer::{tile_or_blank, tiles_valid, RasterGeometry, RasterModel};
use vstd::prelude::*;

verus! {

/// Two numbers compare equal: they are the same number, or both are zero.
pub open spec fn alike(a: u32, b: u32) -> bool {
    a % 0x8000_0000 <= 0x7f80_0000 && (a == b || (a % 0x8000_0000 == 0 && b % 0x8000_0000 == 0))
}

/// Two colors compare equal in all four numbers.
pub open spec fn colors_alike(a: LinearRgba, b: LinearRgba) -> bool {
    alike(a.r, b.r) && alike(a.g, b.g) && alike(a.b, b.b) && alike(a.a, b.a)
}

proof fn lemma_alike(a: LinearRgba, b: LinearRgba)
    ensures
        colors_equal(a, b) == colors_alike(a, b),
{
}

/// The pixel of a tile differs between two states of a layer.
pub open spec fn pixel_changed(
    geometry: RasterGeometry,
    before: Map<TileCoord, Seq<LinearRgba>>,
    after: Map<TileCoord, Seq<LinearRgba>>,
    tile: TileCoord,
    x: int,
    y: int,
) -> bool {
    &&& 0 <= x < geometry.tile_size
    &&& 0 <= y < geometry.tile_size
    &&& !colors_alike(
        tile_or_blank(geometry, after, tile)[y * geometry.tile_size + x],
        tile_or_blank(geometry, before, tile)[y * geometry.tile_size + x],
    )
}

pub(crate) proof fn lemma_distinct(geometry: RasterGeometry, tiles: Seq<SourceOverModel>)
    requires
        overlays_error(geometry, tiles) is None,
    ensures
        forall|i: int, j: int|
            #![trigger tiles[i], tiles[j]]
            0 <= i < j < tiles.len() ==> tiles[i].coord != tiles[j].coord,
        forall|i: int|
            #![trigger tiles[i]]
            0 <= i < tiles.len() ==> tiles[i].pixels.len() == geometry.tile_len(),
    decreases tiles.len(),
{
    if tiles.len() > 0 {
        let rest = tiles.drop_last();
        lemma_distinct(geometry, rest);
        assert forall|i: int, j: int|
            #![trigger tiles[i], tiles[j]]
            0 <= i < j < tiles.len() implies tiles[i].coord != tiles[j].coord by {
            assert(rest[i] == tiles[i]);
            if j < rest.len() {
                assert(rest[j] == tiles[j]);
            }
        }
        assert forall|i: int|
            #![trigger tiles[i]]
            0 <= i < tiles.len() implies tiles[i].pixels.len() == geometry.tile_len() by {
            if i < rest.len() {
                assert(rest[i] == tiles[i]);
            } else {
                assert(overlay_error(geometry, rest, tiles.last()) is None);
            }
        }
    }
}

spec fn hit(
    tile: SourceOverModel,
    stride: int,
    before: Seq<LinearRgba>,
    blended: Seq<LinearRgba>,
    k: int,
) -> bool {
    covered(tile, stride, k) && !colors_equal(blended[k], before[k])
}

proof fn lemma_area(
    tile: SourceOverModel,
    stride: int,
    before: Seq<LinearRgba>,
    blended: Seq<LinearRgba>,
    n: int,
)
    ensures
        match changed_area(tile, stride, before, blended, n) {
            Some(area) => {
                &&& forall|k: int| #[trigger]
                    hit(tile, stride, before, blended, k) && 0 <= k < n ==> area.contains(
                        k % stride,
                        k / stride,
                    )
                &&& exists|k: int| #[trigger]
                    hit(tile, stride, before, blended, k) && 0 <= k < n && k % stride == area.min_x
                &&& exists|k: int| #[trigger]
                    hit(tile, stride, before, blended, k) && 0 <= k < n && k / stride == area.min_y
                &&& exists|k: int| #[trigger]
                    hit(tile, stride, before, blended, k) && 0 <= k < n && k % stride + 1
                        == area.max_x
                &&& exists|k: int| #[trigger]
                    hit(tile, stride, before, blended, k) && 0 <= k < n && k / stride + 1
                        == area.max_y
            },
            None => forall|k: int| #[trigger]
                hit(tile, stride, before, blended, k) ==> !(0 <= k < n),
        },
    decreases n,
{
    if n > 0 {
        lemma_area(tile, stride, before, blended, n - 1);
        assert(hit(tile, stride, before, blended, n - 1) == (covered(tile, stride, n - 1)
            && !colors_equal(blended[n - 1], before[n - 1])));
    }
}

/// What became of one tile.
spec fn outcome(
    geometry: RasterGeometry,
    before: Map<TileCoord, Seq<LinearRgba>>,
    tile: SourceOverModel,
    result: Seq<LinearRgba>,
) -> Option<Rect> {
    changed_area(
        tile,
        geometry.tile_size,
        tile_or_blank(geometry, before, tile.coord),
        result,
        geometry.tile_len(),
    )
}

proof fn lemma_overlaid(
    geometry: RasterGeometry,
    before: Map<TileCoord, Seq<LinearRgba>>,
    tiles: Seq<SourceOverModel>,
    blended: Seq<Seq<LinearRgba>>,
    i: int,
)
    requires
        0 <= i < tiles.len(),
        forall|i: int, j: int|
            #![trigger tiles[i], tiles[j]]
            0 <= i < j < tiles.len() ==> tiles[i].coord != tiles[j].coord,
    ensures
        tile_or_blank(
            geometry,
            overlaid_tiles(geometry, before, tiles, blended),
            tiles[i].coord,
        ) == (match outcome(geometry, before, tiles[i], blended[i]) {
            Some(area) => overlaid(
                tiles[i],
                geometry.tile_size,
                tile_or_blank(geometry, before, tiles[i].coord),
                blended[i],
                area,
            ),
            None => tile_or_blank(geometry, before, tiles[i].coord),
        }),
        overlaid_damage(geometry, before, tiles, blended).contains_key(tiles[i].coord) <==> outcome(
            geometry,
            before,
            tiles[i],
            blended[i],
        ) is Some,
        outcome(geometry, before, tiles[i], blended[i]) matches Some(area) ==> overlaid_damage(
            geometry,
            before,
            tiles,
            blended,
        )[tiles[i].coord] == area.translated(
            tiles[i].coord.x * geometry.tile_size,
            tiles[i].coord.y * geometry.tile_size,
        ),
    decreases tiles.len(),
{
    let rest = tiles.drop_last();
    assert(forall|j: int| #![trigger rest[j]] 0 <= j < rest.len() ==> rest[j] == tiles[j]);
    if i < rest.len() {
        assert(rest[i] == tiles[i]);
        lemma_overlaid(geometry, before, rest, blended, i);
        assert(tiles.last().coord != tiles[i].coord) by {
            assert(tiles[tiles.len() - 1] == tiles.last());
        }
    } else {
        assert(!names_tile(rest, tiles[i].coord)) by {
            assert(tiles[tiles.len() - 1] == tiles[i]);
        }
        lemma_elsewhere(geometry, before, rest, blended, tiles[i].coord);
    }
}

proof fn lemma_elsewhere(
    geometry: RasterGeometry,
    before: Map<TileCoord, Seq<LinearRgba>>,
    tiles: Seq<SourceOverModel>,
    blended: Seq<Seq<LinearRgba>>,
    coord: TileCoord,
)
    requires
        !names_tile(tiles, coord),
    ensures
        overlaid_tiles(geometry, before, tiles, blended).contains_key(coord)
            == before.contains_key(coord),
        before.contains_key(coord) ==> overlaid_tiles(geometry, before, tiles, blended)[coord]
            == before[coord],
        !overlaid_damage(geometry, before, tiles, blended).contains_key(coord),
    decreases tiles.len(),
{
    if tiles.len() > 0 {
        let rest = tiles.drop_last();
        assert(!names_tile(rest, coord)) by {
            assert(forall|j: int| #![trigger rest[j]] 0 <= j < rest.len() ==> rest[j] == tiles[j]);
        }
        assert(tiles[tiles.len() - 1] == tiles.last());
        lemma_elsewhere(geometry, before, rest, blended, coord);
    }
}

/// Where the tile of a stroke covers a pixel, within its damage and with some alpha, the pixel of the
/// layer is blended with the stroke's; where that makes no difference to any of the four numbers the
/// pixel may keep its own form of zero. Everywhere else the layer stays as it was.
pub proof fn law_stroke_blends_what_it_covers<F: Fn(LinearRgba, LinearRgba) -> LinearRgba>(
    blend: F,
    before: RasterModel,
    tiles: Seq<SourceOverModel>,
    blended: Seq<Seq<LinearRgba>>,
    damage: Option<Map<TileCoord, Rect>>,
    after: RasterModel,
    i: int,
    x: int,
    y: int,
)
    requires
        before.geometry.valid(),
        tiles_valid(before.geometry, before.tiles),
        overlays_error(before.geometry, tiles) is None,
        all_blended(blend, before.geometry, before.tiles, tiles, blended),
        overlay_reported(before, tiles, blended, damage, after),
        0 <= i < tiles.len(),
        0 <= x < before.geometry.tile_size,
        0 <= y < before.geometry.tile_size,
    ensures
        ({
            let k = y * before.geometry.tile_size + x;
            let was = tile_or_blank(before.geometry, before.tiles, tiles[i].coord)[k];
            let is = tile_or_blank(before.geometry, after.tiles, tiles[i].coord)[k];
            let paint = tiles[i].pixels[k];
            let bounds = tiles[i].local_damage@;
            if bounds.min_x <= x < bounds.max_x && bounds.min_y <= y < bounds.max_y && paint.a
                % 0x8000_0000 != 0 {
                exists|result: LinearRgba| #[trigger]
                    call_ensures(blend, (paint, was), result) && (is == result || (is == was
                        && colors_alike(result, was)))
            } else {
                is == was
            }
        }),
        after.geometry == before.geometry,
        forall|coord: TileCoord|
            #![trigger after.tiles.contains_key(coord)]
            #![trigger after.tiles[coord]]
            (forall|j: int| 0 <= j < tiles.len() ==> (#[trigger] tiles[j]).coord != coord) ==> {
                &&& after.tiles.contains_key(coord) == before.tiles.contains_key(coord)
                &&& before.tiles.contains_key(coord) ==> after.tiles[coord] == before.tiles[coord]
            },
{
    let geometry = before.geometry;
    let size = geometry.tile_size;
    let k = y * size + x;
    lemma_grid_index(size, x, y);
    lemma_grid_bound(size, size, x, y);
    lemma_distinct(geometry, tiles);
    lemma_no_damage(geometry, before.tiles, tiles, blended);
    let pixels = tile_or_blank(geometry, before.tiles, tiles[i].coord);
    assert(pixels.len() == geometry.tile_len());
    lemma_overlaid(geometry, before.tiles, tiles, blended, i);
    lemma_area(tiles[i], size, pixels, blended[i], geometry.tile_len());
    lemma_alike(blended[i][k], pixels[k]);
    assert(blended_by(blend, tiles[i], size, pixels, blended[i]));
    assert(hit(tiles[i], size, pixels, blended[i], k) == (covered(tiles[i], size, k)
        && !colors_equal(blended[i][k], pixels[k])));
    assert(tile_or_blank(geometry, after.tiles, tiles[i].coord) == tile_or_blank(
        geometry,
        overlaid_tiles(geometry, before.tiles, tiles, blended),
        tiles[i].coord,
    ));
    if covered(tiles[i], size, k) {
        assert(call_ensures(blend, (tiles[i].pixels[k], pixels[k]), blended[i][k]));
    }
    assert forall|coord: TileCoord|
        #![trigger after.tiles.contains_key(coord)]
        #![trigger after.tiles[coord]]
        (forall|j: int| 0 <= j < tiles.len() ==> (#[trigger] tiles[j]).coord != coord) implies {
        &&& after.tiles.contains_key(coord) == before.tiles.contains_key(coord)
        &&& before.tiles.contains_key(coord) ==> after.tiles[coord] == before.tiles[coord]
    } by {
        assert(!names_tile(tiles, coord));
        lemma_elsewhere(geometry, before.tiles, tiles, blended, coord);
    }
}

/// Without damage no tile is replaced.
proof fn lemma_no_damage(
    geometry: RasterGeometry,
    before: Map<TileCoord, Seq<LinearRgba>>,
    tiles: Seq<SourceOverModel>,
    blended: Seq<Seq<LinearRgba>>,
)
    ensures
        overlaid_damage(geometry, before, tiles, blended) == Map::<TileCoord, Rect>::empty()
            ==> overlaid_tiles(geometry, before, tiles, blended) == before,
    decreases tiles.len(),
{
    if tiles.len() > 0 {
        lemma_no_damage(geometry, before, tiles.drop_last(), blended);
        let all = overlaid_damage(geometry, before, tiles, blended);
        if all == Map::<TileCoord, Rect>::empty() {
            assert(!all.contains_key(tiles.last().coord));
        }
    }
}

/// The damage of a stroke is, tile by tile, the smallest rectangle around the pixels that it changed:
/// a tile without a changed pixel has none.
pub proof fn law_stroke_damage_bounds_the_changes<F: Fn(LinearRgba, LinearRgba) -> LinearRgba>(
    blend: F,
    before: RasterModel,
    tiles: Seq<SourceOverModel>,
    blended: Seq<Seq<LinearRgba>>,
    damage: Option<Map<TileCoord, Rect>>,
    after: RasterModel,
    tile: TileCoord,
)
    requires
        before.geometry.valid(),
        tiles_valid(before.geometry, before.tiles),
        overlays_error(before.geometry, tiles) is None,
        all_blended(blend, before.geometry, before.tiles, tiles, blended),
        overlay_reported(before, tiles, blended, damage, after),
        plain_numbers(tile_or_blank(before.geometry, before.tiles, tile)),
    ensures
        (damage is Some && (damage->0).contains_key(tile)) <==> exists|x: int, y: int| #[trigger]
            pixel_changed(before.geometry, before.tiles, after.tiles, tile, x, y),
        damage is Some && (damage->0).contains_key(tile) ==> bounds_changes(
            before,
            after,
            tile,
            (damage->0)[tile],
        ),
{
    let geometry = before.geometry;
    let size = geometry.tile_size;
    let expected = overlaid_damage(geometry, before.tiles, tiles, blended);
    lemma_distinct(geometry, tiles);
    lemma_no_damage(geometry, before.tiles, tiles, blended);
    if names_tile(tiles, tile) {
        let i = choose|i: int| 0 <= i < tiles.len() && (#[trigger] tiles[i]).coord == tile;
        let pixels = tile_or_blank(geometry, before.tiles, tile);
        let now = tile_or_blank(geometry, after.tiles, tile);
        lemma_overlaid(geometry, before.tiles, tiles, blended, i);
        lemma_area(tiles[i], size, pixels, blended[i], geometry.tile_len());
        assert(blended_by(blend, tiles[i], size, pixels, blended[i]));
        assert(plain_numbers(pixels));
        assert forall|k: int| 0 <= k < geometry.tile_len() implies #[trigger] hit(
            tiles[i],
            size,
            pixels,
            blended[i],
            k,
        ) == pixel_changed(geometry, before.tiles, after.tiles, tile, k % size, k / size) by {
            lemma_grid_position(size, k);
            lemma_grid_row(size, size, k);
            lemma_alike(blended[i][k], pixels[k]);
            assert(colors_alike(pixels[k], pixels[k]));
            match outcome(geometry, before.tiles, tiles[i], blended[i]) {
                Some(area) => {},
                None => {
                    assert(now == pixels);
                },
            }
        }
        match outcome(geometry, before.tiles, tiles[i], blended[i]) {
            Some(area) => {
                assert(expected.contains_key(tile));
                assert(damage == Some(expected));
                assert(bounds_changes(before, after, tile, expected[tile])) by {
                    assert forall|x: int, y: int| #[trigger]
                        pixel_changed(
                            geometry,
                            before.tiles,
                            after.tiles,
                            tile,
                            x,
                            y,
                        ) implies expected[tile].contains(
                        tile.x * size + x,
                        tile.y * size + y,
                    ) by {
                        lemma_grid_index(size, x, y);
                        lemma_grid_bound(size, size, x, y);
                        assert(hit(tiles[i], size, pixels, blended[i], y * size + x));
                    }
                    let left = choose|k: int| #[trigger]
                        hit(tiles[i], size, pixels, blended[i], k) && 0 <= k < geometry.tile_len()
                            && k % size == area.min_x;
                    let top = choose|k: int| #[trigger]
                        hit(tiles[i], size, pixels, blended[i], k) && 0 <= k < geometry.tile_len()
                            && k / size == area.min_y;
                    let right = choose|k: int| #[trigger]
                        hit(tiles[i], size, pixels, blended[i], k) && 0 <= k < geometry.tile_len()
                            && k % size + 1 == area.max_x;
                    let bottom = choose|k: int| #[trigger]
                        hit(tiles[i], size, pixels, blended[i], k) && 0 <= k < geometry.tile_len()
                            && k / size + 1 == area.max_y;
                    assert(pixel_changed(
                        geometry,
                        before.tiles,
                        after.tiles,
                        tile,
                        left % size,
                        left / size,
                    ));
                    assert(pixel_changed(
                        geometry,
                        before.tiles,
                        after.tiles,
                        tile,
                        top % size,
                        top / size,
                    ));
                    assert(pixel_changed(
                        geometry,
                        before.tiles,
                        after.tiles,
                        tile,
                        right % size,
                        right / size,
                    ));
                    assert(pixel_changed(
                        geometry,
                        before.tiles,
                        after.tiles,
                        tile,
                        bottom % size,
                        bottom / size,
                    ));
                }
            },
            None => {
                assert forall|x: int, y: int| !#[trigger] pixel_changed(
                    geometry,
                    before.tiles,
                    after.tiles,
                    tile,
                    x,
                    y,
                ) by {
                    if 0 <= x < size && 0 <= y < size {
                        lemma_grid_index(size, x, y);
                        lemma_grid_bound(size, size, x, y);
                        assert(!hit(tiles[i], size, pixels, blended[i], y * size + x));
                    }
                }
            },
        }
    } else {
        lemma_elsewhere(geometry, before.tiles, tiles, blended, tile);
        assert forall|x: int, y: int| !#[trigger] pixel_changed(
            geometry,
            before.tiles,
            after.tiles,
            tile,
            x,
            y,
        ) by {
            if 0 <= x < size && 0 <= y < size {
                lemma_grid_bound(size, size, x, y);
                let pixels = tile_or_blank(geometry, before.tiles, tile);
                assert(colors_alike(
                    pixels[y * geometry.tile_size + x],
                    pixels[y * geometry.tile_size + x],
                ));
            }
        }
    }
}

/// Every number of every pixel is a number.
pub open spec fn plain_numbers(pixels: Seq<LinearRgba>) -> bool {
    forall|k: int|
        #![trigger pixels[k]]
        0 <= k < pixels.len() ==> colors_alike(pixels[k], pixels[k])
}

/// The rectangle holds every changed pixel of the tile, and each of its sides touches one.
pub open spec fn bounds_changes(
    before: RasterModel,
    after: RasterModel,
    tile: TileCoord,
    bounds: Rect,
) -> bool {
    let size = before.geometry.tile_size;
    &&& forall|x: int, y: int| #[trigger]
        pixel_changed(before.geometry, before.tiles, after.tiles, tile, x, y) ==> bounds.contains(
            tile.x * size + x,
            tile.y * size + y,
        )
    &&& exists|x: int, y: int| #[trigger]
        pixel_changed(before.geometry, before.tiles, after.tiles, tile, x, y) && bounds.min_x
            == tile.x * size + x
    &&& exists|x: int, y: int| #[trigger]
        pixel_changed(before.geometry, before.tiles, after.tiles, tile, x, y) && bounds.min_y
            == tile.y * size + y
    &&& exists|x: int, y: int| #[trigger]
        pixel_changed(before.geometry, before.tiles, after.tiles, tile, x, y) && bounds.max_x
            == tile.x * size + x + 1
    &&& exists|x: int, y: int| #[trigger]
        pixel_changed(before.geometry, before.tiles, after.tiles, tile, x, y) && bounds.max_y
            == tile.y * size + y + 1
}

/// The rectangle is the smallest one around both.
pub open spec fn smallest_around(around: Rect, first: Rect, second: Rect) -> bool {
    &&& around.covers(first)
    &&& around.covers(second)
    &&& around.min_x == first.min_x || around.min_x == second.min_x
    &&& around.min_y == first.min_y || around.min_y == second.min_y
    &&& around.max_x == first.max_x || around.max_x == second.max_x
    &&& around.max_y == first.max_y || around.max_y == second.max_y
}

/// What one touched tile asks for: a draw at its place, cleared first where the stroke had not been
/// there. A tile that had a place keeps it and its damage grows; a new one starts with the damage of
/// the batch.
pub open spec fn drawn_in_place(
    before: Map<TileCoord, StrokeSlot>,
    touched: StrokeTileDamage,
    draw: StrokeDraw,
) -> bool {
    &&& draw.clear == !before.contains_key(touched.coord)
    &&& !draw.clear ==> {
        let held = before[touched.coord];
        &&& draw.slot.page == held.page
        &&& draw.slot.layer == held.layer
        &&& draw.slot.uniform_offset == held.uniform_offset
        &&& smallest_around(draw.slot.local_damage@, held.local_damage@, touched.local_damage@)
    }
    &&& draw.clear ==> draw.slot.local_damage == touched.local_damage
}

proof fn lemma_draws(
    target: StrokeTargetModel,
    touched: Seq<StrokeTileDamage>,
    n: int,
)
    requires
        0 <= n <= touched.len(),
        forall|i: int, j: int|
            #![trigger touched[i], touched[j]]
            0 <= i < j < n ==> touched[i].coord != touched[j].coord,
        slots_ensured(target, touched, n).1 is Some,
    ensures
        ({
            let (after, draws) = slots_ensured(target, touched, n);
            let draws = draws->0;
            &&& draws.len() == n
            &&& forall|k: int|
                #![trigger draws[k]]
                0 <= k < n ==> {
                    &&& drawn_in_place(target.slots, touched[k], draws[k])
                    &&& after.slots.contains_key(touched[k].coord)
                    &&& after.slots[touched[k].coord] == draws[k].slot
                }
            &&& forall|coord: TileCoord|
                #![trigger after.slots.contains_key(coord)]
                (forall|k: int| 0 <= k < n ==> (#[trigger] touched[k]).coord != coord) ==> {
                    &&& after.slots.contains_key(coord) == target.slots.contains_key(coord)
                    &&& target.slots.contains_key(coord) ==> after.slots[coord]
                        == target.slots[coord]
                }
            &&& after.color == target.color
            &&& after.width == target.width
            &&& after.height == target.height
            &&& after.tile_size == target.tile_size
            &&& after.page_capacity == target.page_capacity
            &&& after.uniform_stride == target.uniform_stride
        }),
    decreases n,
{
    if n > 0 {
        lemma_draws(target, touched, n - 1);
        let (middle, earlier) = slots_ensured(target, touched, n - 1);
        let (after, draws) = slots_ensured(target, touched, n);
        let one = touched[n - 1];
        assert(middle.slots.contains_key(one.coord) == target.slots.contains_key(one.coord));
        let draw = slot_ensured(middle, one).1->0;
        assert(drawn_in_place(target.slots, one, draw));
        assert forall|k: int|
            #![trigger (draws->0)[k]]
            0 <= k < n implies {
            &&& drawn_in_place(target.slots, touched[k], (draws->0)[k])
            &&& after.slots.contains_key(touched[k].coord)
            &&& after.slots[touched[k].coord] == (draws->0)[k].slot
        } by {
            if k < n - 1 {
                assert((draws->0)[k] == (earlier->0)[k]);
                assert(touched[k].coord != touched[n - 1].coord);
            }
        }
        assert forall|coord: TileCoord|
            #![trigger after.slots.contains_key(coord)]
            (forall|k: int| 0 <= k < n ==> (#[trigger] touched[k]).coord != coord) implies {
            &&& after.slots.contains_key(coord) == target.slots.contains_key(coord)
            &&& target.slots.contains_key(coord) ==> after.slots[coord] == target.slots[coord]
        } by {
            assert(touched[n - 1].coord != coord);
            assert(middle.slots.contains_key(coord) == target.slots.contains_key(coord));
        }
    }
}

proof fn lemma_touched_once(target: StrokeTargetModel, touched: Seq<StrokeTileDamage>, n: int)
    requires
        0 <= n <= touched.len(),
        all_touched_error(target, touched, n) is None,
    ensures
        forall|i: int, j: int|
            #![trigger touched[i], touched[j]]
            0 <= i < j < n ==> touched[i].coord != touched[j].coord,
    decreases n,
{
    if n > 0 {
        lemma_touched_once(target, touched, n - 1);
        assert(touched_error(target, touched, n - 1) is None);
    }
}

/// A batch that is encoded draws every touched tile once, in order and at its place, and clears just
/// the tiles that the stroke reaches for the first time. The tile's damage grows by that of the
/// batch. No other tile gets, loses or changes a place, and the paint stays.
pub proof fn law_stroke_batch_draws_every_touched_tile(
    before: StrokeTargetModel,
    vertices: Seq<GpuStrokeVertex>,
    touched: Seq<StrokeTileDamage>,
    encoding: StrokeBatchEncoding,
    after: StrokeTargetModel,
)
    requires
        encode_reported(
            before,
            vertices,
            touched,
            Ok::<StrokeBatchEncoding, StrokeTargetError>(encoding),
            after,
        ),
    ensures
        encoding.draws@.len() == touched.len(),
        forall|k: int|
            #![trigger encoding.draws@[k]]
            0 <= k < touched.len() ==> {
                &&& drawn_in_place(before.slots, touched[k], encoding.draws@[k])
                &&& after.slots.contains_key(touched[k].coord)
                &&& after.slots[touched[k].coord] == encoding.draws@[k].slot
            },
        forall|coord: TileCoord|
            #![trigger after.slots.contains_key(coord)]
            (forall|k: int| 0 <= k < touched.len() ==> (#[trigger] touched[k]).coord != coord) ==> {
                &&& after.slots.contains_key(coord) == before.slots.contains_key(coord)
                &&& before.slots.contains_key(coord) ==> after.slots[coord] == before.slots[coord]
            },
        after.color == before.color,
        encoding.stats.vertices == vertices.len() as u32,
{
    let ready = StrokeTargetModel { vertex_capacity: after.vertex_capacity, ..before };
    lemma_touched_once(before, touched, touched.len() as int);
    lemma_draws(ready, touched, touched.len() as int);
}

/// Every tile of a stroke has a place of its own: the places are numbered, page by page and layer by
/// layer, without a gap, and each has its own uniforms.
pub open spec fn places_numbered(target: StrokeTargetModel) -> bool {
    &&& target.slots.dom().finite()
    &&& forall|coord: TileCoord|
        #![trigger target.slots[coord]]
        target.slots.contains_key(coord) ==> {
            let slot = target.slots[coord];
            let number = slot.page * target.page_capacity + slot.layer;
            &&& slot.layer < target.page_capacity
            &&& number < target.slots.dom().len()
            &&& slot.uniform_offset == number * target.uniform_stride
            &&& slot.page < target.pages
        }
    &&& forall|first: TileCoord, second: TileCoord|
        #![trigger target.slots[first], target.slots[second]]
        target.slots.contains_key(first) && target.slots.contains_key(second) && first != second
            ==> (target.slots[first].page, target.slots[first].layer) != (
            target.slots[second].page,
            target.slots[second].layer,
        )
}

proof fn lemma_numbered(target: StrokeTargetModel, touched: StrokeTileDamage)
    requires
        places_numbered(target),
        0 < target.page_capacity <= u32::MAX,
        0 <= target.uniform_stride,
        target.slots.dom().len() < u32::MAX,
        slot_ensured(target, touched).1 is Some,
    ensures
        places_numbered(slot_ensured(target, touched).0),
        slot_ensured(target, touched).0.slots.dom().len() <= target.slots.dom().len() + 1,
{
    let after = slot_ensured(target, touched).0;
    let coord = touched.coord;
    let count = target.slots.dom().len() as int;
    if target.slots.contains_key(coord) {
        assert(after.slots.dom() =~= target.slots.dom());
        assert forall|c: TileCoord|
            #![trigger after.slots[c]]
            after.slots.contains_key(c) implies after.slots[c].page == target.slots[c].page
            && after.slots[c].layer == target.slots[c].layer && after.slots[c].uniform_offset
            == target.slots[c].uniform_offset by {}
    } else {
        assert(after.slots.dom() =~= target.slots.dom().insert(coord));
        let capacity = target.page_capacity;
        vstd::arithmetic::div_mod::lemma_fundamental_div_mod(count, capacity);
        assert(capacity * (count / capacity) == (count / capacity) * capacity) by (nonlinear_arith);
        let slot = next_slot(target, touched.local_damage);
        assert(slot.page == count / capacity && slot.layer == count % capacity);
        assert(0 <= count * target.uniform_stride) by (nonlinear_arith)
            requires
                0 <= count,
                0 <= target.uniform_stride,
        ;
        assert(slot.uniform_offset == count * target.uniform_stride);
        assert forall|c: TileCoord|
            #![trigger after.slots[c]]
            after.slots.contains_key(c) && c != coord implies after.slots[c] == target.slots[c]
            && target.slots.contains_key(c) by {}
        assert forall|first: TileCoord, second: TileCoord|
            #![trigger after.slots[first], after.slots[second]]
            after.slots.contains_key(first) && after.slots.contains_key(second) && first
                != second implies (after.slots[first].page, after.slots[first].layer) != (
            after.slots[second].page,
            after.slots[second].layer,
        ) by {
            if first != coord {
                assert(target.slots[first] == after.slots[first]);
            }
            if second != coord {
                assert(target.slots[second] == after.slots[second]);
            }
        }
    }
}

proof fn lemma_all_numbered(target: StrokeTargetModel, touched: Seq<StrokeTileDamage>, n: int)
    requires
        places_numbered(target),
        0 < target.page_capacity <= u32::MAX,
        0 <= target.uniform_stride,
        target.slots.dom().len() + touched.len() <= u32::MAX,
        0 <= n <= touched.len(),
        slots_ensured(target, touched, n).1 is Some,
    ensures
        places_numbered(slots_ensured(target, touched, n).0),
        slots_ensured(target, touched, n).0.slots.dom().len() <= target.slots.dom().len() + n,
        slots_ensured(target, touched, n).0.page_capacity == target.page_capacity,
        slots_ensured(target, touched, n).0.uniform_stride == target.uniform_stride,
    decreases n,
{
    if n > 0 {
        lemma_all_numbered(target, touched, n - 1);
        lemma_numbered(slots_ensured(target, touched, n - 1).0, touched[n - 1]);
    }
}

/// A batch keeps the places of a stroke apart: two tiles never share a page and layer, nor their
/// uniforms, and every page in use is kept.
pub proof fn law_stroke_places_stay_apart(
    before: StrokeTargetModel,
    vertices: Seq<GpuStrokeVertex>,
    touched: Seq<StrokeTileDamage>,
    encoding: StrokeBatchEncoding,
    after: StrokeTargetModel,
)
    requires
        places_numbered(before),
        0 < before.page_capacity <= u32::MAX,
        0 <= before.uniform_stride,
        before.slots.dom().len() + touched.len() <= u32::MAX,
        encode_reported(
            before,
            vertices,
            touched,
            Ok::<StrokeBatchEncoding, StrokeTargetError>(encoding),
            after,
        ),
    ensures
        places_numbered(after),
        encoding.stats.allocated_tiles == after.slots.dom().len(),
{
    let ready = StrokeTargetModel { vertex_capacity: after.vertex_capacity, ..before };
    assert(places_numbered(ready)) by {
        assert(ready.slots == before.slots);
    }
    lemma_all_numbered(ready, touched, touched.len() as int);
}

/// The rows of a readback start at multiples of 256 bytes, as close together as the pixels of a row
/// allow.
pub open spec fn rows_are_aligned(tile_size: int, bytes_per_row: int) -> bool {
    &&& bytes_per_row % 256 == 0
    &&& 16 * tile_size <= bytes_per_row < 16 * tile_size + 256
}

/// A readback keeps the rows of its tiles at aligned distances.
pub proof fn law_stroke_rows_are_aligned(tile_size: int)
    requires
        0 < tile_size,
    ensures
        rows_are_aligned(tile_size, row_pitch(tile_size)),
        tile_pitch(tile_size) == tile_size * row_pitch(tile_size),
{
    let value = 16 * tile_size;
    let steps = steps_over(value, 256);
    assert(row_pitch(tile_size) == steps * 256);
    assert(tile_pitch(tile_size) == tile_size * row_pitch(tile_size)) by (nonlinear_arith)
        requires
            tile_pitch(tile_size) == row_pitch(tile_size) * tile_size,
    ;
}

/// Each pixel of a tile is spelled by the sixteen bytes of its row and column, the tiles one after
/// the other and their rows at aligned distances; the tiles keep their coordinates and their damage.
pub open spec fn tile_spells_bytes(
    readback: ReadbackModel,
    bytes: Seq<u8>,
    i: int,
    tile: SourceOverModel,
    little: bool,
) -> bool {
    let size = readback.tile_size;
    let row = readback.bytes_per_row;
    &&& tile.coord == readback.tiles[i].coord
    &&& tile.local_damage == readback.tiles[i].slot.local_damage
    &&& tile.pixels.len() == size * size
    &&& forall|x: int, y: int|
        #![trigger tile.pixels[y * size + x]]
        0 <= x < size && 0 <= y < size ==> spells_pixel(
            bytes,
            i * (row * size) + y * row + 16 * x,
            little,
            tile.pixels[y * size + x],
        )
}

/// All tiles of a readback are spelled in one byte order.
pub open spec fn tiles_spell_bytes(
    readback: ReadbackModel,
    bytes: Seq<u8>,
    tiles: Seq<SourceOverTile>,
    little: bool,
) -> bool {
    forall|i: int|
        0 <= i < tiles.len() ==> tile_spells_bytes(
            readback,
            bytes,
            i,
            (#[trigger] tiles[i])@,
            little,
        )
}

/// The pixels that a readback of a stroke gives are those of the mapped bytes, tile by tile and row
/// by row, in one byte order.
pub proof fn law_stroke_readback_spells_the_bytes(
    readback: ReadbackModel,
    bytes: Seq<u8>,
    tiles: Seq<SourceOverTile>,
)
    requires
        stroke_read(readback, bytes, tiles),
        0 < readback.tile_size,
        readback.bytes_per_row == row_pitch(readback.tile_size),
        readback.byte_len == tile_pitch(readback.tile_size) * readback.tiles.len(),
        bytes.len() == readback.byte_len,
    ensures
        tiles.len() == readback.tiles.len(),
        exists|little: bool| #[trigger] tiles_spell_bytes(readback, bytes, tiles, little),
{
    let words = choose|words: Seq<[u32; 4]>|
        {
            &&& #[trigger] words_of(bytes, words)
            &&& tiles.len() == readback.tiles.len()
            &&& forall|i: int|
                0 <= i < tiles.len() ==> tile_read(readback, words, i, (#[trigger] tiles[i])@)
        };
    let little = words_read(bytes, words, true);
    assert(words_read(bytes, words, little));
    let size = readback.tile_size;
    let row = readback.bytes_per_row;
    law_stroke_rows_are_aligned(size);
    assert forall|i: int| 0 <= i < tiles.len() implies tile_spells_bytes(
        readback,
        bytes,
        i,
        (#[trigger] tiles[i])@,
        little,
    ) by {
        let tile = tiles[i]@;
        assert(tile_read(readback, words, i, tile));
        assert(size * size >= 0) by (nonlinear_arith);
        assert forall|x: int, y: int|
            #![trigger tile.pixels[y * size + x]]
            0 <= x < size && 0 <= y < size implies spells_pixel(
            bytes,
            i * (row * size) + y * row + 16 * x,
            little,
            tile.pixels[y * size + x],
        ) by {
            let index = y * size + x;
            lemma_grid_index(size, x, y);
            lemma_grid_bound(size, size, x, y);
            let at = buffer_index(readback, i, index);
            let start = i * tile_pitch(size) + y * row;
            assert(tile.pixels[index] == pixel_of(words[at]));
            assert(start % 16 == 0) by {
                let step = row / 16;
                assert(row == 16 * step);
                assert(start == 16 * (i * (step * size) + y * step)) by (nonlinear_arith)
                    requires
                        start == i * (row * size) + y * row,
                        row == 16 * step,
                ;
            }
            assert(16 * at == start + 16 * x);
            assert(0 <= at < words.len()) by {
                crate::gpu_stroke_target::lemma_in_buffer(readback, i, index);
            }
            let w = words[at];
            assert(words[at][0] == w[0] && words[at][1] == w[1] && words[at][2] == w[2]
                && words[at][3] == w[3]);
        }
    }
    assert(tiles_spell_bytes(readback, bytes, tiles, little));
}

/// What is shown of a stroke: one picture for every tile that it touched, at the tile's place on the
/// canvas, cut off at the canvas's edge, and taken from where the tile lies.
pub proof fn law_presentation_shows_every_tile(
    target: StrokeTargetModel,
    tiles: Seq<StrokeTile>,
    shown: Seq<StrokeDisplayTile>,
    coord: TileCoord,
    x: int,
    y: int,
)
    requires
        tiles_listed(target.slots, tiles),
        tiles_displayed(target, tiles, shown),
        target.slots.contains_key(coord),
        0 <= x < target.tile_size,
        0 <= y < target.tile_size,
        coord.x * target.tile_size + x < target.width,
        coord.y * target.tile_size + y < target.height,
    ensures
        shown.len() == target.slots.dom().len(),
        exists|k: int|
            #![trigger shown[k]]
            {
                &&& 0 <= k < shown.len()
                &&& shown[k].page == target.slots[coord].page
                &&& shown[k].layer == target.slots[coord].layer
                &&& shown[k].origin[0] == coord.x * target.tile_size
                &&& shown[k].origin[1] == coord.y * target.tile_size
                &&& x < shown[k].extent[0] <= target.tile_size
                &&& y < shown[k].extent[1] <= target.tile_size
                &&& shown[k].origin[0] + shown[k].extent[0] <= target.width
                &&& shown[k].origin[1] + shown[k].extent[1] <= target.height
            },
{
    let k = choose|k: int| 0 <= k < tiles.len() && (#[trigger] tiles[k]).coord == coord;
    assert(display_of(target, tiles[k], shown[k]));
}

/// A target for strokes can be made just where there is a canvas, tiles and pages are of a size that the
/// device takes, and the uniforms of all tiles fit into one buffer: one aligned piece for each tile that
/// covers part of the canvas.
pub proof fn law_stroke_target_has_room_for_every_tile(
    limits: StrokeDeviceLimits,
    width: u32,
    height: u32,
    tile_size: u32,
    page_capacity: u32,
    columns: int,
    rows: int,
    stride: int,
)
    requires
        limits.min_uniform_buffer_offset_alignment > 0,
        width > 0,
        height > 0,
        tile_size > 0,
        (columns - 1) * tile_size < width <= columns * tile_size,
        (rows - 1) * tile_size < height <= rows * tile_size,
        stride % limits.min_uniform_buffer_offset_alignment as int == 0,
        32 <= stride < 32 + limits.min_uniform_buffer_offset_alignment,
    ensures
        creation_error(limits, width, height, tile_size, page_capacity) is None <==> {
            &&& 0 < page_capacity <= limits.max_texture_array_layers
            &&& tile_size <= limits.max_texture_dimension_2d
            &&& columns * rows <= u32::MAX
            &&& columns * rows * stride <= limits.max_buffer_size
        },
        aligned(32, limits.min_uniform_buffer_offset_alignment as int) == stride,
{
    let step = limits.min_uniform_buffer_offset_alignment as int;
    lemma_steps(width as int, tile_size as int, columns);
    lemma_steps(height as int, tile_size as int, rows);
    vstd::arithmetic::div_mod::lemma_fundamental_div_mod(stride, step);
    let pieces = stride / step;
    assert(step * pieces == pieces * step) by (nonlinear_arith);
    assert((pieces - 1) * step == pieces * step - step) by (nonlinear_arith);
    lemma_steps(32, step, pieces);
}

proof fn lemma_steps(value: int, step: int, steps: int)
    requires
        step > 0,
        (steps - 1) * step < value <= steps * step,
    ensures
        steps_over(value, step) == steps,
{
    let rest = value + step - 1 - steps * step;
    assert((steps - 1) * step == steps * step - step) by (nonlinear_arith);
    vstd::arithmetic::div_mod::lemma_fundamental_div_mod_converse(
        value + step - 1,
        step,
        steps,
        rest,
    );
}

} // verus!
