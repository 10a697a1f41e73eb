//! Writing exact pixels into a layer.

use crate::document::LayerId;
use crate::gpu_raster_recovery::{
    exact_region_valid, ExactCommandModel, ExactRegionModel, ExactTileModel,
    GpuExactRasterRecoveryCommand, GpuExactRasterRecoveryRegion, GpuExactRasterRecoveryTile,
};
use crate::ordering::Ranked;
use crate::pixel_grid::{
    grid_index, lemma_grid_bound, lemma_grid_index, minimum, patch_pixels, patched,
};
use crate::raster::{
    damage_add, pixel_bits_equal, transparent, Damage, LinearRgba, Rect, RectU32, TileCoord,
};
use crate::raster_layer::{
    copy_pixels, tile_or_blank, tiles_valid, uniform, uniform_pixels, with_tile, RasterGeometry,
    RasterLayer, RasterModel,
};
use vstd::prelude::*;

verus! {

#[derive(Clone, Copy, Debug, PartialEq, Eq, Structural)]
#[allow(inconsistent_fields)]
pub enum GpuExactRasterRecoveryReplayError {
    LayerMismatch { expected: LayerId, actual: LayerId },
    TileSizeMismatch { expected: u32, actual: u32 },
    TileOutOfBounds(TileCoord),
}

/// What a replay changed.
#[derive(Debug)]
pub struct GpuExactRasterRecoveryReplay {
    pub damage: Option<Damage>,
    pub pixels_changed: u64,
    pub tiles_written: u32,
    pub tiles_removed: u32,
}

/// The pixels after the regions have been written, as far as the canvas goes.
pub open spec fn patch_all(
    base: Seq<LinearRgba>,
    stride: int,
    limit_x: int,
    limit_y: int,
    regions: Seq<ExactRegionModel>,
) -> Seq<LinearRgba>
    decreases regions.len(),
{
    if regions.len() == 0 {
        base
    } else {
        patched(
            patch_all(base, stride, limit_x, limit_y, regions.drop_last()),
            stride,
            regions.last().bounds,
            limit_x,
            limit_y,
            regions.last().pixels,
        )
    }
}

/// The pixels that a tile of the command leaves behind.
pub open spec fn tile_after(
    geometry: RasterGeometry,
    base: Seq<LinearRgba>,
    tile: ExactTileModel,
) -> Seq<LinearRgba> {
    let valid = geometry.tile_bounds(tile.coord);
    if tile.initialized {
        patch_all(base, geometry.tile_size, valid.width(), valid.height(), tile.regions)
    } else {
        uniform(transparent(), geometry.tile_len())
    }
}

/// Whether the `n`th pixel of the canvas part of a tile differs, counted row by row.
pub open spec fn changed_at(
    before: Seq<LinearRgba>,
    after: Seq<LinearRgba>,
    stride: int,
    width: int,
    n: int,
) -> bool {
    before[grid_index(stride, n % width, n / width)] != after[grid_index(
        stride,
        n % width,
        n / width,
    )]
}

/// How many of the first `n` pixels differ.
pub open spec fn changed_count(
    before: Seq<LinearRgba>,
    after: Seq<LinearRgba>,
    stride: int,
    width: int,
    n: int,
) -> int
    decreases n,
{
    if n <= 0 {
        0
    } else {
        changed_count(before, after, stride, width, n - 1) + if changed_at(
            before,
            after,
            stride,
            width,
            n - 1,
        ) {
            1int
        } else {
            0
        }
    }
}

pub open spec fn pixel_rect(x: int, y: int) -> Rect {
    Rect { min_x: x, min_y: y, max_x: x + 1, max_y: y + 1 }
}

/// The smallest rectangle around those of the first `n` pixels that differ.
pub open spec fn changed_rect(
    before: Seq<LinearRgba>,
    after: Seq<LinearRgba>,
    stride: int,
    width: int,
    n: int,
) -> Option<Rect>
    decreases n,
{
    if n <= 0 {
        None
    } else {
        let earlier = changed_rect(before, after, stride, width, n - 1);
        let here = pixel_rect((n - 1) % width, (n - 1) / width);
        if changed_at(before, after, stride, width, n - 1) {
            match earlier {
                Some(rect) => Some(rect.union(here)),
                None => Some(here),
            }
        } else {
            earlier
        }
    }
}

/// What a replay has done so far.
pub struct ReplayState {
    pub tiles: Map<TileCoord, Seq<LinearRgba>>,
    pub damage: Map<TileCoord, Rect>,
    pub pixels_changed: int,
    pub tiles_written: int,
    pub tiles_removed: int,
}

/// What one tile of a command does. A tile that would not change is left alone.
pub open spec fn replay_step(
    geometry: RasterGeometry,
    state: ReplayState,
    tile: ExactTileModel,
) -> ReplayState {
    let valid = geometry.tile_bounds(tile.coord);
    let before = tile_or_blank(geometry, state.tiles, tile.coord);
    let after = tile_after(geometry, before, tile);
    let count = valid.width() * valid.height();
    match changed_rect(before, after, geometry.tile_size, valid.width(), count) {
        None => state,
        Some(rect) => {
            let tiles = with_tile(state.tiles, tile.coord, after);
            ReplayState {
                tiles,
                damage: damage_add(
                    state.damage,
                    tile.coord,
                    rect.translated(valid.min_x, valid.min_y),
                ),
                pixels_changed: state.pixels_changed + changed_count(
                    before,
                    after,
                    geometry.tile_size,
                    valid.width(),
                    count,
                ),
                tiles_written: state.tiles_written + if tiles.contains_key(tile.coord) {
                    1int
                } else {
                    0
                },
                tiles_removed: state.tiles_removed + if !tiles.contains_key(tile.coord)
                    && state.tiles.contains_key(tile.coord) {
                    1int
                } else {
                    0
                },
            }
        },
    }
}

pub open spec fn replay_tiles(
    geometry: RasterGeometry,
    tiles: Map<TileCoord, Seq<LinearRgba>>,
    command: Seq<ExactTileModel>,
) -> ReplayState
    decreases command.len(),
{
    if command.len() == 0 {
        ReplayState {
            tiles,
            damage: Map::empty(),
            pixels_changed: 0,
            tiles_written: 0,
            tiles_removed: 0,
        }
    } else {
        replay_step(
            geometry,
            replay_tiles(geometry, tiles, command.drop_last()),
            command.last(),
        )
    }
}

/// The first of the first `n` tiles that holds no pixel of the canvas.
pub open spec fn first_outside(
    geometry: RasterGeometry,
    tiles: Seq<ExactTileModel>,
    n: int,
) -> Option<TileCoord>
    decreases n,
{
    if n <= 0 {
        None
    } else {
        match first_outside(geometry, tiles, n - 1) {
            Some(tile) => Some(tile),
            None => if geometry.has_tile(tiles[n - 1].coord) {
                None
            } else {
                Some(tiles[n - 1].coord)
            },
        }
    }
}

/// Why a command is not replayed on a layer, if it is not.
pub open spec fn exact_replay_error(
    layer_id: LayerId,
    geometry: RasterGeometry,
    command: ExactCommandModel,
) -> Option<GpuExactRasterRecoveryReplayError> {
    if layer_id != command.layer {
        Some(
            GpuExactRasterRecoveryReplayError::LayerMismatch {
                expected: command.layer,
                actual: layer_id,
            },
        )
    } else if geometry.tile_size != command.tile_size {
        Some(
            GpuExactRasterRecoveryReplayError::TileSizeMismatch {
                expected: command.tile_size as u32,
                actual: geometry.tile_size as u32,
            },
        )
    } else {
        match first_outside(geometry, command.tiles, command.tiles.len() as int) {
            Some(tile) => Some(GpuExactRasterRecoveryReplayError::TileOutOfBounds(tile)),
            None => None,
        }
    }
}

proof fn lemma_outside_stays(
    geometry: RasterGeometry,
    tiles: Seq<ExactTileModel>,
    at: int,
    n: int,
)
    requires
        0 <= at <= n,
        first_outside(geometry, tiles, at) is Some,
    ensures
        first_outside(geometry, tiles, n) == first_outside(geometry, tiles, at),
    decreases n - at,
{
    if at < n {
        lemma_outside_stays(geometry, tiles, at, n - 1);
    }
}

pub proof fn lemma_all_inside(geometry: RasterGeometry, tiles: Seq<ExactTileModel>, n: int)
    requires
        first_outside(geometry, tiles, n) is None,
    ensures
        forall|t: int|
            #![trigger tiles[t]]
            0 <= t < n ==> geometry.has_tile(tiles[t].coord),
    decreases n,
{
    if n > 0 {
        lemma_all_inside(geometry, tiles, n - 1);
    }
}

/// Writes the canvas part of one region.
fn copy_clipped_region(
    destination: &mut Vec<LinearRgba>,
    tile_size: u32,
    valid_width: u32,
    valid_height: u32,
    region: &GpuExactRasterRecoveryRegion,
)
    requires
        old(destination)@.len() == tile_size * tile_size,
        exact_region_valid(tile_size as int, region@),
    ensures
        final(destination)@ == patched(
            old(destination)@,
            tile_size as int,
            region@.bounds,
            valid_width as int,
            valid_height as int,
            region@.pixels,
        ),
{
    patch_pixels(
        destination,
        tile_size,
        region.local_bounds,
        valid_width,
        valid_height,
        &region.pixels,
    )
}

/// The rectangle around the pixels that differ, and their number added to
/// `changed`, which stops at the largest number it can hold.
fn changed_pixel_bounds(
    before: &Vec<LinearRgba>,
    after: &Vec<LinearRgba>,
    tile_size: u32,
    valid_width: u32,
    valid_height: u32,
    changed: &mut u64,
) -> (bounds: Option<RectU32>)
    requires
        before@.len() == tile_size * tile_size,
        after@.len() == tile_size * tile_size,
        0 < valid_width <= tile_size,
        0 < valid_height <= tile_size,
    ensures
        ({
            let count = valid_width * valid_height;
            let expected = changed_rect(
                before@,
                after@,
                tile_size as int,
                valid_width as int,
                count,
            );
            &&& match bounds {
                Some(bounds) => expected == Some(bounds@) && bounds@.nonempty() && bounds@.max_x
                    <= valid_width && bounds@.max_y <= valid_height,
                None => expected is None,
            }
            &&& *final(changed) == minimum(
                *old(changed) + changed_count(
                    before@,
                    after@,
                    tile_size as int,
                    valid_width as int,
                    count,
                ),
                u64::MAX as int,
            )
        }),
{
    let ghost old_b = before@;
    let ghost old_a = after@;
    let ghost stride = tile_size as int;
    let ghost width = valid_width as int;
    let len: usize = before.len();
    let mut bounds: Option<RectU32> = None;
    let mut y: u32 = 0;
    while y < valid_height
        invariant
            old_b == before@,
            old_a == after@,
            stride == tile_size,
            width == valid_width,
            len == before@.len(),
            before@.len() == tile_size * tile_size,
            after@.len() == tile_size * tile_size,
            0 < valid_width <= tile_size,
            0 < valid_height <= tile_size,
            y <= valid_height,
            match bounds {
                Some(rect) => changed_rect(old_b, old_a, stride, width, y * width) == Some(rect@)
                    && rect@.nonempty() && rect@.max_x <= valid_width && rect@.max_y
                    <= valid_height,
                None => changed_rect(old_b, old_a, stride, width, y * width) is None,
            },
            *changed == minimum(
                *old(changed) + changed_count(old_b, old_a, stride, width, y * width),
                u64::MAX as int,
            ),
        decreases valid_height - y,
    {
        let mut x: u32 = 0;
        while x < valid_width
            invariant
                old_b == before@,
                old_a == after@,
                stride == tile_size,
                width == valid_width,
                len == before@.len(),
                before@.len() == tile_size * tile_size,
                after@.len() == tile_size * tile_size,
                0 < valid_width <= tile_size,
                0 < valid_height <= tile_size,
                y < valid_height,
                x <= valid_width,
                match bounds {
                    Some(rect) => changed_rect(old_b, old_a, stride, width, y * width + x) == Some(
                        rect@,
                    ) && rect@.nonempty() && rect@.max_x <= valid_width && rect@.max_y
                        <= valid_height,
                    None => changed_rect(old_b, old_a, stride, width, y * width + x) is None,
                },
                *changed == minimum(
                    *old(changed) + changed_count(old_b, old_a, stride, width, y * width + x),
                    u64::MAX as int,
                ),
            decreases valid_width - x,
        {
            let ghost n = y * width + x;
            proof {
                lemma_grid_index(width, x as int, y as int);
                lemma_grid_bound(stride, stride, x as int, y as int);
            }
            let index: usize = y as usize * tile_size as usize + x as usize;
            if !pixel_bits_equal(before[index], after[index]) {
                assert(changed_at(old_b, old_a, stride, width, n));
                *changed = changed.saturating_add(1);
                bounds = match RectU32::from_min_max(x, y, x + 1, y + 1) {
                    Some(here) => match bounds {
                        Some(earlier) => Some(earlier.union(here)),
                        None => Some(here),
                    },
                    None => bounds,
                };
            }
            x += 1;
        }
        proof {
            assert((y + 1) * width == y * width + width) by (nonlinear_arith);
        }
        y += 1;
    }
    assert(valid_height * width == valid_width * valid_height) by (nonlinear_arith)
        requires
            width == valid_width,
    ;
    bounds
}

/// A rectangle of a tile, in canvas coordinates.
fn translate_to_canvas(local: RectU32, tile: RectU32) -> (canvas: Option<RectU32>)
    requires
        tile@.min_x + local@.max_x <= u32::MAX,
        tile@.min_y + local@.max_y <= u32::MAX,
    ensures
        canvas matches Some(canvas) && canvas@ == local@.translated(tile@.min_x, tile@.min_y),
{
    let origin_x: u32 = tile.min_x();
    let origin_y: u32 = tile.min_y();
    RectU32::from_min_max(
        origin_x + local.min_x(),
        origin_y + local.min_y(),
        origin_x + local.max_x(),
        origin_y + local.max_y(),
    )
}

pub(crate) proof fn lemma_patch_len(
    base: Seq<LinearRgba>,
    stride: int,
    limit_x: int,
    limit_y: int,
    regions: Seq<ExactRegionModel>,
)
    ensures
        patch_all(base, stride, limit_x, limit_y, regions).len() == base.len(),
    decreases regions.len(),
{
    if regions.len() > 0 {
        lemma_patch_len(base, stride, limit_x, limit_y, regions.drop_last());
    }
}

/// The pixels of a tile after the command has written to it.
fn patched_tile(
    tile: &GpuExactRasterRecoveryTile,
    base: Vec<LinearRgba>,
    tile_size: u32,
    valid: RectU32,
    Ghost(geometry): Ghost<RasterGeometry>,
) -> (pixels: Vec<LinearRgba>)
    requires
        geometry.valid(),
        geometry.tile_size == tile_size,
        geometry.has_tile(tile@.coord),
        valid@ == geometry.tile_bounds(tile@.coord),
        base@.len() == geometry.tile_len(),
        forall|r: int|
            #![trigger tile@.regions[r]]
            0 <= r < tile@.regions.len() ==> exact_region_valid(
                tile_size as int,
                tile@.regions[r],
            ),
    ensures
        pixels@ == tile_after(geometry, base@, tile@),
        pixels@.len() == geometry.tile_len(),
{
    let valid_width: u32 = valid.width();
    let valid_height: u32 = valid.height();
    let len: usize = base.len();
    if !tile.initialized {
        return uniform_pixels(LinearRgba::transparent(), len);
    }
    let ghost start = base@;
    let ghost models = tile@.regions;
    let mut pixels = base;
    let mut r: usize = 0;
    assert(models.subrange(0, 0) =~= Seq::<ExactRegionModel>::empty());
    while r < tile.regions.len()
        invariant
            models == tile@.regions,
            r <= tile.regions@.len(),
            start.len() == tile_size * tile_size,
            valid_width == valid@.width(),
            valid_height == valid@.height(),
            forall|k: int|
                #![trigger models[k]]
                0 <= k < models.len() ==> exact_region_valid(tile_size as int, models[k]),
            pixels@ == patch_all(
                start,
                tile_size as int,
                valid_width as int,
                valid_height as int,
                models.subrange(0, r as int),
            ),
        decreases tile.regions@.len() - r,
    {
        proof {
            lemma_patch_len(
                start,
                tile_size as int,
                valid_width as int,
                valid_height as int,
                models.subrange(0, r as int),
            );
            let prefix = models.subrange(0, r as int + 1);
            assert(prefix.drop_last() =~= models.subrange(0, r as int));
            assert(prefix.last() == models[r as int]);
            assert(models[r as int] == tile.regions@[r as int]@);
        }
        copy_clipped_region(&mut pixels, tile_size, valid_width, valid_height, &tile.regions[r]);
        r += 1;
    }
    proof {
        assert(models.subrange(0, r as int) =~= models);
        lemma_patch_len(
            start,
            tile_size as int,
            valid_width as int,
            valid_height as int,
            models,
        );
    }
    pixels
}

pub(crate) proof fn lemma_replay_keeps_tiles_valid(
    geometry: RasterGeometry,
    state: ReplayState,
    tile: ExactTileModel,
)
    requires
        geometry.valid(),
        tiles_valid(geometry, state.tiles),
        geometry.has_tile(tile.coord),
    ensures
        tiles_valid(geometry, replay_step(geometry, state, tile).tiles),
{
    let next = replay_step(geometry, state, tile);
    let base = tile_or_blank(geometry, state.tiles, tile.coord);
    let valid = geometry.tile_bounds(tile.coord);
    lemma_patch_len(base, geometry.tile_size, valid.width(), valid.height(), tile.regions);
    assert forall|t: TileCoord| #[trigger] next.tiles.contains_key(t) implies geometry.has_tile(t)
        && next.tiles[t].len() == geometry.tile_len() by {
        if t != tile.coord {
            assert(state.tiles.contains_key(t));
        } else if state.tiles.contains_key(t) {
        }
    }
}

/// Writes the pixels of a command into the layer that it belongs to. Where the
/// command does not fit, the layer stays as it was.
pub fn replay_exact_raster_recovery_command(
    layer_id: LayerId,
    layer: &mut RasterLayer,
    command: &GpuExactRasterRecoveryCommand,
) -> (replay: Result<GpuExactRasterRecoveryReplay, GpuExactRasterRecoveryReplayError>)
    requires
        old(layer).wf(),
        command.wf(),
    ensures
        final(layer).wf(),
        ({
            let model = old(layer)@;
            match replay {
                Ok(replay) => {
                    let state = replay_tiles(model.geometry, model.tiles, command@.tiles);
                    &&& exact_replay_error(layer_id, model.geometry, command@) is None
                    &&& final(layer)@ == (RasterModel { tiles: state.tiles, ..model })
                    &&& match replay.damage {
                        Some(damage) => damage.wf() && damage@ == state.damage && state.damage
                            != Map::<TileCoord, Rect>::empty(),
                        None => state.damage == Map::<TileCoord, Rect>::empty(),
                    }
                    &&& replay.pixels_changed == minimum(state.pixels_changed, u64::MAX as int)
                    &&& replay.tiles_written == minimum(state.tiles_written, u32::MAX as int)
                    &&& replay.tiles_removed == minimum(state.tiles_removed, u32::MAX as int)
                },
                Err(error) => {
                    &&& exact_replay_error(layer_id, model.geometry, command@) == Some(error)
                    &&& *final(layer) == *old(layer)
                },
            }
        }),
{
    let ghost model = layer@;
    let ghost geometry = layer@.geometry;
    let ghost tiles = command@.tiles;
    if layer_id.0 != command.layer.0 {
        return Err(
            GpuExactRasterRecoveryReplayError::LayerMismatch {
                expected: command.layer,
                actual: layer_id,
            },
        );
    }
    let tile_size: u32 = layer.tile_size();
    if tile_size != command.tile_size {
        return Err(
            GpuExactRasterRecoveryReplayError::TileSizeMismatch {
                expected: command.tile_size,
                actual: tile_size,
            },
        );
    }
    let mut t: usize = 0;
    while t < command.tiles.len()
        invariant
            *layer == *old(layer),
            layer.wf(),
            model == layer@,
            geometry == layer@.geometry,
            tiles == command@.tiles,
            layer_id == command@.layer,
            geometry.tile_size == command@.tile_size,
            t <= command.tiles@.len(),
            first_outside(geometry, tiles, t as int) is None,
        decreases command.tiles@.len() - t,
    {
        let coord = command.tiles[t].coord;
        assert(tiles[t as int] == command.tiles@[t as int]@);
        if layer.tile_bounds(coord).is_none() {
            proof {
                lemma_outside_stays(geometry, tiles, t as int + 1, tiles.len() as int);
            }
            return Err(GpuExactRasterRecoveryReplayError::TileOutOfBounds(coord));
        }
        t += 1;
    }
    proof {
        lemma_all_inside(geometry, tiles, tiles.len() as int);
    }
    let pixel_count: usize = tile_size as usize * tile_size as usize;
    let mut damage = Damage::new();
    let mut pixels_changed: u64 = 0;
    let mut tiles_written: u32 = 0;
    let mut tiles_removed: u32 = 0;
    let mut i: usize = 0;
    assert(tiles.subrange(0, 0) =~= Seq::<ExactTileModel>::empty());
    while i < command.tiles.len()
        invariant
            layer.wf(),
            command.wf(),
            model == old(layer)@,
            geometry == model.geometry,
            geometry.valid(),
            tile_size == geometry.tile_size,
            tile_size == command.tile_size,
            pixel_count == geometry.tile_len(),
            tiles == command@.tiles,
            forall|t: int|
                #![trigger tiles[t]]
                0 <= t < tiles.len() ==> geometry.has_tile(tiles[t].coord),
            damage.wf(),
            i <= command.tiles@.len(),
            ({
                let state = replay_tiles(geometry, model.tiles, tiles.subrange(0, i as int));
                &&& layer@ == (RasterModel { tiles: state.tiles, ..model })
                &&& damage@ == state.damage
                &&& pixels_changed == minimum(state.pixels_changed, u64::MAX as int)
                &&& tiles_written == minimum(state.tiles_written, u32::MAX as int)
                &&& tiles_removed == minimum(state.tiles_removed, u32::MAX as int)
            }),
        decreases command.tiles@.len() - i,
    {
        let tile = &command.tiles[i];
        let ghost state = replay_tiles(geometry, model.tiles, tiles.subrange(0, i as int));
        proof {
            let prefix = tiles.subrange(0, i as int + 1);
            assert(prefix.drop_last() =~= tiles.subrange(0, i as int));
            assert(prefix.last() == tiles[i as int]);
            assert(tiles[i as int] == tile@);
            lemma_replay_keeps_tiles_valid(geometry, state, tile@);
            assert forall|r: int|
                #![trigger tile@.regions[r]]
                0 <= r < tile@.regions.len() implies exact_region_valid(
                tile_size as int,
                tile@.regions[r],
            ) by {
                assert(exact_region_valid(tile_size as int, tiles[i as int].regions[r]));
            }
        }
        let valid_bounds = match layer.tile_bounds(tile.coord) {
            Some(bounds) => bounds,
            None => {
                return Err(GpuExactRasterRecoveryReplayError::TileOutOfBounds(tile.coord));
            },
        };
        let was_allocated = layer.tile_is_allocated(tile.coord);
        let before = match layer.tile(tile.coord) {
            Some(pixels) => copy_pixels(pixels),
            None => uniform_pixels(LinearRgba::transparent(), pixel_count),
        };
        proof {
            if state.tiles.contains_key(tile.coord) {
                assert(before@.len() == geometry.tile_len());
            }
            assert(before@ == tile_or_blank(geometry, state.tiles, tile.coord));
        }
        let base = copy_pixels(&before);
        let pixels = patched_tile(tile, base, tile_size, valid_bounds, Ghost(geometry));
        proof {
            let valid = geometry.tile_bounds(tile@.coord);
            lemma_changed_count(
                before@,
                pixels@,
                geometry.tile_size,
                valid.width(),
                valid.width() * valid.height(),
            );
        }
        let changed_bounds = changed_pixel_bounds(
            &before,
            &pixels,
            tile_size,
            valid_bounds.width(),
            valid_bounds.height(),
            &mut pixels_changed,
        );
        match changed_bounds {
            Some(changed_bounds) => {
                match translate_to_canvas(changed_bounds, valid_bounds) {
                    Some(canvas) => {
                        damage.add(tile.coord, canvas);
                    },
                    None => {},
                }
                match layer.restore_tile(tile.coord, pixels) {
                    Ok(_) => {},
                    Err(_) => {
                        return Err(
                            GpuExactRasterRecoveryReplayError::TileOutOfBounds(tile.coord),
                        );
                    },
                }
                if layer.tile_is_allocated(tile.coord) {
                    tiles_written = tiles_written.saturating_add(1);
                } else if was_allocated {
                    tiles_removed = tiles_removed.saturating_add(1);
                }
            },
            None => {
                proof {
                    let valid = geometry.tile_bounds(tile@.coord);
                    lemma_no_change_no_count(
                        before@,
                        pixels@,
                        geometry.tile_size,
                        valid.width(),
                        valid.width() * valid.height(),
                    );
                }
            },
        }
        i += 1;
    }
    assert(tiles.subrange(0, i as int) =~= tiles);
    Ok(
        GpuExactRasterRecoveryReplay {
            damage: if damage.is_empty() {
                None
            } else {
                Some(damage)
            },
            pixels_changed,
            tiles_written,
            tiles_removed,
        },
    )
}

proof fn lemma_changed_count(
    before: Seq<LinearRgba>,
    after: Seq<LinearRgba>,
    stride: int,
    width: int,
    n: int,
)
    ensures
        changed_count(before, after, stride, width, n) >= 0,
    decreases n,
{
    if n > 0 {
        lemma_changed_count(before, after, stride, width, n - 1);
    }
}

pub(crate) proof fn lemma_no_change_no_count(
    before: Seq<LinearRgba>,
    after: Seq<LinearRgba>,
    stride: int,
    width: int,
    n: int,
)
    requires
        changed_rect(before, after, stride, width, n) is None,
    ensures
        changed_count(before, after, stride, width, n) == 0,
        forall|k: int| 0 <= k < n ==> !#[trigger] changed_at(before, after, stride, width, k),
    decreases n,
{
    if n > 0 {
        lemma_no_change_no_count(before, after, stride, width, n - 1);
    }
}

} // verus!
