//! What painting, patching and replaying do to each pixel.

use crate::gpu_atlas::LayerTileKey;
use crate::gpu_cpu_mirror::{
    apply_batches, apply_region, apply_regions, patch_applies, PatchBatchModel, PatchRegionModel,
};
use crate::gpu_raster_laws::{law_replay_writes_exact_pixels, tiles_placed};
use crate::gpu_raster_recovery::{ExactRegionModel, ExactTileModel};
use crate::gpu_raster_replay::{patch_all, pixel_rect, replay_tiles};
use crate::gpu_round_recovery::{
    evaluation_fits, first_failure, round_pixels, round_replay_error, round_replay_model,
    round_replay_reported, GpuRoundRecoveryReplay, GpuRoundRecoveryReplayError, RoundEvaluation,
    RoundPixelOutcome,
};
use crate::pixel_grid::{lemma_grid_bound, lemma_grid_index, lemma_grid_position};
use crate::raster::{damage_add, transparent, LinearRgba, Rect, TileCoord};
use crate::raster_layer::{
    pixel_at, tile_or_blank, tiles_valid, with_pixel, RasterGeometry, RasterModel,
};
use vstd::prelude::*;

verus! {

/// Two pixels of the canvas with one place in one tile are one pixel.
pub proof fn law_pixels_have_places_of_their_own(
    geometry: RasterGeometry,
    x: int,
    y: int,
    other_x: int,
    other_y: int,
)
    requires
        geometry.valid(),
        0 <= x < geometry.width,
        0 <= y < geometry.height,
        0 <= other_x < geometry.width,
        0 <= other_y < geometry.height,
    ensures
        0 <= geometry.index_of(x, y) < geometry.tile_size * geometry.tile_size,
        geometry.has_tile(geometry.tile_of(x, y)),
        geometry.tile_of(x, y).x * geometry.tile_size <= x < geometry.tile_of(x, y).x
            * geometry.tile_size + geometry.tile_size,
        geometry.tile_of(x, y).y * geometry.tile_size <= y < geometry.tile_of(x, y).y
            * geometry.tile_size + geometry.tile_size,
        geometry.index_of(x, y) == (y - geometry.tile_of(x, y).y * geometry.tile_size)
            * geometry.tile_size + (x - geometry.tile_of(x, y).x * geometry.tile_size),
        geometry.tile_of(x, y) == geometry.tile_of(other_x, other_y) && geometry.index_of(x, y)
            == geometry.index_of(other_x, other_y) ==> x == other_x && y == other_y,
{
    let size = geometry.tile_size;
    lemma_grid_position(size, x);
    lemma_grid_position(size, y);
    lemma_grid_position(size, other_x);
    lemma_grid_position(size, other_y);
    lemma_grid_bound(size, size, x % size, y % size);
    lemma_grid_index(size, x % size, y % size);
    lemma_grid_index(size, other_x % size, other_y % size);
    lemma_quotient(x, size);
    lemma_quotient(y, size);
    lemma_quotient(other_x, size);
    lemma_quotient(other_y, size);
}

proof fn lemma_quotient(x: int, size: int)
    requires
        0 <= x <= u32::MAX,
        0 < size,
    ensures
        0 <= x / size <= x,
{
    assert(0 <= x / size <= x) by (nonlinear_arith)
        requires
            0 <= x,
            0 < size,
    ;
}

/// Setting a pixel changes that pixel and no other.
pub proof fn law_setting_a_pixel_changes_only_that_pixel(
    geometry: RasterGeometry,
    tiles: Map<TileCoord, Seq<LinearRgba>>,
    x: int,
    y: int,
    color: LinearRgba,
    at_x: int,
    at_y: int,
)
    requires
        geometry.valid(),
        tiles_valid(geometry, tiles),
        0 <= x < geometry.width,
        0 <= y < geometry.height,
        0 <= at_x < geometry.width,
        0 <= at_y < geometry.height,
    ensures
        pixel_at(geometry, with_pixel(geometry, tiles, x, y, color), at_x, at_y) == if at_x == x
            && at_y == y {
            color
        } else {
            pixel_at(geometry, tiles, at_x, at_y)
        },
        tiles_valid(geometry, with_pixel(geometry, tiles, x, y, color)),
{
    law_pixels_have_places_of_their_own(geometry, x, y, at_x, at_y);
    law_pixels_have_places_of_their_own(geometry, at_x, at_y, x, y);
    let tile = geometry.tile_of(x, y);
    let base = tile_or_blank(geometry, tiles, tile);
    assert(base.len() == geometry.tile_len());
    let after = with_pixel(geometry, tiles, x, y, color);
    assert forall|t: TileCoord| #[trigger] after.contains_key(t) implies geometry.has_tile(t)
        && after[t].len() == geometry.tile_len() by {
        if t != tile {
            assert(tiles.contains_key(t));
        }
    }
}

/// Where the `n`th outcome of an evaluation lies, and that it lies on the canvas.
proof fn lemma_outcome_place(geometry: RasterGeometry, bounds: Rect, n: int)
    requires
        geometry.valid(),
        bounds.nonempty(),
        0 <= bounds.min_x,
        0 <= bounds.min_y,
        bounds.max_x <= geometry.width,
        bounds.max_y <= geometry.height,
        0 <= n < bounds.area(),
    ensures
        bounds.min_x <= bounds.min_x + n % bounds.width() < bounds.max_x,
        bounds.min_y <= bounds.min_y + n / bounds.width() < bounds.max_y,
        n == (n / bounds.width()) * bounds.width() + n % bounds.width(),
{
    let width = bounds.width();
    let height = bounds.height();
    lemma_grid_position(width, n);
    assert(n / width < height) by (nonlinear_arith)
        requires
            n < width * height,
            n == (n / width) * width + n % width,
            0 <= n % width,
            width > 0,
    ;
}

/// The pixel at (`x`, `y`) after the first `n` outcomes.
proof fn lemma_painted_pixel(
    geometry: RasterGeometry,
    tiles: Map<TileCoord, Seq<LinearRgba>>,
    bounds: Rect,
    outcomes: Seq<RoundPixelOutcome>,
    n: int,
    x: int,
    y: int,
)
    requires
        geometry.valid(),
        tiles_valid(geometry, tiles),
        bounds.nonempty(),
        0 <= bounds.min_x,
        0 <= bounds.min_y,
        bounds.max_x <= geometry.width,
        bounds.max_y <= geometry.height,
        outcomes.len() == bounds.area(),
        0 <= n <= outcomes.len(),
        0 <= x < geometry.width,
        0 <= y < geometry.height,
    ensures
        tiles_valid(geometry, round_pixels(geometry, tiles, bounds, outcomes, n).tiles),
        ({
            let k = (y - bounds.min_y) * bounds.width() + (x - bounds.min_x);
            pixel_at(geometry, round_pixels(geometry, tiles, bounds, outcomes, n).tiles, x, y)
                == if bounds.contains(x, y) && k < n {
                match outcomes[k] {
                    RoundPixelOutcome::Paint(color) => color,
                    _ => pixel_at(geometry, tiles, x, y),
                }
            } else {
                pixel_at(geometry, tiles, x, y)
            }
        }),
    decreases n,
{
    let width = bounds.width();
    if bounds.contains(x, y) {
        lemma_grid_bound(width, bounds.height(), x - bounds.min_x, y - bounds.min_y);
        lemma_grid_index(width, x - bounds.min_x, y - bounds.min_y);
    }
    if n > 0 {
        lemma_painted_pixel(geometry, tiles, bounds, outcomes, n - 1, x, y);
        lemma_outcome_place(geometry, bounds, n - 1);
        let before = round_pixels(geometry, tiles, bounds, outcomes, n - 1).tiles;
        let at_x = bounds.min_x + (n - 1) % width;
        let at_y = bounds.min_y + (n - 1) / width;
        match outcomes[n - 1] {
            RoundPixelOutcome::Paint(color) => {
                law_setting_a_pixel_changes_only_that_pixel(
                    geometry,
                    before,
                    at_x,
                    at_y,
                    color,
                    x,
                    y,
                );
            },
            _ => {},
        }
    }
}

/// After a replay that succeeds each pixel has the color that its outcome paints, whatever the color
/// is: paint stays painted, and what was erased stays erased. A pixel that the stroke does not reach,
/// and one outside its bounds, keeps its color.
pub proof fn law_replayed_stroke_paints_every_outcome(
    layer: RasterModel,
    evaluation: RoundEvaluation,
    x: int,
    y: int,
)
    requires
        layer.geometry.valid(),
        tiles_valid(layer.geometry, layer.tiles),
        evaluation_fits(layer.geometry, evaluation),
        round_replay_error(layer, evaluation) is None,
        0 <= x < layer.geometry.width,
        0 <= y < layer.geometry.height,
    ensures
        pixel_at(layer.geometry, round_replay_model(layer, evaluation).tiles, x, y) == (
        match evaluation.bounds {
            Some(bounds) => if bounds@.min_x <= x < bounds@.max_x && bounds@.min_y <= y
                < bounds@.max_y {
                match evaluation.outcomes@[(y - bounds@.min_y) * (bounds@.max_x - bounds@.min_x) + (
                x - bounds@.min_x)] {
                    RoundPixelOutcome::Paint(color) => color,
                    _ => pixel_at(layer.geometry, layer.tiles, x, y),
                }
            } else {
                pixel_at(layer.geometry, layer.tiles, x, y)
            },
            None => pixel_at(layer.geometry, layer.tiles, x, y),
        }),
        round_replay_model(layer, evaluation).geometry == layer.geometry,
        round_replay_model(layer, evaluation).gesture == layer.gesture,
{
    match evaluation.bounds {
        Some(bounds) => {
            let outcomes = evaluation.outcomes@;
            if bounds@.contains(x, y) {
                lemma_grid_bound(
                    bounds@.width(),
                    bounds@.height(),
                    x - bounds@.min_x,
                    y - bounds@.min_y,
                );
                assert(bounds@.height() * bounds@.width() == bounds@.width() * bounds@.height())
                    by (nonlinear_arith);
            }
            lemma_painted_pixel(
                layer.geometry,
                layer.tiles,
                bounds@,
                outcomes,
                outcomes.len() as int,
                x,
                y,
            );
        },
        None => {},
    }
}

/// Whether the `k`th outcome gives its pixel another color than the layer has there.
pub open spec fn outcome_changes(layer: RasterModel, evaluation: RoundEvaluation, k: int) -> bool {
    match evaluation.bounds {
        Some(bounds) => {
            let width = bounds@.max_x - bounds@.min_x;
            evaluation.outcomes@[k] matches RoundPixelOutcome::Paint(color) && pixel_at(
                layer.geometry,
                layer.tiles,
                bounds@.min_x + k % width,
                bounds@.min_y + k / width,
            ) != color
        },
        None => false,
    }
}

proof fn lemma_step_counts(
    layer: RasterModel,
    evaluation: RoundEvaluation,
    n: int,
)
    requires
        layer.geometry.valid(),
        tiles_valid(layer.geometry, layer.tiles),
        evaluation_fits(layer.geometry, evaluation),
        evaluation.bounds is Some,
        0 <= n <= evaluation.outcomes@.len(),
    ensures
        ({
            let bounds = evaluation.bounds->0;
            let state = round_pixels(
                layer.geometry,
                layer.tiles,
                bounds@,
                evaluation.outcomes@,
                n,
            );
            let changed = Set::new(
                |k: int| 0 <= k < n && outcome_changes(layer, evaluation, k),
            );
            &&& changed.finite()
            &&& state.pixels_changed == changed.len()
            &&& forall|k: int|
                #![trigger outcome_changes(layer, evaluation, k)]
                0 <= k < n && outcome_changes(layer, evaluation, k) ==> {
                    let x = bounds@.min_x + k % bounds@.width();
                    let y = bounds@.min_y + k / bounds@.width();
                    let tile = layer.geometry.tile_of(x, y);
                    state.damage.contains_key(tile) && state.damage[tile].contains(x, y)
                }
            &&& forall|tile: TileCoord| #[trigger]
                state.damage.contains_key(tile) ==> damage_is_tight(
                    layer,
                    evaluation,
                    n,
                    tile,
                    state.damage[tile],
                )
        }),
    decreases n,
{
    let bounds = evaluation.bounds->0;
    let width = bounds@.width();
    let outcomes = evaluation.outcomes@;
    let geometry = layer.geometry;
    let state = round_pixels(geometry, layer.tiles, bounds@, outcomes, n);
    let changed = Set::new(|k: int| 0 <= k < n && outcome_changes(layer, evaluation, k));
    if n <= 0 {
        assert(changed =~= Set::empty());
    } else {
        lemma_step_counts(layer, evaluation, n - 1);
        let earlier = Set::new(|k: int| 0 <= k < n - 1 && outcome_changes(layer, evaluation, k));
        let before = round_pixels(geometry, layer.tiles, bounds@, outcomes, n - 1);
        lemma_outcome_place(geometry, bounds@, n - 1);
        let x = bounds@.min_x + (n - 1) % width;
        let y = bounds@.min_y + (n - 1) / width;
        lemma_grid_index(width, x - bounds@.min_x, y - bounds@.min_y);
        lemma_painted_pixel(geometry, layer.tiles, bounds@, outcomes, n - 1, x, y);
        assert(pixel_at(geometry, before.tiles, x, y) == pixel_at(geometry, layer.tiles, x, y));
        let tile = geometry.tile_of(x, y);
        if outcome_changes(layer, evaluation, n - 1) {
            assert(changed =~= earlier.insert(n - 1));
            assert(pixel_rect(x, y).contains(x, y));
            assert(state.damage == damage_add(before.damage, tile, pixel_rect(x, y)));
            assert forall|k: int|
                #![trigger outcome_changes(layer, evaluation, k)]
                0 <= k < n && outcome_changes(layer, evaluation, k) implies {
                let x = bounds@.min_x + k % bounds@.width();
                let y = bounds@.min_y + k / bounds@.width();
                let tile = layer.geometry.tile_of(x, y);
                state.damage.contains_key(tile) && state.damage[tile].contains(x, y)
            } by {
                if k < n - 1 {
                    let at = geometry.tile_of(
                        bounds@.min_x + k % width,
                        bounds@.min_y + k / width,
                    );
                    assert(before.damage.contains_key(at));
                }
            }
        } else {
            assert(changed =~= earlier);
            assert(state == before);
        }
        assert forall|t: TileCoord| #[trigger] state.damage.contains_key(t) implies damage_is_tight(
            layer,
            evaluation,
            n,
            t,
            state.damage[t],
        ) by {
            if before.damage.contains_key(t) {
                let was = before.damage[t];
                assert(damage_is_tight(layer, evaluation, n - 1, t, was));
                let (a, b, c, d) = choose|a: int, b: int, c: int, d: int|
                    {
                        &&& changed_in(layer, evaluation, n - 1, t, a)
                        &&& changed_in(layer, evaluation, n - 1, t, b)
                        &&& #[trigger] changed_in(layer, evaluation, n - 1, t, c)
                        &&& #[trigger] changed_in(layer, evaluation, n - 1, t, d)
                        &&& #[trigger] outcome_x(evaluation, a) == was.min_x
                        &&& #[trigger] outcome_y(evaluation, b) == was.min_y
                        &&& outcome_x(evaluation, c) == was.max_x - 1
                        &&& outcome_y(evaluation, d) == was.max_y - 1
                    };
                lemma_still_changed(layer, evaluation, n, t, a);
                lemma_still_changed(layer, evaluation, n, t, b);
                lemma_still_changed(layer, evaluation, n, t, c);
                lemma_still_changed(layer, evaluation, n, t, d);
                let now = state.damage[t];
                let k = n - 1;
                if outcome_changes(layer, evaluation, k) && t == tile {
                    assert(changed_in(layer, evaluation, n, t, k));
                    let a2 = if was.min_x <= x { a } else { k };
                    let b2 = if was.min_y <= y { b } else { k };
                    let c2 = if was.max_x >= x + 1 { c } else { k };
                    let d2 = if was.max_y >= y + 1 { d } else { k };
                    assert(outcome_x(evaluation, a2) == now.min_x);
                    assert(outcome_y(evaluation, b2) == now.min_y);
                    assert(outcome_x(evaluation, c2) == now.max_x - 1);
                    assert(outcome_y(evaluation, d2) == now.max_y - 1);
                    assert(changed_in(layer, evaluation, n, t, c2));
                    assert(changed_in(layer, evaluation, n, t, d2));
                } else {
                    assert(now == was);
                    assert(outcome_x(evaluation, a) == now.min_x);
                    assert(outcome_y(evaluation, b) == now.min_y);
                }
            } else {
                let k = n - 1;
                assert(t == tile);
                assert(changed_in(layer, evaluation, n, t, k));
                assert(state.damage[t] == pixel_rect(x, y));
                assert(outcome_x(evaluation, k) == x);
                assert(outcome_y(evaluation, k) == y);
            }
        }
    }
}

pub open spec fn outcome_x(evaluation: RoundEvaluation, k: int) -> int {
    let bounds = (evaluation.bounds->0)@;
    bounds.min_x + k % (bounds.max_x - bounds.min_x)
}

pub open spec fn outcome_y(evaluation: RoundEvaluation, k: int) -> int {
    let bounds = (evaluation.bounds->0)@;
    bounds.min_y + k / (bounds.max_x - bounds.min_x)
}

/// One of the first `n` outcomes changes a pixel of the tile.
pub open spec fn changed_in(
    layer: RasterModel,
    evaluation: RoundEvaluation,
    n: int,
    tile: TileCoord,
    k: int,
) -> bool {
    &&& 0 <= k < n
    &&& outcome_changes(layer, evaluation, k)
    &&& layer.geometry.tile_of(outcome_x(evaluation, k), outcome_y(evaluation, k)) == tile
}

/// Each side of the rectangle has a changed pixel of the tile on it.
pub open spec fn damage_is_tight(
    layer: RasterModel,
    evaluation: RoundEvaluation,
    n: int,
    tile: TileCoord,
    rect: Rect,
) -> bool {
    exists|a: int, b: int, c: int, d: int|
        {
            &&& changed_in(layer, evaluation, n, tile, a)
            &&& changed_in(layer, evaluation, n, tile, b)
            &&& #[trigger] changed_in(layer, evaluation, n, tile, c)
            &&& #[trigger] changed_in(layer, evaluation, n, tile, d)
            &&& #[trigger] outcome_x(evaluation, a) == rect.min_x
            &&& #[trigger] outcome_y(evaluation, b) == rect.min_y
            &&& outcome_x(evaluation, c) == rect.max_x - 1
            &&& outcome_y(evaluation, d) == rect.max_y - 1
        }
}

proof fn lemma_still_changed(
    layer: RasterModel,
    evaluation: RoundEvaluation,
    n: int,
    tile: TileCoord,
    k: int,
)
    requires
        changed_in(layer, evaluation, n - 1, tile, k),
    ensures
        changed_in(layer, evaluation, n, tile, k),
{
}

/// A replay counts the pixels that get another color, and its damage is the smallest rectangle
/// around those of each tile. Where nothing changes there is no damage.
pub proof fn law_replayed_stroke_reports_its_changes(
    layer: RasterModel,
    evaluation: RoundEvaluation,
    replay: GpuRoundRecoveryReplay,
)
    requires
        layer.geometry.valid(),
        tiles_valid(layer.geometry, layer.tiles),
        evaluation_fits(layer.geometry, evaluation),
        round_replay_reported(layer, evaluation, Ok(replay)),
    ensures
        ({
            let count = evaluation.outcomes@.len() as int;
            let changed = Set::new(
                |k: int| 0 <= k < count && outcome_changes(layer, evaluation, k),
            );
            &&& replay.pixels_evaluated == count
            &&& replay.pixels_changed == changed.len() || changed.len() > u64::MAX
            &&& replay.damage is None <==> changed =~= Set::empty()
            &&& replay.damage matches Some(damage) ==> {
                &&& forall|k: int| #[trigger]
                    changed.contains(k) ==> {
                        let tile = layer.geometry.tile_of(
                            outcome_x(evaluation, k),
                            outcome_y(evaluation, k),
                        );
                        damage@.contains_key(tile) && damage@[tile].contains(
                            outcome_x(evaluation, k),
                            outcome_y(evaluation, k),
                        )
                    }
                &&& forall|tile: TileCoord| #[trigger]
                    damage@.contains_key(tile) ==> damage_is_tight(
                        layer,
                        evaluation,
                        count,
                        tile,
                        damage@[tile],
                    )
            }
        }),
{
    let count = evaluation.outcomes@.len() as int;
    let changed = Set::new(|k: int| 0 <= k < count && outcome_changes(layer, evaluation, k));
    match evaluation.bounds {
        Some(bounds) => {
            lemma_step_counts(layer, evaluation, count);
            let state = round_pixels(
                layer.geometry,
                layer.tiles,
                bounds@,
                evaluation.outcomes@,
                count,
            );
            if changed =~= Set::empty() {
                assert(state.damage =~= Map::<TileCoord, Rect>::empty()) by {
                    assert forall|tile: TileCoord| !#[trigger] state.damage.contains_key(tile) by {
                        if state.damage.contains_key(tile) {
                            assert(damage_is_tight(
                                layer,
                                evaluation,
                                count,
                                tile,
                                state.damage[tile],
                            ));
                            let (a, b, c, d) = choose|a: int, b: int, c: int, d: int|
                                {
                                    &&& changed_in(layer, evaluation, count, tile, a)
                                    &&& changed_in(layer, evaluation, count, tile, b)
                                    &&& #[trigger] changed_in(layer, evaluation, count, tile, c)
                                    &&& #[trigger] changed_in(layer, evaluation, count, tile, d)
                                    &&& #[trigger] outcome_x(evaluation, a) == state.damage[tile].min_x
                                    &&& #[trigger] outcome_y(evaluation, b) == state.damage[tile].min_y
                                    &&& outcome_x(evaluation, c) == state.damage[tile].max_x - 1
                                    &&& outcome_y(evaluation, d) == state.damage[tile].max_y - 1
                                };
                            assert(changed.contains(c));
                        }
                    }
                }
            } else {
                let k = choose|k: int| changed.contains(k);
                assert(changed.contains(k));
                assert(outcome_changes(layer, evaluation, k));
                let tile = layer.geometry.tile_of(
                    bounds@.min_x + k % bounds@.width(),
                    bounds@.min_y + k / bounds@.width(),
                );
                assert(state.damage.contains_key(tile));
            }
        },
        None => {
            assert(changed =~= Set::empty());
        },
    }
}

/// A replay is refused for a stroke exactly where some pixel failed, with the error of the first one;
/// the layer then keeps all of its pixels.
pub proof fn law_failed_pixel_refuses_the_stroke(
    layer: RasterModel,
    evaluation: RoundEvaluation,
    k: int,
)
    requires
        layer.gesture is None,
        layer.next_gesture < u64::MAX,
        0 <= k < evaluation.outcomes@.len(),
        evaluation.outcomes@[k] is Failed,
        forall|j: int| 0 <= j < k ==> !(#[trigger] evaluation.outcomes@[j] is Failed),
    ensures
        round_replay_error(layer, evaluation) == Some(
            GpuRoundRecoveryReplayError::Stroke(evaluation.outcomes@[k]->Failed_0),
        ),
        round_replay_model(layer, evaluation).tiles == layer.tiles,
        round_replay_model(layer, evaluation).undo_depth == layer.undo_depth,
{
    lemma_failure_found(evaluation.outcomes@, k, evaluation.outcomes@.len() as int);
}

proof fn lemma_failure_found(outcomes: Seq<RoundPixelOutcome>, k: int, n: int)
    requires
        0 <= k < outcomes.len(),
        outcomes[k] is Failed,
        forall|j: int| 0 <= j < k ==> !(#[trigger] outcomes[j] is Failed),
        n <= outcomes.len(),
    ensures
        first_failure(outcomes, n) == if k < n {
            Some(outcomes[k]->Failed_0)
        } else {
            None
        },
    decreases n,
{
    if n > 0 {
        lemma_failure_found(outcomes, k, n - 1);
        if n - 1 < k {
            assert(!(outcomes[n - 1] is Failed));
        }
    }
}

/// Where no pixel failed and the layer is at rest, the stroke is not refused.
pub proof fn law_stroke_without_failures_is_replayed(
    layer: RasterModel,
    evaluation: RoundEvaluation,
)
    requires
        layer.gesture is None,
        layer.next_gesture < u64::MAX,
        forall|j: int|
            0 <= j < evaluation.outcomes@.len() ==> !(#[trigger] evaluation.outcomes@[j] is Failed),
    ensures
        round_replay_error(layer, evaluation) is None,
{
    lemma_no_failure(evaluation.outcomes@, evaluation.outcomes@.len() as int);
}

proof fn lemma_no_failure(outcomes: Seq<RoundPixelOutcome>, n: int)
    requires
        n <= outcomes.len(),
        forall|j: int| 0 <= j < outcomes.len() ==> !(#[trigger] outcomes[j] is Failed),
    ensures
        first_failure(outcomes, n) is None,
    decreases n,
{
    if n > 0 {
        lemma_no_failure(outcomes, n - 1);
        assert(!(outcomes[n - 1] is Failed));
    }
}

/// The color at a place of a tile, transparent where there is no tile.
pub open spec fn shown_at(
    tiles: Map<LayerTileKey, Seq<LinearRgba>>,
    tile_size: int,
    key: LayerTileKey,
    x: int,
    y: int,
) -> LinearRgba {
    if tiles.contains_key(key) {
        tiles[key][y * tile_size + x]
    } else {
        transparent()
    }
}

/// Every tile has all of its pixels.
pub open spec fn all_full(tiles: Map<LayerTileKey, Seq<LinearRgba>>, tile_size: int) -> bool {
    forall|key: LayerTileKey| #[trigger]
        tiles.contains_key(key) ==> tiles[key].len() == tile_size * tile_size
}

/// A patch with pixels gives each place inside its bounds the patch's pixel and leaves each place
/// outside as it was; a patch without pixels empties its tile. No other tile changes.
pub proof fn law_patch_changes_only_its_bounds(
    geometry: RasterGeometry,
    tiles: Map<LayerTileKey, Seq<LinearRgba>>,
    patch: PatchRegionModel,
    key: LayerTileKey,
    x: int,
    y: int,
)
    requires
        geometry.valid(),
        all_full(tiles, geometry.tile_size),
        patch_applies(geometry, patch),
        0 <= patch.bounds.min_x,
        0 <= patch.bounds.min_y,
        0 <= x < geometry.tile_size,
        0 <= y < geometry.tile_size,
    ensures
        all_full(apply_region(geometry, tiles, patch), geometry.tile_size),
        apply_region(geometry, tiles, patch).contains_key(key) == if key == patch.key {
            patch.initialized
        } else {
            tiles.contains_key(key)
        },
        shown_at(apply_region(geometry, tiles, patch), geometry.tile_size, key, x, y) == if key
            != patch.key {
            shown_at(tiles, geometry.tile_size, key, x, y)
        } else if !patch.initialized {
            transparent()
        } else if patch.bounds.min_x <= x < patch.bounds.max_x && patch.bounds.min_y <= y
            < patch.bounds.max_y {
            patch.pixels[(y - patch.bounds.min_y) * (patch.bounds.max_x - patch.bounds.min_x) + (x
                - patch.bounds.min_x)]
        } else {
            shown_at(tiles, geometry.tile_size, key, x, y)
        },
        key != patch.key && tiles.contains_key(key) ==> apply_region(geometry, tiles, patch)[key]
            == tiles[key],
{
    let size = geometry.tile_size;
    lemma_grid_bound(size, size, x, y);
    lemma_grid_index(size, x, y);
    let after = apply_region(geometry, tiles, patch);
    assert forall|k: LayerTileKey| #[trigger] after.contains_key(k) implies after[k].len() == size
        * size by {
        if k != patch.key {
            assert(tiles.contains_key(k));
        }
    }
}

/// Whether a patch decides the color at a place of a tile.
pub open spec fn decides(patch: PatchRegionModel, key: LayerTileKey, x: int, y: int) -> bool {
    patch.key == key && (!patch.initialized || patch.bounds.contains(x, y))
}

/// The color that a patch gives a place that it decides.
pub open spec fn given_by(patch: PatchRegionModel, x: int, y: int) -> LinearRgba {
    if patch.initialized {
        patch.pixels[(y - patch.bounds.min_y) * (patch.bounds.max_x - patch.bounds.min_x) + (x
            - patch.bounds.min_x)]
    } else {
        transparent()
    }
}

pub open spec fn patches_apply(geometry: RasterGeometry, patches: Seq<PatchRegionModel>) -> bool {
    forall|r: int|
        0 <= r < patches.len() ==> patch_applies(geometry, #[trigger] patches[r]) && 0
            <= patches[r].bounds.min_x && 0 <= patches[r].bounds.min_y
}

/// Of several patches the last that reaches a place decides its color; where none reaches it, it
/// keeps its own.
pub proof fn law_last_patch_decides(
    geometry: RasterGeometry,
    tiles: Map<LayerTileKey, Seq<LinearRgba>>,
    patches: Seq<PatchRegionModel>,
    key: LayerTileKey,
    x: int,
    y: int,
)
    requires
        geometry.valid(),
        all_full(tiles, geometry.tile_size),
        patches_apply(geometry, patches),
        0 <= x < geometry.tile_size,
        0 <= y < geometry.tile_size,
    ensures
        all_full(apply_regions(geometry, tiles, patches), geometry.tile_size),
        forall|r: int|
            0 <= r < patches.len() && #[trigger] decides(patches[r], key, x, y) && (forall|q: int|
                r < q < patches.len() ==> !#[trigger] decides(patches[q], key, x, y)) ==> shown_at(
                apply_regions(geometry, tiles, patches),
                geometry.tile_size,
                key,
                x,
                y,
            ) == given_by(patches[r], x, y),
        (forall|q: int| 0 <= q < patches.len() ==> !#[trigger] decides(patches[q], key, x, y))
            ==> shown_at(
            apply_regions(geometry, tiles, patches),
            geometry.tile_size,
            key,
            x,
            y,
        ) == shown_at(tiles, geometry.tile_size, key, x, y),
    decreases patches.len(),
{
    if patches.len() > 0 {
        let rest = patches.drop_last();
        let last = patches.last();
        assert(patches[patches.len() - 1] == last);
        assert forall|r: int| 0 <= r < rest.len() implies patch_applies(
            geometry,
            #[trigger] rest[r],
        ) && 0 <= rest[r].bounds.min_x && 0 <= rest[r].bounds.min_y by {
            assert(patches[r] == rest[r]);
        }
        law_last_patch_decides(geometry, tiles, rest, key, x, y);
        let before = apply_regions(geometry, tiles, rest);
        law_patch_changes_only_its_bounds(geometry, before, last, key, x, y);
        assert forall|r: int|
            0 <= r < patches.len() && #[trigger] decides(patches[r], key, x, y) && (forall|q: int|
                r < q < patches.len() ==> !#[trigger] decides(
                    patches[q],
                    key,
                    x,
                    y,
                )) implies shown_at(
            apply_regions(geometry, tiles, patches),
            geometry.tile_size,
            key,
            x,
            y,
        ) == given_by(patches[r], x, y) by {
            if r < rest.len() {
                assert(!decides(patches[patches.len() - 1], key, x, y));
                assert(decides(rest[r], key, x, y));
                assert forall|q: int| r < q < rest.len() implies !#[trigger] decides(
                    rest[q],
                    key,
                    x,
                    y,
                ) by {
                    assert(!decides(patches[q], key, x, y));
                }
            }
        }
        if forall|q: int| 0 <= q < patches.len() ==> !#[trigger] decides(patches[q], key, x, y) {
            assert(!decides(patches[patches.len() - 1], key, x, y));
            assert forall|q: int| 0 <= q < rest.len() implies !#[trigger] decides(
                rest[q],
                key,
                x,
                y,
            ) by {
                assert(!decides(patches[q], key, x, y));
            }
        }
    }
}

/// What a revision brings to the mirror, place by place: the last patch of the last batch that
/// reaches a place decides its color, and a place that no batch reaches keeps its own.
pub proof fn law_last_batch_decides(
    geometry: RasterGeometry,
    tiles: Map<LayerTileKey, Seq<LinearRgba>>,
    batches: Seq<PatchBatchModel>,
    key: LayerTileKey,
    x: int,
    y: int,
)
    requires
        geometry.valid(),
        all_full(tiles, geometry.tile_size),
        forall|b: int|
            0 <= b < batches.len() ==> patches_apply(geometry, (#[trigger] batches[b]).regions),
        0 <= x < geometry.tile_size,
        0 <= y < geometry.tile_size,
    ensures
        all_full(apply_batches(geometry, tiles, batches), geometry.tile_size),
        forall|b: int, r: int|
            #![trigger batches[b].regions[r]]
            0 <= b < batches.len() && 0 <= r < batches[b].regions.len() && decides(
                batches[b].regions[r],
                key,
                x,
                y,
            ) && (forall|q: int|
                r < q < batches[b].regions.len() ==> !decides(
                    #[trigger] batches[b].regions[q],
                    key,
                    x,
                    y,
                )) && (forall|c: int, q: int|
                #![trigger batches[c].regions[q]]
                b < c < batches.len() && 0 <= q < batches[c].regions.len() ==> !decides(
                    batches[c].regions[q],
                    key,
                    x,
                    y,
                )) ==> shown_at(
                apply_batches(geometry, tiles, batches),
                geometry.tile_size,
                key,
                x,
                y,
            ) == given_by(batches[b].regions[r], x, y),
        (forall|c: int, q: int|
            #![trigger batches[c].regions[q]]
            0 <= c < batches.len() && 0 <= q < batches[c].regions.len() ==> !decides(
                batches[c].regions[q],
                key,
                x,
                y,
            )) ==> shown_at(
            apply_batches(geometry, tiles, batches),
            geometry.tile_size,
            key,
            x,
            y,
        ) == shown_at(tiles, geometry.tile_size, key, x, y),
    decreases batches.len(),
{
    if batches.len() > 0 {
        let rest = batches.drop_last();
        let end = batches.len() - 1;
        let last = batches[end].regions;
        assert forall|b: int| 0 <= b < rest.len() implies patches_apply(
            geometry,
            (#[trigger] rest[b]).regions,
        ) by {
            assert(batches[b] == rest[b]);
        }
        law_last_batch_decides(geometry, tiles, rest, key, x, y);
        let before = apply_batches(geometry, tiles, rest);
        law_last_patch_decides(geometry, before, last, key, x, y);
        assert forall|b: int, r: int|
            #![trigger batches[b].regions[r]]
            0 <= b < batches.len() && 0 <= r < batches[b].regions.len() && decides(
                batches[b].regions[r],
                key,
                x,
                y,
            ) && (forall|q: int|
                r < q < batches[b].regions.len() ==> !decides(
                    #[trigger] batches[b].regions[q],
                    key,
                    x,
                    y,
                )) && (forall|c: int, q: int|
                #![trigger batches[c].regions[q]]
                b < c < batches.len() && 0 <= q < batches[c].regions.len() ==> !decides(
                    batches[c].regions[q],
                    key,
                    x,
                    y,
                )) implies shown_at(
            apply_batches(geometry, tiles, batches),
            geometry.tile_size,
            key,
            x,
            y,
        ) == given_by(batches[b].regions[r], x, y) by {
            if b < end {
                assert(rest[b] == batches[b]);
                assert(decides(rest[b].regions[r], key, x, y));
                assert forall|q: int| 0 <= q < last.len() implies !#[trigger] decides(
                    last[q],
                    key,
                    x,
                    y,
                ) by {
                    assert(!decides(batches[end].regions[q], key, x, y));
                }
                assert forall|c: int, q: int|
                    #![trigger rest[c].regions[q]]
                    b < c < rest.len() && 0 <= q < rest[c].regions.len() implies !decides(
                    rest[c].regions[q],
                    key,
                    x,
                    y,
                ) by {
                    assert(!decides(batches[c].regions[q], key, x, y));
                }
            } else {
                assert(decides(last[r], key, x, y));
                assert forall|q: int| r < q < last.len() implies !#[trigger] decides(
                    last[q],
                    key,
                    x,
                    y,
                ) by {
                    assert(!decides(batches[b].regions[q], key, x, y));
                }
            }
        }
        if forall|c: int, q: int|
            #![trigger batches[c].regions[q]]
            0 <= c < batches.len() && 0 <= q < batches[c].regions.len() ==> !decides(
                batches[c].regions[q],
                key,
                x,
                y,
            ) {
            assert forall|q: int| 0 <= q < last.len() implies !#[trigger] decides(
                last[q],
                key,
                x,
                y,
            ) by {
                assert(!decides(batches[end].regions[q], key, x, y));
            }
            assert forall|c: int, q: int|
                #![trigger rest[c].regions[q]]
                0 <= c < rest.len() && 0 <= q < rest[c].regions.len() implies !decides(
                rest[c].regions[q],
                key,
                x,
                y,
            ) by {
                assert(!decides(batches[c].regions[q], key, x, y));
            }
        }
    }
}

/// A place that the last region over it sets has that region's pixel. One that no region reaches
/// keeps its own.
proof fn lemma_patched_place(
    base: Seq<LinearRgba>,
    stride: int,
    limit_x: int,
    limit_y: int,
    regions: Seq<ExactRegionModel>,
    x: int,
    y: int,
)
    requires
        0 <= x < limit_x <= stride,
        0 <= y < limit_y <= stride,
        base.len() == stride * stride,
    ensures
        ({
            let after = patch_all(base, stride, limit_x, limit_y, regions);
            let k = y * stride + x;
            &&& after.len() == base.len()
            &&& forall|r: int|
                0 <= r < regions.len() && (#[trigger] regions[r]).bounds.contains(x, y) && (
                forall|q: int|
                    r < q < regions.len() ==> !(#[trigger] regions[q]).bounds.contains(x, y))
                    ==> after[k] == regions[r].pixels[(y - regions[r].bounds.min_y) * (
                regions[r].bounds.max_x - regions[r].bounds.min_x) + (x - regions[r].bounds.min_x)]
            &&& (forall|q: int|
                0 <= q < regions.len() ==> !(#[trigger] regions[q]).bounds.contains(x, y))
                ==> after[k] == base[k]
        }),
    decreases regions.len(),
{
    lemma_grid_bound(stride, stride, x, y);
    lemma_grid_index(stride, x, y);
    if regions.len() > 0 {
        let rest = regions.drop_last();
        lemma_patched_place(base, stride, limit_x, limit_y, rest, x, y);
        let end = regions.len() - 1;
        let after = patch_all(base, stride, limit_x, limit_y, regions);
        let k = y * stride + x;
        assert forall|r: int|
            0 <= r < regions.len() && (#[trigger] regions[r]).bounds.contains(x, y) && (forall|
                q: int,
            |
                r < q < regions.len() ==> !(#[trigger] regions[q]).bounds.contains(
                    x,
                    y,
                )) implies after[k] == regions[r].pixels[(y - regions[r].bounds.min_y) * (
        regions[r].bounds.max_x - regions[r].bounds.min_x) + (x - regions[r].bounds.min_x)] by {
            if r < end {
                assert(!regions[end].bounds.contains(x, y));
                assert(rest[r].bounds.contains(x, y));
                assert forall|q: int| r < q < rest.len() implies !(
                #[trigger] rest[q]).bounds.contains(x, y) by {
                    assert(!regions[q].bounds.contains(x, y));
                }
            }
        }
        if forall|q: int|
            0 <= q < regions.len() ==> !(#[trigger] regions[q]).bounds.contains(x, y) {
            assert(!regions[end].bounds.contains(x, y));
            assert forall|q: int| 0 <= q < rest.len() implies !(#[trigger] rest[q]).bounds.contains(
                x,
                y,
            ) by {
                assert(!regions[q].bounds.contains(x, y));
            }
        }
    }
}

/// After the replay of exact pixels each place of a named tile, as far as the canvas goes, has the
/// pixel of the last region over it; a place that no region reaches keeps its color; a tile that is
/// named as empty is empty.
pub proof fn law_exact_replay_sets_every_pixel(
    geometry: RasterGeometry,
    tiles: Map<TileCoord, Seq<LinearRgba>>,
    command: Seq<ExactTileModel>,
    at: int,
    x: int,
    y: int,
)
    requires
        geometry.valid(),
        tiles_valid(geometry, tiles),
        tiles_placed(geometry, command),
        0 <= at < command.len(),
        0 <= x < geometry.tile_size,
        0 <= y < geometry.tile_size,
        command[at].coord.x * geometry.tile_size + x < geometry.width,
        command[at].coord.y * geometry.tile_size + y < geometry.height,
    ensures
        ({
            let tile = command[at];
            let k = y * geometry.tile_size + x;
            let before = tile_or_blank(geometry, tiles, tile.coord)[k];
            let after = tile_or_blank(
                geometry,
                replay_tiles(geometry, tiles, command).tiles,
                tile.coord,
            )[k];
            &&& !tile.initialized ==> after == transparent()
            &&& tile.initialized ==> {
                &&& forall|r: int|
                    0 <= r < tile.regions.len() && (#[trigger] tile.regions[r]).bounds.contains(
                        x,
                        y,
                    ) && (forall|q: int|
                        r < q < tile.regions.len() ==> !(
                        #[trigger] tile.regions[q]).bounds.contains(x, y)) ==> after
                        == tile.regions[r].pixels[(y - tile.regions[r].bounds.min_y) * (
                    tile.regions[r].bounds.max_x - tile.regions[r].bounds.min_x) + (x
                        - tile.regions[r].bounds.min_x)]
                &&& (forall|q: int|
                    0 <= q < tile.regions.len() ==> !(#[trigger] tile.regions[q]).bounds.contains(
                        x,
                        y,
                    )) ==> after == before
            }
        }),
{
    let tile = command[at];
    let valid = geometry.tile_bounds(tile.coord);
    law_replay_writes_exact_pixels(geometry, tiles, command, at, x, y);
    lemma_grid_bound(geometry.tile_size, geometry.tile_size, x, y);
    if tile.initialized {
        lemma_patched_place(
            tile_or_blank(geometry, tiles, tile.coord),
            geometry.tile_size,
            valid.width(),
            valid.height(),
            tile.regions,
            x,
            y,
        );
    }
}

} // verus!
