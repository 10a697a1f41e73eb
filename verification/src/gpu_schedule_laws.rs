//! Which tiles the sweeps of a round stroke are drawn on.

use crate::gpu_atlas::{
    allocate_all, lemma_allocated, page_batches, slot_of_key, work_on_page, AtlasGeometry,
    LayerTileKey, ResidentWork,
};
use crate::gpu_round::{
    batch_of, bounds_answered, lemma_tile_span, lemma_touched, path_work, placed_work,
    schedule_reported, sweep_work, sweeps, touched_in_order, RoundBounds, RoundCanvas,
    RoundMaskBatch, RoundMaskInstance, RoundWorkState, SchedulerModel,
};
use crate::pixel_grid::{lemma_grid_bound, lemma_grid_index, lemma_grid_position};
use crate::raster::{Rect, TileCoord};
use crate::stroke::{RoundContact, RoundPathCommand};
use vstd::prelude::*;

verus! {

/// The bounds hold the pixel.
pub open spec fn holds(bounds: RoundBounds, x: int, y: int) -> bool {
    bounds.min_x <= x < bounds.max_x && bounds.min_y <= y < bounds.max_y
}

/// A command draws from one contact to another: a dot where a path begins, then every sweep.
pub open spec fn draws(command: RoundPathCommand, from: RoundContact, to: RoundContact) -> bool {
    ||| command == RoundPathCommand::Begin(from) && to == from
    ||| command == (RoundPathCommand::Sweep { from, to })
}

/// The canvas of a scheduler, cut into the tiles of its layout.
pub open spec fn canvas_fits(model: SchedulerModel) -> bool {
    &&& model.layout@.valid()
    &&& model.canvas.tile_size == model.layout@.tile_size
    &&& 0 < model.canvas.width <= u32::MAX
    &&& 0 < model.canvas.height <= u32::MAX
}

/// Where bounds reach into a tile, as the tile counts.
pub open spec fn reach(canvas: RoundCanvas, bounds: RoundBounds, tile: TileCoord) -> Rect {
    let x = tile.x * canvas.tile_size;
    let y = tile.y * canvas.tile_size;
    let end_x = if bounds.max_x <= canvas.width { bounds.max_x as int } else { canvas.width };
    let end_y = if bounds.max_y <= canvas.height { bounds.max_y as int } else { canvas.height };
    Rect {
        min_x: if bounds.min_x <= x { 0 } else { bounds.min_x - x },
        min_y: if bounds.min_y <= y { 0 } else { bounds.min_y - y },
        max_x: if end_x - x <= canvas.tile_size { end_x - x } else { canvas.tile_size },
        max_y: if end_y - y <= canvas.tile_size { end_y - y } else { canvas.tile_size },
    }
}

/// Some pixel of the canvas lies in the bounds and in the tile.
pub open spec fn meets(canvas: RoundCanvas, bounds: RoundBounds, tile: TileCoord) -> bool {
    exists|x: int, y: int| #[trigger]
        holds(bounds, x, y) && 0 <= x < canvas.width && 0 <= y < canvas.height && x
            / canvas.tile_size == tile.x && y / canvas.tile_size == tile.y
}

proof fn lemma_sweep_listed(commands: Seq<RoundPathCommand>, c: int, from: RoundContact, to: RoundContact) -> (k: int)
    requires
        0 <= c < commands.len(),
        draws(commands[c], from, to),
    ensures
        0 <= k < sweeps(commands).len(),
        sweeps(commands)[k] == (from, to),
    decreases commands.len(),
{
    let rest = commands.drop_last();
    if c < rest.len() {
        assert(rest[c] == commands[c]);
        lemma_sweep_listed(rest, c, from, to)
    } else {
        sweeps(rest).len() as int
    }
}

proof fn lemma_sweep_commanded(commands: Seq<RoundPathCommand>, k: int) -> (c: int)
    requires
        0 <= k < sweeps(commands).len(),
    ensures
        0 <= c < commands.len(),
        draws(commands[c], sweeps(commands)[k].0, sweeps(commands)[k].1),
    decreases commands.len(),
{
    if commands.len() == 0 {
        0
    } else {
        let rest = commands.drop_last();
        if k < sweeps(rest).len() {
            let c = lemma_sweep_commanded(rest, k);
            assert(rest[c] == commands[c]);
            c
        } else {
            commands.len() - 1
        }
    }
}

proof fn lemma_in_tile(canvas: RoundCanvas, x: int, y: int)
    requires
        canvas.tile_size > 0,
        0 <= x < canvas.width <= u32::MAX,
        0 <= y < canvas.height <= u32::MAX,
    ensures
        0 <= x / canvas.tile_size <= x,
        0 <= y / canvas.tile_size <= y,
        (x / canvas.tile_size) * canvas.tile_size + x % canvas.tile_size == x,
        (y / canvas.tile_size) * canvas.tile_size + y % canvas.tile_size == y,
        0 <= x % canvas.tile_size < canvas.tile_size,
        0 <= y % canvas.tile_size < canvas.tile_size,
{
    let size = canvas.tile_size;
    lemma_grid_position(size, x);
    lemma_grid_position(size, y);
    assert(x / size <= x) by (nonlinear_arith)
        requires
            0 <= x,
            0 < size,
    ;
    assert(y / size <= y) by (nonlinear_arith)
        requires
            0 <= y,
            0 < size,
    ;
}

/// What one sweep leaves of the work before it.
proof fn lemma_sweep_keeps(
    canvas: RoundCanvas,
    state: RoundWorkState,
    from: RoundContact,
    to: RoundContact,
    rect: Rect,
    n: int,
)
    ensures
        ({
            let after = sweep_work(canvas, state, from, to, rect, n);
            &&& state.work.len() <= after.work.len()
            &&& forall|i: int| 0 <= i < state.work.len() ==> #[trigger] after.work[i] == state.work[i]
            &&& forall|tile: TileCoord| #[trigger]
                state.damage.contains_key(tile) ==> after.damage.contains_key(tile)
                    && after.damage[tile].covers(state.damage[tile])
        }),
    decreases n,
{
    if n > 0 {
        lemma_sweep_keeps(canvas, state, from, to, rect, n - 1);
    }
}

/// The tile that holds a pixel is among the first tiles of a sweep.
proof fn lemma_sweep_reaches(
    canvas: RoundCanvas,
    state: RoundWorkState,
    from: RoundContact,
    to: RoundContact,
    rect: Rect,
    n: int,
    at: int,
) -> (i: int)
    requires
        0 <= at < n,
    ensures
        ({
            let after = sweep_work(canvas, state, from, to, rect, n);
            let tile = canvas.touched(rect, at);
            &&& state.work.len() <= i < after.work.len()
            &&& after.work[i].tile == tile
            &&& after.work[i].from == from
            &&& after.work[i].to == to
            &&& after.work[i].valid_extent == canvas.extent(tile)
            &&& after.damage.contains_key(tile)
            &&& after.damage[tile].covers(canvas.local(rect, tile))
        }),
    decreases n,
{
    let before = sweep_work(canvas, state, from, to, rect, n - 1);
    lemma_sweep_keeps(canvas, state, from, to, rect, n - 1);
    if at < n - 1 {
        lemma_sweep_reaches(canvas, state, from, to, rect, n - 1, at)
    } else {
        before.work.len() as int
    }
}

proof fn lemma_tile_number(canvas: RoundCanvas, rect: Rect, x: int, y: int) -> (at: int)
    requires
        canvas.tile_size > 0,
        rect.contains(x, y),
        0 <= rect.min_x,
        0 <= rect.min_y,
        rect.max_x <= canvas.width <= u32::MAX,
        rect.max_y <= canvas.height <= u32::MAX,
    ensures
        0 <= at < canvas.rows(rect) * canvas.columns(rect),
        canvas.touched(rect, at).x == x / canvas.tile_size,
        canvas.touched(rect, at).y == y / canvas.tile_size,
{
    let size = canvas.tile_size;
    lemma_in_tile(canvas, x, y);
    lemma_tile_span(size, rect.min_x, x + 1);
    lemma_tile_span(size, x, rect.max_x);
    lemma_tile_span(size, rect.min_y, y + 1);
    lemma_tile_span(size, y, rect.max_y);
    let columns = canvas.columns(rect);
    let rows = canvas.rows(rect);
    let column = x / size - canvas.first_column(rect);
    let row = y / size - canvas.first_row(rect);
    lemma_grid_bound(columns, rows, column, row);
    lemma_grid_index(columns, column, row);
    row * columns + column
}

/// The work of a path holds the `k`th sweep for the tile of every pixel that its bounds hold.
proof fn lemma_path_reaches(
    canvas: RoundCanvas,
    sweeps: Seq<(RoundContact, RoundContact)>,
    bounds: Seq<RoundBounds>,
    k: int,
    x: int,
    y: int,
) -> (i: int)
    requires
        canvas.tile_size > 0,
        0 <= x < canvas.width <= u32::MAX,
        0 <= y < canvas.height <= u32::MAX,
        0 <= k < sweeps.len(),
        holds(bounds[k], x, y),
    ensures
        ({
            let state = path_work(canvas, sweeps, bounds);
            let tile = TileCoord {
                x: (x / canvas.tile_size) as u32,
                y: (y / canvas.tile_size) as u32,
            };
            &&& 0 <= i < state.work.len()
            &&& state.work[i].tile == tile
            &&& state.work[i].from == sweeps[k].0
            &&& state.work[i].to == sweeps[k].1
            &&& state.work[i].valid_extent == canvas.extent(tile)
            &&& state.damage.contains_key(tile)
            &&& state.damage[tile].contains(x % canvas.tile_size, y % canvas.tile_size)
        }),
    decreases sweeps.len(),
{
    let rest = sweeps.drop_last();
    let before = path_work(canvas, rest, bounds);
    let last = sweeps.len() - 1;
    let rect = canvas.clipped(bounds[last]);
    let n = canvas.rows(rect) * canvas.columns(rect);
    if k < last {
        let i = lemma_path_reaches(canvas, rest, bounds, k, x, y);
        if rect.nonempty() {
            lemma_sweep_keeps(canvas, before, sweeps.last().0, sweeps.last().1, rect, n);
        }
        i
    } else {
        lemma_in_tile(canvas, x, y);
        let at = lemma_tile_number(canvas, rect, x, y);
        let i = lemma_sweep_reaches(
            canvas,
            before,
            sweeps.last().0,
            sweeps.last().1,
            rect,
            n,
            at,
        );
        i
    }
}

/// Every tile that one sweep adds meets its bounds.
proof fn lemma_sweep_sound(
    canvas: RoundCanvas,
    state: RoundWorkState,
    from: RoundContact,
    to: RoundContact,
    bounds: RoundBounds,
    n: int,
)
    requires
        canvas.tile_size > 0,
        canvas.clipped(bounds).nonempty(),
        0 < canvas.width <= u32::MAX,
        0 < canvas.height <= u32::MAX,
        n <= canvas.rows(canvas.clipped(bounds)) * canvas.columns(canvas.clipped(bounds)),
    ensures
        ({
            let after = sweep_work(canvas, state, from, to, canvas.clipped(bounds), n);
            &&& forall|i: int|
                #![trigger after.work[i]]
                state.work.len() <= i < after.work.len() ==> after.work[i].from == from
                    && after.work[i].to == to && meets(canvas, bounds, after.work[i].tile)
                    && after.work[i].valid_extent == canvas.extent(after.work[i].tile)
            &&& forall|tile: TileCoord| #[trigger]
                after.damage.contains_key(tile) ==> if meets(canvas, bounds, tile) {
                    after.damage[tile] == if state.damage.contains_key(tile) {
                        state.damage[tile]
                    } else {
                        reach(canvas, bounds, tile)
                    } || after.damage[tile] == if state.damage.contains_key(tile) {
                        state.damage[tile].union(reach(canvas, bounds, tile))
                    } else {
                        reach(canvas, bounds, tile)
                    }
                } else {
                    state.damage.contains_key(tile) && after.damage[tile] == state.damage[tile]
                }
        }),
    decreases n,
{
    let rect = canvas.clipped(bounds);
    if n > 0 {
        lemma_sweep_sound(canvas, state, from, to, bounds, n - 1);
        let before = sweep_work(canvas, state, from, to, rect, n - 1);
        lemma_sweep_keeps(canvas, state, from, to, rect, n - 1);
        lemma_touched(canvas, rect, n - 1);
        let tile = canvas.touched(rect, n - 1);
        let size = canvas.tile_size;
        let column = canvas.first_column(rect) + (n - 1) % canvas.columns(rect);
        let row = canvas.first_row(rect) + (n - 1) / canvas.columns(rect);
        assert(tile.x == column && tile.y == row);
        let x = if rect.min_x <= column * size { column * size } else { rect.min_x };
        let y = if rect.min_y <= row * size { row * size } else { rect.min_y };
        assert(x / size == column) by {
            vstd::arithmetic::div_mod::lemma_fundamental_div_mod_converse(
                x,
                size,
                column,
                x - column * size,
            );
        }
        assert(y / size == row) by {
            vstd::arithmetic::div_mod::lemma_fundamental_div_mod_converse(
                y,
                size,
                row,
                y - row * size,
            );
        }
        assert(holds(bounds, x, y));
        assert(meets(canvas, bounds, tile));
        assert(canvas.local(rect, tile) == reach(canvas, bounds, tile));
        let after = sweep_work(canvas, state, from, to, rect, n);
        assert forall|t: TileCoord| #[trigger] after.damage.contains_key(t) implies if meets(
            canvas,
            bounds,
            t,
        ) {
            after.damage[t] == if state.damage.contains_key(t) {
                state.damage[t]
            } else {
                reach(canvas, bounds, t)
            } || after.damage[t] == if state.damage.contains_key(t) {
                state.damage[t].union(reach(canvas, bounds, t))
            } else {
                reach(canvas, bounds, t)
            }
        } else {
            state.damage.contains_key(t) && after.damage[t] == state.damage[t]
        } by {
            if t != tile {
                assert(before.damage.contains_key(t));
            } else if before.damage.contains_key(t) {
                assert(meets(canvas, bounds, t));
            }
        }
    } else {
        assert forall|tile: TileCoord| #[trigger] state.damage.contains_key(tile) implies true by {}
    }
}

/// One of the bounds meets the tile and reaches as far as `edge` says.
pub open spec fn some_reach(
    canvas: RoundCanvas,
    bounds: Seq<RoundBounds>,
    n: int,
    tile: TileCoord,
    edge: spec_fn(Rect) -> int,
    value: int,
) -> bool {
    exists|k: int|
        0 <= k < n && meets(canvas, #[trigger] bounds[k], tile) && edge(
            reach(canvas, bounds[k], tile),
        ) == value
}

/// Each side of the rectangle is where one of the bounds ends in the tile.
pub open spec fn tight(
    canvas: RoundCanvas,
    bounds: Seq<RoundBounds>,
    n: int,
    tile: TileCoord,
    rect: Rect,
) -> bool {
    &&& some_reach(canvas, bounds, n, tile, |r: Rect| r.min_x, rect.min_x)
    &&& some_reach(canvas, bounds, n, tile, |r: Rect| r.min_y, rect.min_y)
    &&& some_reach(canvas, bounds, n, tile, |r: Rect| r.max_x, rect.max_x)
    &&& some_reach(canvas, bounds, n, tile, |r: Rect| r.max_y, rect.max_y)
}

proof fn lemma_reach_stays(
    canvas: RoundCanvas,
    bounds: Seq<RoundBounds>,
    n: int,
    tile: TileCoord,
    edge: spec_fn(Rect) -> int,
    value: int,
)
    requires
        some_reach(canvas, bounds, n, tile, edge, value),
    ensures
        some_reach(canvas, bounds, n + 1, tile, edge, value),
{
    let k = choose|k: int|
        0 <= k < n && meets(canvas, #[trigger] bounds[k], tile) && edge(
            reach(canvas, bounds[k], tile),
        ) == value;
    assert(meets(canvas, bounds[k], tile));
}

proof fn lemma_path_sound(
    canvas: RoundCanvas,
    sweeps: Seq<(RoundContact, RoundContact)>,
    bounds: Seq<RoundBounds>,
)
    requires
        canvas.tile_size > 0,
        0 < canvas.width <= u32::MAX,
        0 < canvas.height <= u32::MAX,
    ensures
        ({
            let state = path_work(canvas, sweeps, bounds);
            let n = sweeps.len() as int;
            &&& forall|i: int|
                #![trigger state.work[i]]
                0 <= i < state.work.len() ==> exists|k: int|
                    0 <= k < n && meets(canvas, #[trigger] bounds[k], state.work[i].tile)
                        && state.work[i].from == sweeps[k].0 && state.work[i].to == sweeps[k].1
                        && state.work[i].valid_extent == canvas.extent(state.work[i].tile)
            &&& forall|tile: TileCoord| #[trigger]
                state.damage.contains_key(tile) ==> tight(
                    canvas,
                    bounds,
                    n,
                    tile,
                    state.damage[tile],
                )
        }),
    decreases sweeps.len(),
{
    if sweeps.len() > 0 {
        let rest = sweeps.drop_last();
        let last = sweeps.len() - 1;
        lemma_path_sound(canvas, rest, bounds);
        let before = path_work(canvas, rest, bounds);
        let state = path_work(canvas, sweeps, bounds);
        let rect = canvas.clipped(bounds[last]);
        let n = canvas.rows(rect) * canvas.columns(rect);
        let from = sweeps.last().0;
        let to = sweeps.last().1;
        if rect.nonempty() {
            lemma_sweep_keeps(canvas, before, from, to, rect, n);
            lemma_sweep_sound(canvas, before, from, to, bounds[last], n);
        }
        assert forall|i: int|
            #![trigger state.work[i]]
            0 <= i < state.work.len() implies exists|k: int|
            0 <= k < sweeps.len() && meets(canvas, #[trigger] bounds[k], state.work[i].tile)
                && state.work[i].from == sweeps[k].0 && state.work[i].to == sweeps[k].1
                && state.work[i].valid_extent == canvas.extent(state.work[i].tile) by {
            if i < before.work.len() {
                assert(state.work[i] == before.work[i]);
                let k = choose|k: int|
                    0 <= k < rest.len() && meets(
                        canvas,
                        #[trigger] bounds[k],
                        before.work[i].tile,
                    ) && before.work[i].from == rest[k].0 && before.work[i].to == rest[k].1
                        && before.work[i].valid_extent == canvas.extent(before.work[i].tile);
                assert(sweeps[k] == rest[k]);
                assert(meets(canvas, bounds[k], state.work[i].tile));
            } else {
                assert(meets(canvas, bounds[last], state.work[i].tile));
                assert(sweeps[last] == sweeps.last());
            }
        }
        assert forall|tile: TileCoord| #[trigger] state.damage.contains_key(tile) implies tight(
            canvas,
            bounds,
            sweeps.len() as int,
            tile,
            state.damage[tile],
        ) by {
            let mx = |r: Rect| r.min_x;
            let my = |r: Rect| r.min_y;
            let nx = |r: Rect| r.max_x;
            let ny = |r: Rect| r.max_y;
            if before.damage.contains_key(tile) {
                let was = before.damage[tile];
                assert(tight(canvas, bounds, last as int, tile, was));
                lemma_reach_stays(canvas, bounds, last as int, tile, mx, was.min_x);
                lemma_reach_stays(canvas, bounds, last as int, tile, my, was.min_y);
                lemma_reach_stays(canvas, bounds, last as int, tile, nx, was.max_x);
                lemma_reach_stays(canvas, bounds, last as int, tile, ny, was.max_y);
            }
            if meets(canvas, bounds[last], tile) {
                let r = reach(canvas, bounds[last], tile);
                assert(meets(canvas, bounds[last as int], tile));
                assert(some_reach(canvas, bounds, last + 1, tile, mx, r.min_x));
                assert(some_reach(canvas, bounds, last + 1, tile, my, r.min_y));
                assert(some_reach(canvas, bounds, last + 1, tile, nx, r.max_x));
                assert(some_reach(canvas, bounds, last + 1, tile, ny, r.max_y));
            }
        }
    }
}

/// Work that lies on a page stands among the work of that page.
pub(crate) proof fn lemma_work_is_on_its_page<T>(work: Seq<ResidentWork<T>>, i: int) -> (w: int)
    requires
        0 <= i < work.len(),
    ensures
        0 <= w < work_on_page(work, work[i].slot.page).len(),
        work_on_page(work, work[i].slot.page)[w] == work[i],
    decreases work.len(),
{
    let rest = work.drop_last();
    let page = work[i].slot.page;
    if i < rest.len() {
        assert(rest[i] == work[i]);
        lemma_work_is_on_its_page(rest, i)
    } else {
        work_on_page(rest, page).len() as int
    }
}

/// Work of a page was given, and lies on that page.
pub(crate) proof fn lemma_page_work_was_given<T>(
    work: Seq<ResidentWork<T>>,
    page: crate::gpu_atlas::AtlasPageId,
    w: int,
) -> (i: int)
    requires
        0 <= w < work_on_page(work, page).len(),
    ensures
        0 <= i < work.len(),
        work[i] == work_on_page(work, page)[w],
        work[i].slot.page == page,
    decreases work.len(),
{
    if work.len() == 0 {
        0
    } else {
        let rest = work.drop_last();
        if w < work_on_page(rest, page).len() {
            let i = lemma_page_work_was_given(rest, page, w);
            assert(rest[i] == work[i]);
            i
        } else {
            work.len() - 1
        }
    }
}

/// A tile is where the places say.
pub open spec fn placed_at(
    geometry: AtlasGeometry,
    places: Seq<Option<LayerTileKey>>,
    key: LayerTileKey,
    slot: crate::gpu_atlas::AtlasSlot,
) -> bool {
    exists|n: int| 0 <= n < places.len() && #[trigger] places[n] == Some(key) && slot
        == geometry.slot(n)
}

/// An item of work draws from one contact to another on the tile that holds a pixel, at the place of
/// that tile, and its clip holds the pixel's place.
pub open spec fn draws_pixel(
    model: SchedulerModel,
    held: Seq<Option<LayerTileKey>>,
    item: ResidentWork<RoundMaskInstance>,
    from: RoundContact,
    to: RoundContact,
    x: int,
    y: int,
) -> bool {
    let size = model.canvas.tile_size;
    let at_x = item.slot.origin_x + x - item.payload.tile_origin[0];
    let at_y = item.slot.origin_y + y - item.payload.tile_origin[1];
    &&& item.key.layer == model.layer
    &&& item.key.tile.x == x / size
    &&& item.key.tile.y == y / size
    &&& placed_at(model.layout@, held, item.key, item.slot)
    &&& item.payload.from == from
    &&& item.payload.to == to
    &&& item.payload.tile_origin[0] == (x / size) * size
    &&& item.payload.tile_origin[1] == (y / size) * size
    &&& item.payload.clip_min[0] == item.slot.origin_x
    &&& item.payload.clip_min[1] == item.slot.origin_y
    &&& item.payload.clip_min[0] <= at_x < item.payload.clip_max[0]
    &&& item.payload.clip_min[1] <= at_y < item.payload.clip_max[1]
}

proof fn lemma_extent(model: SchedulerModel, tile: TileCoord, slot: crate::gpu_atlas::AtlasSlot, n: int)
    requires
        canvas_fits(model),
        0 <= n < model.layout@.capacity(),
        slot == model.layout@.slot(n),
        tile.x * model.canvas.tile_size < model.canvas.width,
        tile.y * model.canvas.tile_size < model.canvas.height,
    ensures
        ({
            let extent = model.canvas.extent(tile);
            let size = model.canvas.tile_size;
            &&& extent[0] == if size <= model.canvas.width - tile.x * size {
                size
            } else {
                model.canvas.width - tile.x * size
            }
            &&& extent[1] == if size <= model.canvas.height - tile.y * size {
                size
            } else {
                model.canvas.height - tile.y * size
            }
            &&& slot.origin_x + extent[0] <= u32::MAX
            &&& slot.origin_y + extent[1] <= u32::MAX
            &&& 0 <= tile.x * size <= u32::MAX
            &&& 0 <= tile.y * size <= u32::MAX
        }),
{
    let size = model.canvas.tile_size;
    crate::gpu_atlas::lemma_slot_origin(model.layout@, n);
    assert(0 <= tile.x * size) by (nonlinear_arith)
        requires
            tile.x >= 0,
            size >= 0,
    ;
    assert(0 <= tile.y * size) by (nonlinear_arith)
        requires
            tile.y >= 0,
            size >= 0,
    ;
}

/// Every sweep of a path, from its own contact to its own contact, is drawn on every tile of the
/// canvas that holds a pixel of its bounds, at the place of that tile and inside its clip, and the
/// damage of the tile holds the pixel.
pub proof fn law_every_sweep_is_drawn_on_every_tile<
    F: Fn(RoundContact, RoundContact) -> RoundBounds,
>(
    bounds_of: F,
    model: SchedulerModel,
    places: Seq<Option<LayerTileKey>>,
    commands: Seq<RoundPathCommand>,
    batch: RoundMaskBatch,
    after: SchedulerModel,
    held: Seq<Option<LayerTileKey>>,
    c: int,
    from: RoundContact,
    to: RoundContact,
    x: int,
    y: int,
)
    requires
        canvas_fits(model),
        schedule_reported(
            bounds_of,
            model,
            model.layout@,
            places,
            commands,
            Ok(batch),
            after,
            held,
        ),
        held.len() <= model.layout@.capacity(),
        0 <= c < commands.len(),
        draws(commands[c], from, to),
        forall|bounds: RoundBounds|
            call_ensures(bounds_of, (from, to), bounds) ==> #[trigger] holds(bounds, x, y),
        0 <= x < model.canvas.width,
        0 <= y < model.canvas.height,
    ensures
        exists|p: int, w: int|
            {
                &&& 0 <= p < batch@.pages.len()
                &&& 0 <= w < batch@.pages[p].work@.len()
                &&& (#[trigger] batch@.pages[p].work@[w]).slot.page == batch@.pages[p].page
                &&& draws_pixel(model, held, batch@.pages[p].work@[w], from, to, x, y)
            },
        exists|t: int|
            {
                &&& 0 <= t < batch@.touched_tiles.len()
                &&& (#[trigger] batch@.touched_tiles[t]).key.layer == model.layer
                &&& batch@.touched_tiles[t].key.tile.x == x / model.canvas.tile_size
                &&& batch@.touched_tiles[t].key.tile.y == y / model.canvas.tile_size
                &&& batch@.touched_tiles[t].local_damage@.contains(
                    x % model.canvas.tile_size,
                    y % model.canvas.tile_size,
                )
            },
{
    let geometry = model.layout@;
    let canvas = model.canvas;
    let bounds = choose|bounds: Seq<RoundBounds>|
        {
            &&& #[trigger] bounds_answered(bounds_of, sweeps(commands), bounds)
            &&& batch_of(canvas, model.layer, geometry, places, held, commands, bounds, batch@)
        };
    let k = lemma_sweep_listed(commands, c, from, to);
    assert(call_ensures(bounds_of, (from, to), bounds[k]));
    assert(holds(bounds[k], x, y));
    let i = lemma_path_reaches(canvas, sweeps(commands), bounds, k, x, y);
    let state = path_work(canvas, sweeps(commands), bounds);
    let tile = state.work[i].tile;
    let key = LayerTileKey { layer: model.layer, tile };
    lemma_in_tile(canvas, x, y);
    let keys = choose|keys: Seq<LayerTileKey>|
        {
            &&& #[trigger] touched_in_order(model.layer, state.damage, keys)
            &&& allocate_all(geometry, places, keys) == Some((held, batch@.allocations))
            &&& batch@.touched_tiles.len() == keys.len()
            &&& forall|i: int|
                #![trigger batch@.touched_tiles[i]]
                0 <= i < keys.len() ==> batch@.touched_tiles[i].key == keys[i]
                    && batch@.touched_tiles[i].local_damage@ == state.damage[keys[i].tile]
            &&& page_batches(
                placed_work(canvas, geometry, held, model.layer, state.work),
                batch@.pages,
            )
        };
    assert(keys.contains(key));
    let t = choose|t: int| 0 <= t < keys.len() && keys[t] == key;
    assert(batch@.touched_tiles[t].key == keys[t]);
    lemma_allocated(geometry, places, keys);
    assert(slot_of_key(held, keys[t]) is Some);
    let n = slot_of_key(held, key)->0;
    assert(0 <= n < held.len() && held[n] == Some(key));
    let placed = placed_work(canvas, geometry, held, model.layer, state.work);
    let item = placed[i];
    assert(placed_at(geometry, held, item.key, item.slot));
    assert(tile.x * canvas.tile_size <= x);
    assert(tile.y * canvas.tile_size <= y);
    lemma_extent(model, tile, item.slot, n);
    assert(draws_pixel(model, held, item, from, to, x, y));
    let p = choose|p: int|
        0 <= p < batch@.pages.len() && (#[trigger] batch@.pages[p]).page == placed[i].slot.page;
    let w = lemma_work_is_on_its_page(placed, i);
    assert(batch@.pages[p].work@ == work_on_page(placed, batch@.pages[p].page));
    assert(batch@.pages[p].work@[w] == item);
}

/// Nothing else is drawn: each item of work draws what some command draws, on a tile that holds a
/// pixel of its bounds, at the place of that tile.
pub proof fn law_only_sweeps_are_drawn<F: Fn(RoundContact, RoundContact) -> RoundBounds>(
    bounds_of: F,
    model: SchedulerModel,
    places: Seq<Option<LayerTileKey>>,
    commands: Seq<RoundPathCommand>,
    batch: RoundMaskBatch,
    after: SchedulerModel,
    held: Seq<Option<LayerTileKey>>,
    p: int,
    w: int,
)
    requires
        canvas_fits(model),
        schedule_reported(
            bounds_of,
            model,
            model.layout@,
            places,
            commands,
            Ok(batch),
            after,
            held,
        ),
        held.len() <= model.layout@.capacity(),
        0 <= p < batch@.pages.len(),
        0 <= w < batch@.pages[p].work@.len(),
    ensures
        ({
            let item = batch@.pages[p].work@[w];
            let size = model.canvas.tile_size;
            let end_x = (item.key.tile.x + 1) * size;
            let end_y = (item.key.tile.y + 1) * size;
            &&& item.slot.page == batch@.pages[p].page
            &&& item.key.layer == model.layer
            &&& placed_at(model.layout@, held, item.key, item.slot)
            &&& exists|c: int, bounds: RoundBounds|
                {
                    &&& 0 <= c < commands.len()
                    &&& #[trigger] draws(commands[c], item.payload.from, item.payload.to)
                    &&& call_ensures(bounds_of, (item.payload.from, item.payload.to), bounds)
                    &&& #[trigger] meets(model.canvas, bounds, item.key.tile)
                }
            &&& item.payload.tile_origin[0] == item.key.tile.x * size
            &&& item.payload.tile_origin[1] == item.key.tile.y * size
            &&& item.payload.clip_min[0] == item.slot.origin_x
            &&& item.payload.clip_min[1] == item.slot.origin_y
            &&& item.payload.clip_max[0] - item.payload.clip_min[0] == if end_x
                <= model.canvas.width {
                size
            } else {
                model.canvas.width - item.key.tile.x * size
            }
            &&& item.payload.clip_max[1] - item.payload.clip_min[1] == if end_y
                <= model.canvas.height {
                size
            } else {
                model.canvas.height - item.key.tile.y * size
            }
        }),
{
    let geometry = model.layout@;
    let canvas = model.canvas;
    let bounds = choose|bounds: Seq<RoundBounds>|
        {
            &&& #[trigger] bounds_answered(bounds_of, sweeps(commands), bounds)
            &&& batch_of(canvas, model.layer, geometry, places, held, commands, bounds, batch@)
        };
    let state = path_work(canvas, sweeps(commands), bounds);
    let keys = choose|keys: Seq<LayerTileKey>|
        {
            &&& #[trigger] touched_in_order(model.layer, state.damage, keys)
            &&& allocate_all(geometry, places, keys) == Some((held, batch@.allocations))
            &&& batch@.touched_tiles.len() == keys.len()
            &&& forall|i: int|
                #![trigger batch@.touched_tiles[i]]
                0 <= i < keys.len() ==> batch@.touched_tiles[i].key == keys[i]
                    && batch@.touched_tiles[i].local_damage@ == state.damage[keys[i].tile]
            &&& page_batches(
                placed_work(canvas, geometry, held, model.layer, state.work),
                batch@.pages,
            )
        };
    let placed = placed_work(canvas, geometry, held, model.layer, state.work);
    let page = batch@.pages[p];
    assert(page.work@ == work_on_page(placed, page.page));
    let i = lemma_page_work_was_given(placed, page.page, w);
    lemma_path_sound(canvas, sweeps(commands), bounds);
    let tile = state.work[i].tile;
    let k = choose|k: int|
        0 <= k < sweeps(commands).len() && meets(canvas, #[trigger] bounds[k], tile)
            && state.work[i].from == sweeps(commands)[k].0 && state.work[i].to
            == sweeps(commands)[k].1 && state.work[i].valid_extent == canvas.extent(tile);
    assert(call_ensures(bounds_of, (sweeps(commands)[k].0, sweeps(commands)[k].1), bounds[k]));
    let c = lemma_sweep_commanded(commands, k);
    let item = page.work@[w];
    assert(draws(commands[c], item.payload.from, item.payload.to));
    assert(meets(canvas, bounds[k], item.key.tile));
    let (x, y) = choose|x: int, y: int| #[trigger]
        holds(bounds[k], x, y) && 0 <= x < canvas.width && 0 <= y < canvas.height && x
            / canvas.tile_size == tile.x && y / canvas.tile_size == tile.y;
    let at = lemma_path_reaches(canvas, sweeps(commands), bounds, k, x, y);
    lemma_in_tile(canvas, x, y);
    let key = LayerTileKey { layer: model.layer, tile };
    assert(state.damage.contains_key(tile));
    assert(keys.contains(key));
    let t = choose|t: int| 0 <= t < keys.len() && keys[t] == key;
    lemma_allocated(geometry, places, keys);
    assert(slot_of_key(held, keys[t]) is Some);
    let n = slot_of_key(held, key)->0;
    assert(0 <= n < held.len() && held[n] == Some(key));
    assert(placed_at(geometry, held, item.key, item.slot));
    assert(tile.x * canvas.tile_size <= x);
    assert(tile.y * canvas.tile_size <= y);
    lemma_extent(model, tile, item.slot, n);
    assert((tile.x + 1) * canvas.tile_size == tile.x * canvas.tile_size + canvas.tile_size)
        by (nonlinear_arith);
    assert((tile.y + 1) * canvas.tile_size == tile.y * canvas.tile_size + canvas.tile_size)
        by (nonlinear_arith);
}

/// The damage of a tile reaches as far as the bounds of the sweeps on it reach, and no further: each
/// of its sides is where the bounds of some sweep end in the tile.
pub proof fn law_damage_ends_where_sweeps_end<F: Fn(RoundContact, RoundContact) -> RoundBounds>(
    bounds_of: F,
    model: SchedulerModel,
    places: Seq<Option<LayerTileKey>>,
    commands: Seq<RoundPathCommand>,
    batch: RoundMaskBatch,
    after: SchedulerModel,
    held: Seq<Option<LayerTileKey>>,
    t: int,
)
    requires
        canvas_fits(model),
        schedule_reported(
            bounds_of,
            model,
            model.layout@,
            places,
            commands,
            Ok(batch),
            after,
            held,
        ),
        0 <= t < batch@.touched_tiles.len(),
    ensures
        batch@.touched_tiles[t].key.layer == model.layer,
        exists|bounds: Seq<RoundBounds>|
            {
                &&& forall|k: int|
                    #![trigger bounds[k]]
                    0 <= k < bounds.len() ==> exists|c: int, from: RoundContact, to: RoundContact|
                        0 <= c < commands.len() && #[trigger] draws(commands[c], from, to)
                            && call_ensures(bounds_of, (from, to), bounds[k])
                &&& #[trigger] tight(
                    model.canvas,
                    bounds,
                    bounds.len() as int,
                    batch@.touched_tiles[t].key.tile,
                    batch@.touched_tiles[t].local_damage@,
                )
            },
        batch@.commands == commands.len() as u32,
{
    let geometry = model.layout@;
    let canvas = model.canvas;
    let bounds = choose|bounds: Seq<RoundBounds>|
        {
            &&& #[trigger] bounds_answered(bounds_of, sweeps(commands), bounds)
            &&& batch_of(canvas, model.layer, geometry, places, held, commands, bounds, batch@)
        };
    let state = path_work(canvas, sweeps(commands), bounds);
    let keys = choose|keys: Seq<LayerTileKey>|
        {
            &&& #[trigger] touched_in_order(model.layer, state.damage, keys)
            &&& allocate_all(geometry, places, keys) == Some((held, batch@.allocations))
            &&& batch@.touched_tiles.len() == keys.len()
            &&& forall|i: int|
                #![trigger batch@.touched_tiles[i]]
                0 <= i < keys.len() ==> batch@.touched_tiles[i].key == keys[i]
                    && batch@.touched_tiles[i].local_damage@ == state.damage[keys[i].tile]
            &&& page_batches(
                placed_work(canvas, geometry, held, model.layer, state.work),
                batch@.pages,
            )
        };
    lemma_path_sound(canvas, sweeps(commands), bounds);
    assert(batch@.touched_tiles[t].key == keys[t]);
    assert(state.damage.contains_key(keys[t].tile));
    assert forall|k: int|
        #![trigger bounds[k]]
        0 <= k < bounds.len() implies exists|c: int, from: RoundContact, to: RoundContact|
        0 <= c < commands.len() && #[trigger] draws(commands[c], from, to) && call_ensures(
            bounds_of,
            (from, to),
            bounds[k],
        ) by {
        let c = lemma_sweep_commanded(commands, k);
        assert(draws(commands[c], sweeps(commands)[k].0, sweeps(commands)[k].1));
    }
    assert(tight(
        canvas,
        bounds,
        bounds.len() as int,
        keys[t].tile,
        batch@.touched_tiles[t].local_damage@,
    ));
}

} // verus!
