//! Cutting round strokes into work for the tiles that they touch.

use crate::document::LayerId;
use crate::gpu_atlas::{
    allocate_all, batch_by_page, lemma_allocated, lemma_allocation_keys, page_batches, slot_of_key,
    AtlasAllocation, AtlasError, AtlasGeometry, AtlasLayout, AtlasPageBatch, AtlasSlot,
    LayerTileKey, ResidentWork, SparseAtlasPlanner,
};
use crate::ordering::{lemma_sorted, lemma_sorted_contains, sort, stable_sorted, Ranked};
use crate::pixel_grid::{lemma_grid_index, lemma_grid_position, minimum};
use crate::raster::{damage_add, Damage, Rect, RectU32, TileCoord};
use crate::stroke::{follow_path, path_run, RoundContact, RoundPathCommand, StrokeError};
use vstd::prelude::*;

verus! {

#[derive(Clone, Copy, Debug, PartialEq, Eq)]
pub enum RoundMaskError {
    EmptyCanvas,
    LayoutMismatch { expected: AtlasLayout, actual: AtlasLayout },
    Stroke(StrokeError),
    Atlas(AtlasError),
}

impl From<StrokeError> for RoundMaskError {
    fn from(error: StrokeError) -> (converted: Self) {
        RoundMaskError::Stroke(error)
    }
}

impl vstd::std_specs::convert::FromSpecImpl<StrokeError> for RoundMaskError {
    open spec fn obeys_from_spec() -> bool {
        true
    }

    open spec fn from_spec(error: StrokeError) -> Self {
        RoundMaskError::Stroke(error)
    }
}

impl From<AtlasError> for RoundMaskError {
    fn from(error: AtlasError) -> (converted: Self) {
        RoundMaskError::Atlas(error)
    }
}

impl vstd::std_specs::convert::FromSpecImpl<AtlasError> for RoundMaskError {
    open spec fn obeys_from_spec() -> bool {
        true
    }

    open spec fn from_spec(error: AtlasError) -> Self {
        RoundMaskError::Atlas(error)
    }
}

/// One round sweep, to be drawn at one place of the atlas. The sweep is given on the
/// canvas. Moving it by the place's origin less the tile's origin brings it there.
#[derive(Clone, Copy, Debug, PartialEq, Eq)]
pub struct RoundMaskInstance {
    pub from: RoundContact,
    pub to: RoundContact,
    pub tile_origin: [u32; 2],
    pub clip_min: [u32; 2],
    pub clip_max: [u32; 2],
}

/// The part of a tile that a stroke may have changed.
#[derive(Clone, Copy, Debug, PartialEq, Eq, Structural)]
pub struct RoundMaskTileDamage {
    pub key: LayerTileKey,
    pub local_damage: RectU32,
}

/// The pixels around a sweep: the minimum is inside, the maximum is not.
#[derive(Clone, Copy, Debug, PartialEq, Eq, Structural)]
pub struct RoundBounds {
    pub min_x: u32,
    pub min_y: u32,
    pub max_x: u32,
    pub max_y: u32,
}

/// A sweep that has to be drawn on a tile.
#[derive(Clone, Copy, Debug, PartialEq, Eq)]
pub struct RoundWork {
    pub tile: TileCoord,
    pub from: RoundContact,
    pub to: RoundContact,
    pub valid_extent: [u32; 2],
}

/// The canvas that is cut into tiles.
pub struct RoundCanvas {
    pub width: int,
    pub height: int,
    pub tile_size: int,
}

impl RoundCanvas {
    /// The canvas part of a rectangle.
    pub open spec fn clipped(self, bounds: RoundBounds) -> Rect {
        Rect {
            min_x: minimum(bounds.min_x as int, self.width),
            min_y: minimum(bounds.min_y as int, self.height),
            max_x: minimum(bounds.max_x as int, self.width),
            max_y: minimum(bounds.max_y as int, self.height),
        }
    }

    pub open spec fn first_column(self, rect: Rect) -> int {
        rect.min_x / self.tile_size
    }

    pub open spec fn first_row(self, rect: Rect) -> int {
        rect.min_y / self.tile_size
    }

    /// How many tiles a rectangle touches along a row.
    pub open spec fn columns(self, rect: Rect) -> int {
        (rect.max_x - 1) / self.tile_size - rect.min_x / self.tile_size + 1
    }

    pub open spec fn rows(self, rect: Rect) -> int {
        (rect.max_y - 1) / self.tile_size - rect.min_y / self.tile_size + 1
    }

    /// The `n`th tile that a rectangle touches, row by row.
    pub open spec fn touched(self, rect: Rect, n: int) -> TileCoord {
        TileCoord {
            x: (self.first_column(rect) + n % self.columns(rect)) as u32,
            y: (self.first_row(rect) + n / self.columns(rect)) as u32,
        }
    }

    /// How far the canvas reaches into a tile.
    pub open spec fn extent(self, tile: TileCoord) -> [u32; 2] {
        [
            minimum(self.tile_size, self.width - tile.x * self.tile_size) as u32,
            minimum(self.tile_size, self.height - tile.y * self.tile_size) as u32,
        ]
    }

    /// The part of a rectangle that lies in a tile, as the tile counts.
    pub open spec fn local(self, rect: Rect, tile: TileCoord) -> Rect {
        let x = tile.x * self.tile_size;
        let y = tile.y * self.tile_size;
        Rect {
            min_x: if rect.min_x > x { rect.min_x - x } else { 0 },
            min_y: if rect.min_y > y { rect.min_y - y } else { 0 },
            max_x: minimum(rect.max_x - x, self.extent(tile)[0] as int),
            max_y: minimum(rect.max_y - y, self.extent(tile)[1] as int),
        }
    }
}

pub struct RoundWorkState {
    pub work: Seq<RoundWork>,
    pub damage: Map<TileCoord, Rect>,
}

pub open spec fn work_state(
    work: Seq<RoundWork>,
    damage: Map<TileCoord, Rect>,
) -> RoundWorkState {
    RoundWorkState { work, damage }
}

/// The work after the first `n` tiles of one sweep.
pub open spec fn sweep_work(
    canvas: RoundCanvas,
    state: RoundWorkState,
    from: RoundContact,
    to: RoundContact,
    rect: Rect,
    n: int,
) -> RoundWorkState
    decreases n,
{
    if n <= 0 {
        state
    } else {
        let before = sweep_work(canvas, state, from, to, rect, n - 1);
        let tile = canvas.touched(rect, n - 1);
        RoundWorkState {
            work: before.work.push(
                RoundWork { tile, from, to, valid_extent: canvas.extent(tile) },
            ),
            damage: damage_add(before.damage, tile, canvas.local(rect, tile)),
        }
    }
}

/// The work after one more sweep. One that misses the canvas adds nothing.
pub open spec fn with_sweep(
    canvas: RoundCanvas,
    state: RoundWorkState,
    from: RoundContact,
    to: RoundContact,
    bounds: RoundBounds,
) -> RoundWorkState {
    let rect = canvas.clipped(bounds);
    if rect.nonempty() {
        sweep_work(canvas, state, from, to, rect, canvas.rows(rect) * canvas.columns(rect))
    } else {
        state
    }
}

/// The sweeps of a path: a dot where it begins, then from contact to contact.
pub open spec fn sweeps(commands: Seq<RoundPathCommand>) -> Seq<(RoundContact, RoundContact)>
    decreases commands.len(),
{
    if commands.len() == 0 {
        Seq::empty()
    } else {
        let earlier = sweeps(commands.drop_last());
        match commands.last() {
            RoundPathCommand::Begin(contact) => earlier.push((contact, contact)),
            RoundPathCommand::Sweep { from, to } => earlier.push((from, to)),
            RoundPathCommand::End { .. } => earlier,
        }
    }
}

/// The work of all sweeps. The `k`th bounds belong to the `k`th sweep.
pub open spec fn path_work(
    canvas: RoundCanvas,
    sweeps: Seq<(RoundContact, RoundContact)>,
    bounds: Seq<RoundBounds>,
) -> RoundWorkState
    decreases sweeps.len(),
{
    if sweeps.len() == 0 {
        RoundWorkState { work: Seq::empty(), damage: Map::empty() }
    } else {
        with_sweep(
            canvas,
            path_work(canvas, sweeps.drop_last(), bounds),
            sweeps.last().0,
            sweeps.last().1,
            bounds[sweeps.len() - 1],
        )
    }
}

/// Every damaged tile once, row by row.
pub open spec fn touched_in_order(
    layer: LayerId,
    damage: Map<TileCoord, Rect>,
    keys: Seq<LayerTileKey>,
) -> bool {
    &&& forall|i: int|
        #![trigger keys[i]]
        0 <= i < keys.len() ==> keys[i].layer == layer && damage.contains_key(keys[i].tile)
    &&& forall|i: int, j: int|
        #![trigger keys[i], keys[j]]
        0 <= i < j < keys.len() ==> keys[i].tile.le(keys[j].tile) && keys[i].tile != keys[j].tile
    &&& forall|tile: TileCoord| #[trigger]
        damage.contains_key(tile) ==> keys.contains(LayerTileKey { layer, tile })
}

/// A sweep as it is drawn at the place of its tile.
pub open spec fn instance_at(canvas: RoundCanvas, work: RoundWork, slot: AtlasSlot) -> RoundMaskInstance {
    RoundMaskInstance {
        from: work.from,
        to: work.to,
        tile_origin: [
            (work.tile.x * canvas.tile_size) as u32,
            (work.tile.y * canvas.tile_size) as u32,
        ],
        clip_min: [slot.origin_x, slot.origin_y],
        clip_max: [
            (slot.origin_x + work.valid_extent[0]) as u32,
            (slot.origin_y + work.valid_extent[1]) as u32,
        ],
    }
}

/// The work with the places of its tiles.
pub open spec fn placed_work(
    canvas: RoundCanvas,
    geometry: AtlasGeometry,
    places: Seq<Option<LayerTileKey>>,
    layer: LayerId,
    work: Seq<RoundWork>,
) -> Seq<ResidentWork<RoundMaskInstance>> {
    Seq::new(
        work.len(),
        |i: int|
            {
                let key = LayerTileKey { layer, tile: work[i].tile };
                let slot = geometry.slot(slot_of_key(places, key)->0);
                ResidentWork { key, slot, payload: instance_at(canvas, work[i], slot) }
            },
    )
}

/// What a scheduler made of one run of commands.
#[derive(Clone, Debug, PartialEq)]
pub struct RoundMaskBatch {
    pub(crate) layout: AtlasLayout,
    pub(crate) pages: Vec<AtlasPageBatch<RoundMaskInstance>>,
    pub(crate) touched_tiles: Vec<RoundMaskTileDamage>,
    pub(crate) allocations: Vec<AtlasAllocation>,
    pub(crate) commands: u32,
    pub(crate) primitives: u32,
}

pub struct RoundBatchModel {
    pub layout: AtlasLayout,
    pub pages: Seq<AtlasPageBatch<RoundMaskInstance>>,
    pub touched_tiles: Seq<RoundMaskTileDamage>,
    pub allocations: Seq<AtlasAllocation>,
    pub commands: u32,
    pub primitives: u32,
}

impl View for RoundMaskBatch {
    type V = RoundBatchModel;

    open(crate) spec fn view(&self) -> RoundBatchModel {
        RoundBatchModel {
            layout: self.layout,
            pages: self.pages@,
            touched_tiles: self.touched_tiles@,
            allocations: self.allocations@,
            commands: self.commands,
            primitives: self.primitives,
        }
    }
}

impl RoundMaskBatch {
    /// Every touched tile was given a place.
    pub open(crate) spec fn wf(self) -> bool {
        &&& self.touched_tiles@.len() == self.allocations@.len()
        &&& forall|i: int|
            #![trigger self.touched_tiles@[i]]
            0 <= i < self.touched_tiles@.len() ==> self.touched_tiles@[i].key
                == self.allocations@[i].key
    }

    pub fn layout(&self) -> (layout: AtlasLayout)
        ensures
            layout == self@.layout,
    {
        self.layout
    }

    pub fn pages(&self) -> (pages: &Vec<AtlasPageBatch<RoundMaskInstance>>)
        ensures
            pages@ == self@.pages,
    {
        &self.pages
    }

    pub fn touched_tiles(&self) -> (tiles: &Vec<RoundMaskTileDamage>)
        ensures
            tiles@ == self@.touched_tiles,
    {
        &self.touched_tiles
    }

    pub fn allocations(&self) -> (allocations: &Vec<AtlasAllocation>)
        ensures
            allocations@ == self@.allocations,
    {
        &self.allocations
    }

    pub fn commands(&self) -> (commands: u32)
        ensures
            commands == self@.commands,
    {
        self.commands
    }

    pub fn primitives(&self) -> (primitives: u32)
        ensures
            primitives == self@.primitives,
    {
        self.primitives
    }

    pub fn is_empty(&self) -> (empty: bool)
        ensures
            empty == (self@.pages.len() == 0),
    {
        self.pages.len() == 0
    }
}

/// Whether a batch is what the sweeps of a path come to, given the pixels around
/// each of them.
pub open spec fn batch_of(
    canvas: RoundCanvas,
    layer: LayerId,
    geometry: AtlasGeometry,
    before: Seq<Option<LayerTileKey>>,
    after: Seq<Option<LayerTileKey>>,
    commands: Seq<RoundPathCommand>,
    bounds: Seq<RoundBounds>,
    batch: RoundBatchModel,
) -> bool {
    let state = path_work(canvas, sweeps(commands), bounds);
    exists|keys: Seq<LayerTileKey>|
        {
            &&& #[trigger] touched_in_order(layer, state.damage, keys)
            &&& allocate_all(geometry, before, keys) == Some((after, batch.allocations))
            &&& batch.touched_tiles.len() == keys.len()
            &&& forall|i: int|
                #![trigger batch.touched_tiles[i]]
                0 <= i < keys.len() ==> batch.touched_tiles[i].key == keys[i]
                    && batch.touched_tiles[i].local_damage@ == state.damage[keys[i].tile]
            &&& page_batches(placed_work(canvas, geometry, after, layer, state.work), batch.pages)
            &&& batch.commands == commands.len() as u32
            &&& batch.primitives == sweeps(commands).len() as u32
        }
}

/// Whether the tiles that a path touches do not all find a place.
pub open spec fn batch_overflows(
    canvas: RoundCanvas,
    layer: LayerId,
    geometry: AtlasGeometry,
    places: Seq<Option<LayerTileKey>>,
    commands: Seq<RoundPathCommand>,
    bounds: Seq<RoundBounds>,
) -> bool {
    exists|keys: Seq<LayerTileKey>|
        {
            &&& #[trigger] touched_in_order(
                layer,
                path_work(canvas, sweeps(commands), bounds).damage,
                keys,
            )
            &&& allocate_all(geometry, places, keys) is None
        }
}

/// Whether each of the bounds answers which pixels a sweep may touch.
pub open spec fn bounds_answered<F: Fn(RoundContact, RoundContact) -> RoundBounds>(
    bounds_of: F,
    sweeps: Seq<(RoundContact, RoundContact)>,
    bounds: Seq<RoundBounds>,
) -> bool {
    &&& bounds.len() == sweeps.len()
    &&& forall|k: int|
        0 <= k < sweeps.len() ==> call_ensures(
            bounds_of,
            (sweeps[k].0, sweeps[k].1),
            #[trigger] bounds[k],
        )
}

/// Follows a stroke on one layer and cuts it into work for the tiles.
#[derive(Debug)]
pub struct RoundMaskScheduler {
    pub(crate) canvas: [u32; 2],
    pub(crate) layer: LayerId,
    pub(crate) layout: AtlasLayout,
    pub(crate) active_contact: Option<RoundContact>,
}

pub struct SchedulerModel {
    pub canvas: RoundCanvas,
    pub layer: LayerId,
    pub layout: AtlasLayout,
    pub active: Option<RoundContact>,
}

impl View for RoundMaskScheduler {
    type V = SchedulerModel;

    open(crate) spec fn view(&self) -> SchedulerModel {
        SchedulerModel {
            canvas: RoundCanvas {
                width: self.canvas[0] as int,
                height: self.canvas[1] as int,
                tile_size: self.layout@.tile_size,
            },
            layer: self.layer,
            layout: self.layout,
            active: self.active_contact,
        }
    }
}

/// The sweeps of a path.
fn collect_sweeps(commands: &Vec<RoundPathCommand>) -> (found: Vec<(RoundContact, RoundContact)>)
    ensures
        found@ == sweeps(commands@),
        found@.len() <= commands@.len(),
{
    let mut found: Vec<(RoundContact, RoundContact)> = Vec::new();
    let mut i: usize = 0;
    assert(commands@.subrange(0, 0) =~= Seq::<RoundPathCommand>::empty());
    while i < commands.len()
        invariant
            i <= commands@.len(),
            found@.len() <= i,
            found@ == sweeps(commands@.subrange(0, i as int)),
        decreases commands@.len() - i,
    {
        proof {
            let prefix = commands@.subrange(0, i as int + 1);
            assert(prefix.drop_last() =~= commands@.subrange(0, i as int));
            assert(prefix.last() == commands@[i as int]);
        }
        match commands[i] {
            RoundPathCommand::Begin(contact) => {
                found.push((contact, contact));
            },
            RoundPathCommand::Sweep { from, to } => {
                found.push((from, to));
            },
            RoundPathCommand::End { at: _, elapsed_micros: _ } => {},
        }
        i += 1;
    }
    assert(commands@.subrange(0, i as int) =~= commands@);
    found
}

/// The damaged tiles of a layer, row by row.
fn damaged_keys(layer: LayerId, damage: &Damage) -> (keys: Vec<LayerTileKey>)
    requires
        damage.wf(),
    ensures
        touched_in_order(layer, damage@, keys@),
{
    let regions = damage.tile_regions();
    let ghost all = regions@;
    let mut tiles: Vec<TileCoord> = Vec::new();
    let mut i: usize = 0;
    while i < regions.len()
        invariant
            all == regions@,
            i <= all.len(),
            tiles@.len() == i,
            forall|k: int| 0 <= k < i ==> #[trigger] tiles@[k] == all[k].0,
        decreases all.len() - i,
    {
        tiles.push(regions[i].0);
        i += 1;
    }
    let ghost found = tiles@;
    proof {
        assert(found.no_duplicates()) by {
            assert forall|a: int, b: int|
                0 <= a < found.len() && 0 <= b < found.len() && a != b implies found[a]
                != found[b] by {
                if a < b {
                    assert(all[a].0 != all[b].0);
                } else {
                    assert(all[b].0 != all[a].0);
                }
            }
        }
        found.lemma_multiset_has_no_duplicates();
        lemma_sorted(found);
        stable_sorted(found).lemma_multiset_has_no_duplicates_conv();
    }
    let ordered = sort(tiles);
    let mut keys: Vec<LayerTileKey> = Vec::new();
    let mut k: usize = 0;
    while k < ordered.len()
        invariant
            k <= ordered@.len(),
            keys@.len() == k,
            forall|m: int|
                0 <= m < k ==> #[trigger] keys@[m] == (LayerTileKey { layer, tile: ordered@[m] }),
        decreases ordered@.len() - k,
    {
        keys.push(LayerTileKey::new(layer, ordered[k]));
        k += 1;
    }
    proof {
        assert forall|m: int|
            #![trigger keys@[m]]
            0 <= m < keys@.len() implies keys@[m].layer == layer && damage@.contains_key(
            keys@[m].tile,
        ) by {
            lemma_sorted_contains(found, ordered@[m]);
            assert(ordered@.contains(ordered@[m]));
            let a = choose|a: int| 0 <= a < found.len() && found[a] == ordered@[m];
            assert(damage@.contains_key(all[a].0));
        }
        assert forall|a: int, b: int|
            #![trigger keys@[a], keys@[b]]
            0 <= a < b < keys@.len() implies keys@[a].tile.le(keys@[b].tile) && keys@[a].tile
            != keys@[b].tile by {
            assert(ordered@[a].le(ordered@[b]));
        }
        assert forall|tile: TileCoord| #[trigger] damage@.contains_key(tile) implies keys@.contains(
            LayerTileKey { layer, tile },
        ) by {
            let a = choose|a: int| 0 <= a < all.len() && (#[trigger] all[a]).0 == tile;
            assert(found[a] == tile);
            lemma_sorted_contains(found, tile);
            assert(found.contains(tile));
            let m = choose|m: int| 0 <= m < ordered@.len() && ordered@[m] == tile;
            assert(keys@[m] == (LayerTileKey { layer, tile }));
        }
    }
    keys
}

/// A tile of a rectangle meets it.
pub(crate) proof fn lemma_touched(canvas: RoundCanvas, rect: Rect, n: int)
    requires
        canvas.tile_size > 0,
        rect.nonempty(),
        0 <= rect.min_x,
        0 <= rect.min_y,
        rect.max_x <= canvas.width <= u32::MAX,
        rect.max_y <= canvas.height <= u32::MAX,
        0 <= n < canvas.rows(rect) * canvas.columns(rect),
    ensures
        canvas.columns(rect) > 0,
        canvas.rows(rect) > 0,
        ({
            let x = canvas.first_column(rect) + n % canvas.columns(rect);
            let y = canvas.first_row(rect) + n / canvas.columns(rect);
            &&& 0 <= x
            &&& 0 <= y
            &&& x * canvas.tile_size < rect.max_x
            &&& y * canvas.tile_size < rect.max_y
            &&& rect.min_x < x * canvas.tile_size + canvas.tile_size
            &&& rect.min_y < y * canvas.tile_size + canvas.tile_size
            &&& x <= x * canvas.tile_size
            &&& y <= y * canvas.tile_size
            &&& 0 <= n / canvas.columns(rect) < canvas.rows(rect)
        }),
{
    let size = canvas.tile_size;
    lemma_tile_span(size, rect.min_x, rect.max_x);
    lemma_tile_span(size, rect.min_y, rect.max_y);
    let columns = canvas.columns(rect);
    let rows = canvas.rows(rect);
    lemma_grid_position(columns, n);
    crate::pixel_grid::lemma_grid_row(columns, rows, n);
    lemma_tile_between(size, rect.min_x, rect.max_x, canvas.first_column(rect) + n % columns);
    lemma_tile_between(size, rect.min_y, rect.max_y, canvas.first_row(rect) + n / columns);
}

pub(crate) proof fn lemma_tile_span(size: int, low: int, high: int)
    requires
        size > 0,
        0 <= low < high,
    ensures
        0 <= low / size <= (high - 1) / size,
{
    lemma_grid_position(size, low);
    lemma_grid_position(size, high - 1);
    let a = low / size;
    let b = (high - 1) / size;
    assert(a <= b) by (nonlinear_arith)
        requires
            a * size + low % size == low,
            b * size + (high - 1) % size == high - 1,
            0 <= low % size < size,
            0 <= (high - 1) % size < size,
            low <= high - 1,
            size > 0,
    ;
}

proof fn lemma_tile_between(size: int, low: int, high: int, tile: int)
    requires
        size > 0,
        0 <= low < high,
        low / size <= tile <= (high - 1) / size,
    ensures
        0 <= tile <= tile * size < high,
        low < tile * size + size,
{
    lemma_grid_position(size, low);
    lemma_grid_position(size, high - 1);
    let a = low / size;
    let b = (high - 1) / size;
    assert(tile * size <= b * size) by (nonlinear_arith)
        requires
            tile <= b,
            size > 0,
    ;
    assert(a * size <= tile * size) by (nonlinear_arith)
        requires
            a <= tile,
            size > 0,
    ;
    assert(tile <= tile * size) by (nonlinear_arith)
        requires
            0 <= tile,
            size >= 1,
    ;
}

/// Every tile with work is damaged, and the canvas reaches into it.
pub open spec fn work_sound(canvas: RoundCanvas, state: RoundWorkState) -> bool {
    forall|i: int|
        #![trigger state.work[i]]
        0 <= i < state.work.len() ==> state.damage.contains_key(state.work[i].tile)
            && state.work[i].valid_extent == canvas.extent(state.work[i].tile)
            && state.work[i].tile.x * canvas.tile_size < canvas.width
            && state.work[i].tile.y * canvas.tile_size < canvas.height
}

/// What comes of scheduling a run of commands.
pub open(crate) spec fn schedule_reported<F: Fn(RoundContact, RoundContact) -> RoundBounds>(
    bounds_of: F,
    model: SchedulerModel,
    geometry: AtlasGeometry,
    places: Seq<Option<LayerTileKey>>,
    commands: Seq<RoundPathCommand>,
    batch: Result<RoundMaskBatch, RoundMaskError>,
    after: SchedulerModel,
    held: Seq<Option<LayerTileKey>>,
) -> bool {
    match batch {
        Ok(batch) => {
            &&& geometry == model.layout@
            &&& path_run(model.active, commands) matches Ok(active)
            &&& after == (SchedulerModel { active, ..model })
            &&& batch.wf()
            &&& batch@.layout == model.layout
            &&& exists|bounds: Seq<RoundBounds>|
                {
                    &&& #[trigger] bounds_answered(
                        bounds_of,
                        sweeps(commands),
                        bounds,
                    )
                    &&& batch_of(
                        model.canvas,
                        model.layer,
                        geometry,
                        places,
                        held,
                        commands,
                        bounds,
                        batch@,
                    )
                }
        },
        Err(error) => {
            &&& after == model
            &&& held == places
            &&& match error {
                RoundMaskError::LayoutMismatch { expected, actual } => {
                    &&& geometry != model.layout@
                    &&& expected == model.layout
                    &&& actual@ == geometry
                },
                RoundMaskError::Stroke(error) => {
                    &&& geometry == model.layout@
                    &&& path_run(model.active, commands) == Err::<
                        Option<RoundContact>,
                        StrokeError,
                    >(error)
                },
                RoundMaskError::Atlas(error) => {
                    &&& geometry == model.layout@
                    &&& path_run(model.active, commands) is Ok
                    &&& error == (AtlasError::CapacityExhausted {
                        capacity: geometry.capacity() as u32,
                    })
                    &&& exists|bounds: Seq<RoundBounds>|
                        {
                            &&& #[trigger] bounds_answered(
                                bounds_of,
                                sweeps(commands),
                                bounds,
                            )
                            &&& batch_overflows(
                                model.canvas,
                                model.layer,
                                geometry,
                                places,
                                commands,
                                bounds,
                            )
                        }
                },
                RoundMaskError::EmptyCanvas => false,
            }
        },
    }
}

impl RoundMaskScheduler {
    pub open(crate) spec fn wf(self) -> bool {
        &&& self.canvas[0] > 0
        &&& self.canvas[1] > 0
    }

    pub fn new(canvas: [u32; 2], layer: LayerId, layout: AtlasLayout) -> (scheduler: Result<
        RoundMaskScheduler,
        RoundMaskError,
    >)
        ensures
            match scheduler {
                Ok(scheduler) => {
                    &&& canvas[0] > 0 && canvas[1] > 0
                    &&& scheduler.wf()
                    &&& scheduler@ == (SchedulerModel {
                        canvas: RoundCanvas {
                            width: canvas[0] as int,
                            height: canvas[1] as int,
                            tile_size: layout@.tile_size,
                        },
                        layer,
                        layout,
                        active: None,
                    })
                },
                Err(error) => error == RoundMaskError::EmptyCanvas && (canvas[0] == 0 || canvas[1]
                    == 0),
            },
    {
        if canvas[0] == 0 || canvas[1] == 0 {
            return Err(RoundMaskError::EmptyCanvas);
        }
        Ok(RoundMaskScheduler { canvas, layer, layout, active_contact: None })
    }

    pub fn layer(&self) -> (layer: LayerId)
        ensures
            layer == self@.layer,
    {
        self.layer
    }

    pub fn is_active(&self) -> (active: bool)
        ensures
            active == (self@.active is Some),
    {
        self.active_contact.is_some()
    }

    /// Adds the work of one sweep.
    fn append_primitive_work(
        &self,
        from: RoundContact,
        to: RoundContact,
        bounds: RoundBounds,
        damage: &mut Damage,
        work: &mut Vec<RoundWork>,
    )
        requires
            self.wf(),
            old(damage).wf(),
            work_sound(
                self@.canvas,
                work_state(old(work)@, old(damage)@),
            ),
        ensures
            final(damage).wf(),
            work_state(final(work)@, final(damage)@) == with_sweep(
                self@.canvas,
                work_state(old(work)@, old(damage)@),
                from,
                to,
                bounds,
            ),
            work_sound(
                self@.canvas,
                work_state(final(work)@, final(damage)@),
            ),
    {
        let ghost canvas = self@.canvas;
        let ghost start = work_state(work@, damage@);
        let ghost rect = canvas.clipped(bounds);
        let width: u32 = self.canvas[0];
        let height: u32 = self.canvas[1];
        let tile_size: u32 = self.layout.tile_size();
        let min_x: u32 = if bounds.min_x <= width { bounds.min_x } else { width };
        let min_y: u32 = if bounds.min_y <= height { bounds.min_y } else { height };
        let max_x: u32 = if bounds.max_x <= width { bounds.max_x } else { width };
        let max_y: u32 = if bounds.max_y <= height { bounds.max_y } else { height };
        if min_x >= max_x || min_y >= max_y {
            return;
        }
        proof {
            lemma_tile_span(tile_size as int, min_x as int, max_x as int);
            lemma_tile_span(tile_size as int, min_y as int, max_y as int);
        }
        let first_column: u32 = min_x / tile_size;
        let last_column: u32 = (max_x - 1) / tile_size;
        let first_row: u32 = min_y / tile_size;
        let last_row: u32 = (max_y - 1) / tile_size;
        let ghost columns = canvas.columns(rect);
        let ghost rows = canvas.rows(rect);
        proof {
            lemma_tile_between(tile_size as int, min_x as int, max_x as int, last_column as int);
            lemma_tile_between(tile_size as int, min_y as int, max_y as int, last_row as int);
        }
        let mut row: u32 = first_row;
        let mut column: u32 = first_column;
        let ghost mut n: int = 0;
        proof {
            assert(rows * columns > 0) by (nonlinear_arith)
                requires
                    rows > 0,
                    columns > 0,
            ;
        }
        while row <= last_row
            invariant
                canvas == self@.canvas,
                self.wf(),
                tile_size > 0,
                tile_size == canvas.tile_size,
                width == canvas.width,
                height == canvas.height,
                rect == canvas.clipped(bounds),
                rect.nonempty(),
                min_x == rect.min_x,
                min_y == rect.min_y,
                max_x == rect.max_x,
                max_y == rect.max_y,
                max_x <= width,
                max_y <= height,
                first_column == canvas.first_column(rect),
                first_row == canvas.first_row(rect),
                last_column == first_column + columns - 1,
                last_row == first_row + rows - 1,
                columns == canvas.columns(rect),
                rows == canvas.rows(rect),
                columns > 0,
                rows > 0,
                first_column <= column <= last_column,
                first_row <= row,
                row <= last_row ==> n == (row - first_row) * columns + (column - first_column),
                row > last_row ==> n == rows * columns,
                row <= last_row + 1,
                0 <= n <= rows * columns,
                last_row <= last_row * tile_size < max_y,
                last_column <= last_column * tile_size < max_x,
                damage.wf(),
                work_state(work@, damage@) == sweep_work(
                    canvas,
                    start,
                    from,
                    to,
                    rect,
                    n,
                ),
                work_sound(canvas, work_state(work@, damage@)),
            decreases rows * columns - n,
        {
            proof {
                lemma_grid_index(columns, column - first_column, row - first_row);
                assert(n < rows * columns) by (nonlinear_arith)
                    requires
                        n == (row - first_row) * columns + (column - first_column),
                        column - first_column < columns,
                        row - first_row < rows,
                        columns > 0,
                ;
                lemma_touched(canvas, rect, n);
                assert(column * tile_size < max_x);
                assert(row * tile_size < max_y);
            }
            let tile = TileCoord::new(column, row);
            let origin_x: u32 = column * tile_size;
            let origin_y: u32 = row * tile_size;
            let extent_x: u32 = if tile_size <= width - origin_x {
                tile_size
            } else {
                width - origin_x
            };
            let extent_y: u32 = if tile_size <= height - origin_y {
                tile_size
            } else {
                height - origin_y
            };
            let local_min_x: u32 = if min_x > origin_x { min_x - origin_x } else { 0 };
            let local_min_y: u32 = if min_y > origin_y { min_y - origin_y } else { 0 };
            let local_max_x: u32 = if max_x - origin_x <= extent_x {
                max_x - origin_x
            } else {
                extent_x
            };
            let local_max_y: u32 = if max_y - origin_y <= extent_y {
                max_y - origin_y
            } else {
                extent_y
            };
            let ghost before = work_state(work@, damage@);
            assert(tile == canvas.touched(rect, n));
            match RectU32::from_min_max(local_min_x, local_min_y, local_max_x, local_max_y) {
                Some(local) => {
                    assert(local@ == canvas.local(rect, tile));
                    damage.add(tile, local);
                },
                None => {},
            }
            let entry = RoundWork { tile, from, to, valid_extent: [extent_x, extent_y] };
            assert(entry.valid_extent =~= canvas.extent(tile));
            work.push(entry);
            proof {
                let after = work_state(work@, damage@);
                assert(sweep_work(canvas, start, from, to, rect, n + 1) == after);
                assert forall|i: int|
                    #![trigger after.work[i]]
                    0 <= i < after.work.len() implies after.damage.contains_key(
                    after.work[i].tile,
                ) && after.work[i].valid_extent == canvas.extent(after.work[i].tile)
                    && after.work[i].tile.x * canvas.tile_size < canvas.width
                    && after.work[i].tile.y * canvas.tile_size < canvas.height by {
                    if i < before.work.len() {
                        assert(after.work[i] == before.work[i]);
                    }
                }
                assert((row + 1 - first_row) * columns == (row - first_row) * columns + columns)
                    by (nonlinear_arith);
                n = n + 1;
                if row == last_row && column == last_column {
                    assert(n == rows * columns) by (nonlinear_arith)
                        requires
                            n == (row - first_row) * columns + (column - first_column) + 1,
                            column - first_column == columns - 1,
                            row - first_row == rows - 1,
                    ;
                }
            }
            if column < last_column {
                column += 1;
            } else {
                column = first_column;
                row += 1;
            }
        }
    }

    /// Cuts a run of commands into work, and gives the tiles that it touches their
    /// places. Which pixels a sweep may touch is asked of `bounds_of`. A run that
    /// fails changes neither the scheduler nor the atlas.
    #[verifier::loop_isolation(false)]
    pub fn schedule<F: Fn(RoundContact, RoundContact) -> RoundBounds>(
        &mut self,
        atlas: &mut SparseAtlasPlanner,
        commands: &Vec<RoundPathCommand>,
        bounds_of: &F,
    ) -> (batch: Result<RoundMaskBatch, RoundMaskError>)
        requires
            old(self).wf(),
            old(atlas).wf(),
            forall|from: RoundContact, to: RoundContact| #[trigger]
                call_requires(*bounds_of, (from, to)),
        ensures
            final(self).wf(),
            final(atlas).wf(),
            final(atlas).geometry() == old(atlas).geometry(),
            schedule_reported(
                *bounds_of,
                old(self)@,
                old(atlas).geometry(),
                old(atlas).places(),
                commands@,
                batch,
                final(self)@,
                final(atlas).places(),
            ),
    {
        let ghost model = self@;
        let ghost canvas = model.canvas;
        let ghost places = atlas.places();
        let ghost geometry = atlas.geometry();
        if !atlas.layout().same(self.layout) {
            return Err(
                RoundMaskError::LayoutMismatch { expected: self.layout, actual: atlas.layout() },
            );
        }
        let active = match follow_path(self.active_contact, commands) {
            Ok(active) => active,
            Err(error) => {
                return Err(RoundMaskError::Stroke(error));
            },
        };
        let found = collect_sweeps(commands);
        let ghost all = found@;
        let mut damage = Damage::new();
        let mut work: Vec<RoundWork> = Vec::new();
        let ghost mut bounds: Seq<RoundBounds> = Seq::empty();
        let mut s: usize = 0;
        assert(all.subrange(0, 0) =~= Seq::<(RoundContact, RoundContact)>::empty());
        assert(work@ =~= Seq::<RoundWork>::empty());
        while s < found.len()
            invariant
                s <= all.len(),
                damage.wf(),
                bounds_answered(*bounds_of, all.subrange(0, s as int), bounds),
                work_state(work@, damage@) == path_work(
                    canvas,
                    all.subrange(0, s as int),
                    bounds,
                ),
                work_sound(canvas, work_state(work@, damage@)),
            decreases all.len() - s,
        {
            let ghost held = bounds;
            let (from, to) = found[s];
            let around = bounds_of(from, to);
            proof {
                bounds = held.push(around);
                let prefix = all.subrange(0, s as int + 1);
                assert(prefix.drop_last() =~= all.subrange(0, s as int));
                assert(prefix.last() == (from, to));
                lemma_work_prefix(canvas, all.subrange(0, s as int), held, bounds);
                assert forall|k: int| 0 <= k < prefix.len() implies call_ensures(
                    *bounds_of,
                    (prefix[k].0, prefix[k].1),
                    #[trigger] bounds[k],
                ) by {
                    if k < s {
                        assert(bounds[k] == held[k]);
                        assert(prefix[k] == all.subrange(0, s as int)[k]);
                    }
                }
            }
            self.append_primitive_work(from, to, around, &mut damage, &mut work);
            s += 1;
        }
        assert(all.subrange(0, s as int) =~= all);
        let ghost state = path_work(canvas, all, bounds);
        let keys = damaged_keys(self.layer, &damage);
        let allocations = match atlas.allocate_batch(&keys) {
            Ok(allocations) => allocations,
            Err(error) => {
                assert(touched_in_order(
                    model.layer,
                    path_work(canvas, sweeps(commands@), bounds).damage,
                    keys@,
                ));
                assert(batch_overflows(
                    canvas,
                    model.layer,
                    geometry,
                    places,
                    commands@,
                    bounds,
                ));
                return Err(RoundMaskError::Atlas(error));
            },
        };
        let ghost after = atlas.places();
        proof {
            lemma_allocated(geometry, places, keys@);
        }
        let tile_size: u32 = self.layout.tile_size();
        let mut placed: Vec<ResidentWork<RoundMaskInstance>> = Vec::new();
        let ghost target = placed_work(canvas, geometry, after, model.layer, work@);
        let mut w: usize = 0;
        while w < work.len()
            invariant
                w <= work@.len(),
                placed@.len() == w,
                forall|k: int| 0 <= k < w ==> #[trigger] placed@[k] == target[k],
            decreases work@.len() - w,
        {
            let entry = work[w];
            let key = LayerTileKey::new(self.layer, entry.tile);
            proof {
                assert(state.work[w as int] == entry);
                assert(keys@.contains(key));
                let i = choose|i: int| 0 <= i < keys@.len() && keys@[i] == key;
                assert(slot_of_key(after, keys@[i]) is Some);
            }
            match atlas.slot(key) {
                Some(slot) => {
                    proof {
                        let index = slot_of_key(after, key)->0;
                        assert(0 <= index < after.len()) by {
                            let i = choose|i: int|
                                0 <= i < after.len() && #[trigger] after[i] == Some(key);
                        }
                        crate::gpu_atlas::lemma_slot_origin(geometry, index);
                    }
                    let instance = RoundMaskInstance {
                        from: entry.from,
                        to: entry.to,
                        tile_origin: [entry.tile.x * tile_size, entry.tile.y * tile_size],
                        clip_min: [slot.origin_x, slot.origin_y],
                        clip_max: [
                            slot.origin_x + entry.valid_extent[0],
                            slot.origin_y + entry.valid_extent[1],
                        ],
                    };
                    proof {
                        let expected = instance_at(canvas, entry, slot);
                        assert(instance.tile_origin =~= expected.tile_origin);
                        assert(instance.clip_min =~= expected.clip_min);
                        assert(instance.clip_max =~= expected.clip_max);
                    }
                    placed.push(ResidentWork { key, slot, payload: instance });
                },
                None => {},
            }
            w += 1;
        }
        assert(placed@ =~= target);
        let pages = batch_by_page(&placed);
        let mut touched_tiles: Vec<RoundMaskTileDamage> = Vec::new();
        let mut t: usize = 0;
        while t < keys.len()
            invariant
                t <= keys@.len(),
                touched_tiles@.len() == t,
                forall|k: int|
                    #![trigger touched_tiles@[k]]
                    0 <= k < t ==> touched_tiles@[k].key == keys@[k]
                        && touched_tiles@[k].local_damage@ == damage@[keys@[k].tile],
            decreases keys@.len() - t,
        {
            let key = keys[t];
            assert(damage@.contains_key(keys@[t as int].tile));
            match damage.tile(key.tile) {
                Some(local_damage) => {
                    touched_tiles.push(RoundMaskTileDamage { key, local_damage });
                },
                None => {},
            }
            t += 1;
        }
        self.active_contact = active;
        proof {
            lemma_allocation_keys(geometry, places, keys@);
        }
        let batch = RoundMaskBatch {
            layout: self.layout,
            pages,
            touched_tiles,
            allocations,
            commands: #[verifier::truncate]
            (commands.len() as u32),
            primitives: #[verifier::truncate]
            (found.len() as u32),
        };
        proof {
            assert(touched_in_order(model.layer, state.damage, keys@));
            assert(batch_of(
                canvas,
                model.layer,
                geometry,
                places,
                after,
                commands@,
                bounds,
                batch@,
            ));
        }
        Ok(batch)
    }
}

/// Bounds past the last sweep do not matter.
proof fn lemma_work_prefix(
    canvas: RoundCanvas,
    sweeps: Seq<(RoundContact, RoundContact)>,
    first: Seq<RoundBounds>,
    second: Seq<RoundBounds>,
)
    requires
        sweeps.len() <= first.len(),
        sweeps.len() <= second.len(),
        forall|k: int| 0 <= k < sweeps.len() ==> #[trigger] first[k] == second[k],
    ensures
        path_work(canvas, sweeps, first) == path_work(canvas, sweeps, second),
    decreases sweeps.len(),
{
    if sweeps.len() > 0 {
        lemma_work_prefix(canvas, sweeps.drop_last(), first, second);
        assert(first[sweeps.len() - 1] == second[sweeps.len() - 1]);
    }
}

} // verus!
