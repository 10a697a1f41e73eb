//! The sparse surface of loaded paint. Color and relief are committed together.

use crate::document::LayerId;
use crate::gpu_atlas::{AtlasGeometry, AtlasLayout, AtlasPageId, AtlasSlot, LayerTileKey};
use crate::gpu_atlas::SparseAtlasPlanner;
use crate::gpu_document_target::{GpuDocumentTarget, TargetModel};
use crate::gpu_resident_strokes::slot_at;
use crate::gpu_round_target::{active_list, ActiveRoundMaskTile, RoundMaskTarget, RoundTargetModel};
use crate::keyed_map::{value_of, Key, KeyedMap};
use crate::raster::TileCoord;
use crate::stroke::PaintOperation;
use vstd::prelude::*;

verus! {

/// Something for a tile and for the four tiles next to it.
#[derive(Clone, Copy, Debug, PartialEq, Eq)]
pub struct Around<T> {
    pub center: T,
    pub left: T,
    pub right: T,
    pub above: T,
    pub below: T,
}

/// A tile and its neighbors, as far as there are any.
pub open spec fn around(coord: TileCoord) -> Around<Option<TileCoord>> {
    Around {
        center: Some(coord),
        left: if coord.x > 0 {
            Some(TileCoord { x: (coord.x - 1) as u32, y: coord.y })
        } else {
            None
        },
        right: if coord.x < u32::MAX {
            Some(TileCoord { x: (coord.x + 1) as u32, y: coord.y })
        } else {
            None
        },
        above: if coord.y > 0 {
            Some(TileCoord { x: coord.x, y: (coord.y - 1) as u32 })
        } else {
            None
        },
        below: if coord.y < u32::MAX {
            Some(TileCoord { x: coord.x, y: (coord.y + 1) as u32 })
        } else {
            None
        },
    }
}

fn neighbors(coord: TileCoord) -> (neighbors: Around<Option<TileCoord>>)
    ensures
        neighbors == around(coord),
{
    Around {
        center: Some(coord),
        left: if coord.x > 0 {
            Some(TileCoord { x: coord.x - 1, y: coord.y })
        } else {
            None
        },
        right: if coord.x < u32::MAX {
            Some(TileCoord { x: coord.x + 1, y: coord.y })
        } else {
            None
        },
        above: if coord.y > 0 {
            Some(TileCoord { x: coord.x, y: coord.y - 1 })
        } else {
            None
        },
        below: if coord.y < u32::MAX {
            Some(TileCoord { x: coord.x, y: coord.y + 1 })
        } else {
            None
        },
    }
}

/// What the surface does with the paint of a stroke.
#[derive(Clone, Copy, Debug, PartialEq, Eq, Structural)]
pub enum SurfaceMode {
    Paint,
    Load,
    Erase,
}

pub open spec fn surface_mode(loaded: bool, operation: PaintOperation) -> SurfaceMode {
    if loaded {
        SurfaceMode::Load
    } else if operation == PaintOperation::DestinationOut {
        SurfaceMode::Erase
    } else {
        SurfaceMode::Paint
    }
}

/// One tile of the surface that has to be computed again.
#[derive(Clone, Copy, Debug, PartialEq, Eq)]
pub struct SurfaceDispatch {
    pub tile: ActiveRoundMaskTile,
    /// Where the relief of the document lies, around the tile.
    pub surface: Around<Option<AtlasSlot>>,
    /// Where the stroke lies, around the tile.
    pub mask: Around<Option<AtlasSlot>>,
    /// Whether the document holds color for the tile.
    pub initialized: bool,
    /// Where the relief of the tile goes.
    pub relief: Option<AtlasSlot>,
}

/// What the device has to do to bring the surface up to date.
#[derive(Debug)]
pub struct SurfaceRefresh {
    pub mode: SurfaceMode,
    /// Pages that have to be made.
    pub opened: Vec<AtlasPageId>,
    pub dispatches: Vec<SurfaceDispatch>,
}

/// A tile of the surface that a commit copies into the document.
#[derive(Clone, Copy, Debug, PartialEq, Eq)]
pub struct MaterialCopy {
    pub destination: ActiveRoundMaskTile,
    pub source_page: AtlasPageId,
    pub source_origin: [u32; 2],
}

/// What a page of the surface is shown as.
#[derive(Clone, Copy, Debug, PartialEq, Eq, Structural)]
pub enum SurfaceView {
    Page,
    Empty,
}

#[derive(Debug)]
pub struct MaterialTarget {
    pub(crate) layout: AtlasLayout,
    pub(crate) pages: KeyedMap<AtlasPageId, ()>,
    pub(crate) page_span: u64,
    pub(crate) tiles: Vec<ActiveRoundMaskTile>,
    pub(crate) dirty: KeyedMap<TileCoord, ()>,
    pub(crate) generation: u64,
}

pub struct SurfaceModel {
    pub layout: AtlasLayout,
    pub pages: Map<AtlasPageId, ()>,
    pub page_span: int,
    pub tiles: Seq<ActiveRoundMaskTile>,
    pub dirty: Map<TileCoord, ()>,
    pub generation: u64,
}

impl View for MaterialTarget {
    type V = SurfaceModel;

    open(crate) spec fn view(&self) -> SurfaceModel {
        SurfaceModel {
            layout: self.layout,
            pages: self.pages@,
            page_span: self.page_span as int,
            tiles: self.tiles@,
            dirty: self.dirty@,
            generation: self.generation,
        }
    }
}

pub open spec fn with_mark(dirty: Map<TileCoord, ()>, coord: Option<TileCoord>) -> Map<
    TileCoord,
    (),
> {
    match coord {
        Some(coord) => dirty.insert(coord, ()),
        None => dirty,
    }
}

/// The marks once a tile was touched: it and its neighbors have to be computed again.
pub open spec fn damaged_around(dirty: Map<TileCoord, ()>, coord: TileCoord) -> Map<
    TileCoord,
    (),
> {
    let near = around(coord);
    with_mark(
        with_mark(
            with_mark(
                with_mark(with_mark(dirty, near.center), near.left),
                near.right,
            ),
            near.above,
        ),
        near.below,
    )
}

/// The number after `steps` changes.
pub open spec fn later_generation(generation: u64, steps: nat) -> u64
    decreases steps,
{
    if steps == 0 {
        generation
    } else {
        let before = later_generation(generation, (steps - 1) as nat);
        if before == u64::MAX {
            0
        } else {
            (before + 1) as u64
        }
    }
}

fn next_generation(generation: u64) -> (next: u64)
    ensures
        next == later_generation(generation, 1),
{
    reveal_with_fuel(later_generation, 2);
    if generation == u64::MAX {
        0
    } else {
        generation + 1
    }
}

/// Where the relief of a tile lies.
pub open spec fn relief_slot(
    geometry: AtlasGeometry,
    places: Seq<Option<LayerTileKey>>,
    key: LayerTileKey,
) -> Option<AtlasSlot> {
    slot_at(
        geometry,
        places,
        LayerTileKey { layer: key.layer.spec_material_plane(), tile: key.tile },
    )
}

/// Whether a page is needed for the color or the relief of a tile.
pub open spec fn tile_needs_page(
    geometry: AtlasGeometry,
    places: Seq<Option<LayerTileKey>>,
    tile: ActiveRoundMaskTile,
    page: AtlasPageId,
) -> bool {
    tile.slot.page == page || (relief_slot(geometry, places, tile.key) matches Some(slot)
        && slot.page == page)
}

pub open spec fn needs_page(
    geometry: AtlasGeometry,
    places: Seq<Option<LayerTileKey>>,
    tiles: Seq<ActiveRoundMaskTile>,
    page: AtlasPageId,
) -> bool {
    exists|i: int|
        0 <= i < tiles.len() && tile_needs_page(geometry, places, #[trigger] tiles[i], page)
}

/// The relief around a tile that the device holds.
pub open spec fn held_relief(
    target: TargetModel,
    geometry: AtlasGeometry,
    places: Seq<Option<LayerTileKey>>,
    layer: LayerId,
    coord: Option<TileCoord>,
) -> Option<AtlasSlot> {
    match coord {
        None => None,
        Some(tile) => {
            let key = LayerTileKey { layer: layer.spec_material_plane(), tile };
            match slot_at(geometry, places, key) {
                Some(slot) => if value_of(target.residents, slot) == Some(key) {
                    Some(slot)
                } else {
                    None
                },
                None => None,
            }
        },
    }
}

/// Where the stroke holds a tile.
pub open spec fn stroke_slot(tiles: Seq<ActiveRoundMaskTile>, coord: Option<TileCoord>) -> Option<
    AtlasSlot,
>
    decreases tiles.len(),
{
    if coord is None || tiles.len() == 0 {
        None
    } else if tiles.last().key.tile == coord->0 {
        Some(tiles.last().slot)
    } else {
        stroke_slot(tiles.drop_last(), coord)
    }
}

pub open spec fn dispatch_of(
    target: TargetModel,
    geometry: AtlasGeometry,
    places: Seq<Option<LayerTileKey>>,
    tiles: Seq<ActiveRoundMaskTile>,
    tile: ActiveRoundMaskTile,
) -> SurfaceDispatch {
    let near = around(tile.key.tile);
    let layer = tile.key.layer;
    SurfaceDispatch {
        tile,
        surface: Around {
            center: held_relief(target, geometry, places, layer, near.center),
            left: held_relief(target, geometry, places, layer, near.left),
            right: held_relief(target, geometry, places, layer, near.right),
            above: held_relief(target, geometry, places, layer, near.above),
            below: held_relief(target, geometry, places, layer, near.below),
        },
        mask: Around {
            center: stroke_slot(tiles, near.center),
            left: stroke_slot(tiles, near.left),
            right: stroke_slot(tiles, near.right),
            above: stroke_slot(tiles, near.above),
            below: stroke_slot(tiles, near.below),
        },
        initialized: value_of(target.residents, tile.slot) == Some(tile.key),
        relief: relief_slot(geometry, places, tile.key),
    }
}

/// The tiles that have to be computed again, in order.
pub open spec fn dispatches_of(
    target: TargetModel,
    geometry: AtlasGeometry,
    places: Seq<Option<LayerTileKey>>,
    dirty: Map<TileCoord, ()>,
    tiles: Seq<ActiveRoundMaskTile>,
    n: int,
) -> Seq<SurfaceDispatch>
    decreases n,
{
    if n <= 0 {
        Seq::empty()
    } else {
        let rest = dispatches_of(target, geometry, places, dirty, tiles, n - 1);
        if dirty.contains_key(tiles[n - 1].key.tile) {
            rest.push(dispatch_of(target, geometry, places, tiles, tiles[n - 1]))
        } else {
            rest
        }
    }
}

/// The pages that are needed and not there yet, each once, in order.
pub open spec fn newly_needed(
    surface: SurfaceModel,
    geometry: AtlasGeometry,
    places: Seq<Option<LayerTileKey>>,
    tiles: Seq<ActiveRoundMaskTile>,
    opened: Seq<AtlasPageId>,
) -> bool {
    &&& forall|i: int, j: int|
        #![trigger opened[i], opened[j]]
        0 <= i < j < opened.len() ==> opened[i].0 < opened[j].0
    &&& forall|page: AtlasPageId| #[trigger]
        opened.contains(page) <==> needs_page(geometry, places, tiles, page)
            && !surface.pages.contains_key(page)
}

/// How far the pages reach once these were made.
pub open spec fn span_with(span: int, opened: Seq<AtlasPageId>) -> int {
    if opened.len() > 0 && span <= opened.last().0 {
        opened.last().0 + 1
    } else {
        span
    }
}

pub open spec fn pages_opened(pages: Map<AtlasPageId, ()>, opened: Seq<AtlasPageId>) -> Map<
    AtlasPageId,
    (),
>
    decreases opened.len(),
{
    if opened.len() == 0 {
        pages
    } else {
        pages_opened(pages, opened.drop_last()).insert(opened.last(), ())
    }
}

/// What comes of bringing the surface up to date with a stroke.
pub open(crate) spec fn refreshed(
    before: SurfaceModel,
    geometry: AtlasGeometry,
    places: Seq<Option<LayerTileKey>>,
    target: TargetModel,
    mask: RoundTargetModel,
    operation: PaintOperation,
    loaded: bool,
    refresh: SurfaceRefresh,
    after: SurfaceModel,
) -> bool {
    &&& active_list(mask.active_tiles, after.tiles)
    &&& newly_needed(before, geometry, places, after.tiles, refresh.opened@)
    &&& refresh.mode == surface_mode(loaded, operation)
    &&& refresh.dispatches@ == dispatches_of(
        target,
        geometry,
        places,
        before.dirty,
        after.tiles,
        after.tiles.len() as int,
    )
    &&& after == (SurfaceModel {
        layout: before.layout,
        pages: pages_opened(before.pages, refresh.opened@),
        page_span: span_with(before.page_span, refresh.opened@),
        tiles: after.tiles,
        dirty: Map::empty(),
        generation: later_generation(before.generation, refresh.opened@.len()),
    })
}

/// The copies of one tile: its color, and its relief where it has one.
pub open spec fn copies_of(
    geometry: AtlasGeometry,
    places: Seq<Option<LayerTileKey>>,
    tile: ActiveRoundMaskTile,
) -> Seq<MaterialCopy> {
    let color = MaterialCopy {
        destination: tile,
        source_page: tile.slot.page,
        source_origin: [tile.slot.origin_x, tile.slot.origin_y],
    };
    match relief_slot(geometry, places, tile.key) {
        Some(slot) => seq![
            color,
            MaterialCopy {
                destination: ActiveRoundMaskTile {
                    key: LayerTileKey {
                        layer: tile.key.layer.spec_material_plane(),
                        tile: tile.key.tile,
                    },
                    slot,
                    local_damage: tile.local_damage,
                },
                source_page: slot.page,
                source_origin: [slot.origin_x, slot.origin_y],
            },
        ],
        None => seq![color],
    }
}

pub open spec fn all_copies(
    geometry: AtlasGeometry,
    places: Seq<Option<LayerTileKey>>,
    tiles: Seq<ActiveRoundMaskTile>,
) -> Seq<MaterialCopy>
    decreases tiles.len(),
{
    if tiles.len() == 0 {
        Seq::empty()
    } else {
        all_copies(geometry, places, tiles.drop_last()) + copies_of(geometry, places, tiles.last())
    }
}

/// Adds a page to an increasing list.
fn add_page(pages: &mut Vec<AtlasPageId>, page: AtlasPageId)
    requires
        forall|i: int, j: int|
            #![trigger old(pages)@[i], old(pages)@[j]]
            0 <= i < j < old(pages)@.len() ==> old(pages)@[i].0 < old(pages)@[j].0,
    ensures
        forall|i: int, j: int|
            #![trigger final(pages)@[i], final(pages)@[j]]
            0 <= i < j < final(pages)@.len() ==> final(pages)@[i].0 < final(pages)@[j].0,
        forall|other: AtlasPageId| #[trigger]
            final(pages)@.contains(other) <==> old(pages)@.contains(other) || other == page,
{
    let ghost before = pages@;
    let mut at: usize = 0;
    while at < pages.len() && pages[at].get() < page.get()
        invariant
            pages@ == before,
            at <= before.len(),
            forall|k: int| 0 <= k < at ==> (#[trigger] before[k]).0 < page.0,
        decreases before.len() - at,
    {
        at += 1;
    }
    if at < pages.len() && pages[at].get() == page.get() {
        assert(before[at as int] == page);
        return;
    }
    pages.insert(at, page);
    proof {
        let after = pages@;
        assert(after =~= before.insert(at as int, page));
        assert forall|other: AtlasPageId| #[trigger] after.contains(other) <==> before.contains(
            other,
        ) || other == page by {
            if before.contains(other) {
                let k = choose|k: int| 0 <= k < before.len() && before[k] == other;
                if k < at {
                    assert(after[k] == other);
                } else {
                    assert(after[k + 1] == other);
                }
            }
            if other == page {
                assert(after[at as int] == page);
            }
            if after.contains(other) && other != page {
                let k = choose|k: int| 0 <= k < after.len() && after[k] == other;
                if k < at {
                    assert(before[k] == other);
                } else {
                    assert(before[k - 1] == other);
                }
            }
        }
    }
}

fn relief_of(atlas: &SparseAtlasPlanner, key: LayerTileKey) -> (slot: Option<AtlasSlot>)
    requires
        atlas.wf(),
    ensures
        slot == relief_slot(atlas.geometry(), atlas.places(), key),
{
    atlas.slot(LayerTileKey::new(key.layer.material_plane(), key.tile))
}

fn held_relief_of(
    target: &GpuDocumentTarget,
    atlas: &SparseAtlasPlanner,
    layer: LayerId,
    coord: Option<TileCoord>,
) -> (slot: Option<AtlasSlot>)
    requires
        target.wf(),
        atlas.wf(),
    ensures
        slot == held_relief(target@, atlas.geometry(), atlas.places(), layer, coord),
{
    match coord {
        None => None,
        Some(tile) => {
            let key = LayerTileKey::new(layer.material_plane(), tile);
            match atlas.slot(key) {
                Some(slot) => match target.initialized_resident(slot) {
                    Some(actual) => if actual.same(key) {
                        Some(slot)
                    } else {
                        None
                    },
                    None => None,
                },
                None => None,
            }
        },
    }
}

fn stroke_slot_of(tiles: &Vec<ActiveRoundMaskTile>, coord: Option<TileCoord>) -> (slot: Option<
    AtlasSlot,
>)
    ensures
        slot == stroke_slot(tiles@, coord),
{
    let wanted = match coord {
        Some(wanted) => wanted,
        None => {
            return None;
        },
    };
    let mut n: usize = tiles.len();
    assert(tiles@.subrange(0, n as int) =~= tiles@);
    while n > 0
        invariant
            n <= tiles@.len(),
            coord == Some(wanted),
            stroke_slot(tiles@, coord) == stroke_slot(tiles@.subrange(0, n as int), coord),
        decreases n,
    {
        assert(tiles@.subrange(0, n as int).drop_last() =~= tiles@.subrange(0, n as int - 1));
        n -= 1;
        if tiles[n].key.tile.same(wanted) {
            return Some(tiles[n].slot);
        }
    }
    None
}

impl MaterialTarget {
    pub open(crate) spec fn wf(self) -> bool {
        &&& self.pages.wf()
        &&& self.dirty.wf()
    }

    pub fn new(layout: AtlasLayout) -> (target: MaterialTarget)
        ensures
            target.wf(),
            target@ == (SurfaceModel {
                layout,
                pages: Map::empty(),
                page_span: 0,
                tiles: Seq::empty(),
                dirty: Map::empty(),
                generation: 0,
            }),
    {
        MaterialTarget {
            layout,
            pages: KeyedMap::new(),
            page_span: 0,
            tiles: Vec::new(),
            dirty: KeyedMap::new(),
            generation: 0,
        }
    }

    /// Forgets the last stroke.
    pub fn begin(&mut self)
        requires
            old(self).wf(),
        ensures
            final(self).wf(),
            final(self)@ == (SurfaceModel {
                tiles: Seq::empty(),
                dirty: Map::empty(),
                ..old(self)@
            }),
    {
        self.tiles = Vec::new();
        self.dirty = KeyedMap::new();
    }

    /// Gives up all pages.
    pub fn release(&mut self)
        requires
            old(self).wf(),
        ensures
            final(self).wf(),
            final(self)@ == (SurfaceModel {
                layout: old(self)@.layout,
                pages: Map::empty(),
                page_span: 0,
                tiles: Seq::empty(),
                dirty: Map::empty(),
                generation: later_generation(old(self)@.generation, 1),
            }),
    {
        self.pages = KeyedMap::new();
        self.page_span = 0;
        self.tiles = Vec::new();
        self.dirty = KeyedMap::new();
        self.generation = next_generation(self.generation);
    }

    fn mark(&mut self, coord: Option<TileCoord>)
        requires
            old(self).wf(),
        ensures
            final(self).wf(),
            final(self)@ == (SurfaceModel {
                dirty: with_mark(old(self)@.dirty, coord),
                ..old(self)@
            }),
    {
        if let Some(coord) = coord {
            self.dirty.insert(coord, ());
        }
    }

    /// Marks a tile that the stroke has touched, and its neighbors.
    pub fn damage(&mut self, coord: TileCoord)
        requires
            old(self).wf(),
        ensures
            final(self).wf(),
            final(self)@ == (SurfaceModel {
                dirty: damaged_around(old(self)@.dirty, coord),
                ..old(self)@
            }),
    {
        let near = neighbors(coord);
        self.mark(near.center);
        self.mark(near.left);
        self.mark(near.right);
        self.mark(near.above);
        self.mark(near.below);
    }

    /// Lists what the device has to do, and notes it as done.
    pub fn refresh(
        &mut self,
        atlas: &SparseAtlasPlanner,
        target: &GpuDocumentTarget,
        mask: &RoundMaskTarget,
        operation: PaintOperation,
        loaded: bool,
    ) -> (refresh: SurfaceRefresh)
        requires
            old(self).wf(),
            atlas.wf(),
            target.wf(),
            mask.wf(),
        ensures
            final(self).wf(),
            refreshed(
                old(self)@,
                atlas.geometry(),
                atlas.places(),
                target@,
                mask@,
                operation,
                loaded,
                refresh,
                final(self)@,
            ),
    {
        let active = mask.active_tiles();
        let opened = self.list_new_pages(atlas, &active);
        self.open_pages(&opened);
        let dispatches = self.list_dispatches(atlas, target, &active);
        let mode = if loaded {
            SurfaceMode::Load
        } else {
            match operation {
                PaintOperation::DestinationOut => SurfaceMode::Erase,
                PaintOperation::SourceOver => SurfaceMode::Paint,
            }
        };
        self.tiles = active;
        self.dirty = KeyedMap::new();
        SurfaceRefresh { mode, opened, dispatches }
    }

    fn list_new_pages(&self, atlas: &SparseAtlasPlanner, active: &Vec<ActiveRoundMaskTile>) -> (
    opened: Vec<AtlasPageId>)
        requires
            self.wf(),
            atlas.wf(),
        ensures
            newly_needed(self@, atlas.geometry(), atlas.places(), active@, opened@),
    {
        let ghost geometry = atlas.geometry();
        let ghost places = atlas.places();
        let mut opened: Vec<AtlasPageId> = Vec::new();
        let mut i: usize = 0;
        while i < active.len()
            invariant
                self.wf(),
                atlas.wf(),
                geometry == atlas.geometry(),
                places == atlas.places(),
                i <= active@.len(),
                newly_needed(
                    self@,
                    geometry,
                    places,
                    active@.subrange(0, i as int),
                    opened@,
                ),
            decreases active@.len() - i,
        {
            let tile = active[i];
            let ghost earlier = opened@;
            let ghost shorter = active@.subrange(0, i as int);
            let ghost longer = active@.subrange(0, i as int + 1);
            let page = tile.slot.page();
            if !self.pages.contains(page) {
                add_page(&mut opened, page);
            }
            let relief = relief_of(atlas, tile.key);
            if let Some(slot) = relief {
                if !self.pages.contains(slot.page()) {
                    add_page(&mut opened, slot.page());
                }
            }
            proof {
                assert(longer =~= shorter.push(tile));
                assert forall|page: AtlasPageId| #[trigger] opened@.contains(page) <==> needs_page(
                    geometry,
                    places,
                    longer,
                    page,
                ) && !self@.pages.contains_key(page) by {
                    assert(needs_page(geometry, places, longer, page) <==> needs_page(
                        geometry,
                        places,
                        shorter,
                        page,
                    ) || tile_needs_page(geometry, places, tile, page)) by {
                        if needs_page(geometry, places, longer, page) {
                            let k = choose|k: int|
                                0 <= k < longer.len() && tile_needs_page(
                                    geometry,
                                    places,
                                    #[trigger] longer[k],
                                    page,
                                );
                            if k < i {
                                assert(shorter[k] == longer[k]);
                            }
                        }
                        if needs_page(geometry, places, shorter, page) {
                            let k = choose|k: int|
                                0 <= k < shorter.len() && tile_needs_page(
                                    geometry,
                                    places,
                                    #[trigger] shorter[k],
                                    page,
                                );
                            assert(longer[k] == shorter[k]);
                        }
                        assert(longer[i as int] == tile);
                    }
                    assert(earlier.contains(page) <==> needs_page(
                        geometry,
                        places,
                        shorter,
                        page,
                    ) && !self@.pages.contains_key(page));
                }
            }
            i += 1;
        }
        assert(active@.subrange(0, i as int) =~= active@);
        opened
    }

    fn open_pages(&mut self, opened: &Vec<AtlasPageId>)
        requires
            old(self).wf(),
            forall|i: int, j: int|
                #![trigger opened@[i], opened@[j]]
                0 <= i < j < opened@.len() ==> opened@[i].0 < opened@[j].0,
        ensures
            final(self).wf(),
            final(self)@ == (SurfaceModel {
                pages: pages_opened(old(self)@.pages, opened@),
                page_span: span_with(old(self)@.page_span, opened@),
                generation: later_generation(old(self)@.generation, opened@.len()),
                ..old(self)@
            }),
    {
        let ghost before = self@;
        let mut i: usize = 0;
        assert(opened@.subrange(0, 0) =~= Seq::empty());
        while i < opened.len()
            invariant
                before == old(self)@,
                self.wf(),
                i <= opened@.len(),
                forall|a: int, b: int|
                    #![trigger opened@[a], opened@[b]]
                    0 <= a < b < opened@.len() ==> opened@[a].0 < opened@[b].0,
                self@ == (SurfaceModel {
                    pages: pages_opened(before.pages, opened@.subrange(0, i as int)),
                    page_span: span_with(before.page_span, opened@.subrange(0, i as int)),
                    generation: later_generation(before.generation, i as nat),
                    ..before
                }),
            decreases opened@.len() - i,
        {
            let page = opened[i];
            let ghost shorter = opened@.subrange(0, i as int);
            let ghost longer = opened@.subrange(0, i as int + 1);
            assert(longer.drop_last() =~= shorter);
            self.pages.insert(page, ());
            let reach: u32 = page.get();
            if self.page_span <= reach as u64 {
                self.page_span = reach as u64 + 1;
            }
            self.generation = next_generation(self.generation);
            proof {
                reveal_with_fuel(later_generation, 2);
                assert(longer.last() == page);
                if i > 0 {
                    assert(shorter.last() == opened@[i as int - 1]);
                }
            }
            i += 1;
        }
        assert(opened@.subrange(0, i as int) =~= opened@);
    }

    fn list_dispatches(
        &self,
        atlas: &SparseAtlasPlanner,
        target: &GpuDocumentTarget,
        active: &Vec<ActiveRoundMaskTile>,
    ) -> (dispatches: Vec<SurfaceDispatch>)
        requires
            self.wf(),
            atlas.wf(),
            target.wf(),
        ensures
            dispatches@ == dispatches_of(
                target@,
                atlas.geometry(),
                atlas.places(),
                self@.dirty,
                active@,
                active@.len() as int,
            ),
    {
        let mut dispatches: Vec<SurfaceDispatch> = Vec::new();
        let mut i: usize = 0;
        while i < active.len()
            invariant
                self.wf(),
                atlas.wf(),
                target.wf(),
                i <= active@.len(),
                dispatches@ == dispatches_of(
                    target@,
                    atlas.geometry(),
                    atlas.places(),
                    self@.dirty,
                    active@,
                    i as int,
                ),
            decreases active@.len() - i,
        {
            let tile = active[i];
            if self.dirty.contains(tile.key.tile) {
                let near = neighbors(tile.key.tile);
                let layer = tile.key.layer;
                let initialized = match target.initialized_resident(tile.slot) {
                    Some(key) => key.same(tile.key),
                    None => false,
                };
                dispatches.push(
                    SurfaceDispatch {
                        tile,
                        surface: Around {
                            center: held_relief_of(target, atlas, layer, near.center),
                            left: held_relief_of(target, atlas, layer, near.left),
                            right: held_relief_of(target, atlas, layer, near.right),
                            above: held_relief_of(target, atlas, layer, near.above),
                            below: held_relief_of(target, atlas, layer, near.below),
                        },
                        mask: Around {
                            center: stroke_slot_of(active, near.center),
                            left: stroke_slot_of(active, near.left),
                            right: stroke_slot_of(active, near.right),
                            above: stroke_slot_of(active, near.above),
                            below: stroke_slot_of(active, near.below),
                        },
                        initialized,
                        relief: relief_of(atlas, tile.key),
                    },
                );
            }
            i += 1;
        }
        dispatches
    }

    /// Where the color of a tile lies on the surface.
    pub fn color_tile(&self, coord: TileCoord) -> (place: Option<(AtlasPageId, [u32; 2])>)
        ensures
            match place {
                Some((page, origin)) => exists|i: int|
                    {
                        &&& 0 <= i < self@.tiles.len()
                        &&& (#[trigger] self@.tiles[i]).key.tile == coord
                        &&& page == self@.tiles[i].slot.page
                        &&& origin == [self@.tiles[i].slot.origin_x, self@.tiles[i].slot.origin_y]
                        &&& forall|k: int|
                            0 <= k < i ==> (#[trigger] self@.tiles[k]).key.tile != coord
                    },
                None => forall|k: int|
                    0 <= k < self@.tiles.len() ==> (#[trigger] self@.tiles[k]).key.tile != coord,
            },
    {
        let mut i: usize = 0;
        while i < self.tiles.len()
            invariant
                i <= self.tiles@.len(),
                forall|k: int| 0 <= k < i ==> (#[trigger] self@.tiles[k]).key.tile != coord,
            decreases self.tiles@.len() - i,
        {
            let tile = self.tiles[i];
            if tile.key.tile.same(coord) {
                assert(self@.tiles[i as int] == tile);
                return Some((tile.slot.page(), [tile.slot.origin_x, tile.slot.origin_y]));
            }
            i += 1;
        }
        None
    }

    /// What a commit copies into the document.
    pub fn copies(&self, atlas: &SparseAtlasPlanner) -> (copies: Vec<MaterialCopy>)
        requires
            self.wf(),
            atlas.wf(),
        ensures
            copies@ == all_copies(atlas.geometry(), atlas.places(), self@.tiles),
    {
        let ghost geometry = atlas.geometry();
        let ghost places = atlas.places();
        let mut copies: Vec<MaterialCopy> = Vec::new();
        let mut i: usize = 0;
        assert(self.tiles@.subrange(0, 0) =~= Seq::empty());
        while i < self.tiles.len()
            invariant
                atlas.wf(),
                geometry == atlas.geometry(),
                places == atlas.places(),
                i <= self.tiles@.len(),
                copies@ == all_copies(geometry, places, self.tiles@.subrange(0, i as int)),
            decreases self.tiles@.len() - i,
        {
            let tile = self.tiles[i];
            let ghost held = copies@;
            assert(self.tiles@.subrange(0, i as int + 1).drop_last() =~= self.tiles@.subrange(
                0,
                i as int,
            ));
            copies.push(
                MaterialCopy {
                    destination: tile,
                    source_page: tile.slot.page(),
                    source_origin: [tile.slot.origin_x, tile.slot.origin_y],
                },
            );
            let key = LayerTileKey::new(tile.key.layer.material_plane(), tile.key.tile);
            if let Some(slot) = atlas.slot(key) {
                copies.push(
                    MaterialCopy {
                        destination: ActiveRoundMaskTile {
                            key,
                            slot,
                            local_damage: tile.local_damage,
                        },
                        source_page: slot.page(),
                        source_origin: [slot.origin_x, slot.origin_y],
                    },
                );
            }
            assert(copies@ =~= held + copies_of(geometry, places, tile));
            i += 1;
        }
        assert(self.tiles@.subrange(0, i as int) =~= self.tiles@);
        copies
    }

    pub fn layout(&self) -> (layout: AtlasLayout)
        ensures
            layout == self@.layout,
    {
        self.layout
    }

    pub fn active_tiles(&self) -> (tiles: &Vec<ActiveRoundMaskTile>)
        ensures
            tiles@ == self@.tiles,
    {
        &self.tiles
    }

    /// How a page is shown. Pages that were never made are empty.
    pub fn page_view(&self, page: AtlasPageId) -> (view: Option<SurfaceView>)
        requires
            self.wf(),
        ensures
            view == (if page.0 < self@.page_span {
                Some(
                    if self@.pages.contains_key(page) {
                        SurfaceView::Page
                    } else {
                        SurfaceView::Empty
                    },
                )
            } else {
                None
            }),
    {
        if (page.get() as u64) < self.page_span {
            Some(
                if self.pages.contains(page) {
                    SurfaceView::Page
                } else {
                    SurfaceView::Empty
                },
            )
        } else {
            None
        }
    }

    /// How far the pages reach, those that were never made counted too.
    pub fn retained_page_count(&self) -> (count: u64)
        ensures
            count == self@.page_span,
    {
        self.page_span
    }

    pub fn generation(&self) -> (generation: u64)
        ensures
            generation == self@.generation,
    {
        self.generation
    }
}

/// Bringing a surface up to date a second time computes no tile again, while nothing was painted
/// in between.
pub proof fn law_fresh_surface_needs_no_work(
    surface: SurfaceModel,
    target: TargetModel,
    geometry: AtlasGeometry,
    places: Seq<Option<LayerTileKey>>,
    tiles: Seq<ActiveRoundMaskTile>,
    n: int,
)
    requires
        surface.dirty == Map::<TileCoord, ()>::empty(),
    ensures
        dispatches_of(target, geometry, places, surface.dirty, tiles, n).len() == 0,
    decreases n,
{
    if n > 0 {
        law_fresh_surface_needs_no_work(surface, target, geometry, places, tiles, n - 1);
    }
}

} // verus!
