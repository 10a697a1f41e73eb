//! A sparse raster of square tiles with transactional edits.

use crate::keyed_map::{entries_map, has_key, keys_unique, lemma_entry_in_map, Key, KeyedMap};
use crate::pixel_grid::{grid_index, lemma_grid_bound, lemma_grid_position, minimum};
use crate::raster::{
    damage_add, pixel_bits_equal, transparent, Damage, LinearRgba, Rect, RectU32, TileCoord,
};
use crate::shared::share;
use std::sync::Arc;
use vstd::prelude::*;

verus! {

/// The pixels of a tile, shared between rasters, snapshots and commands.
pub type TilePixels = Arc<Vec<LinearRgba>>;

pub open spec fn pixel_map<K>(tiles: Map<K, TilePixels>) -> Map<K, Seq<LinearRgba>> {
    tiles.map_values(|pixels: TilePixels| pixels@)
}

/// A map with the same entries that shares every tile.
pub fn share_tiles<K: Key>(tiles: &KeyedMap<K, TilePixels>) -> (copy: KeyedMap<K, TilePixels>)
    requires
        tiles.wf(),
    ensures
        copy.wf(),
        copy@ == tiles@,
        copy.order() == tiles.order(),
{
    let mut entries: Vec<(K, TilePixels)> = Vec::new();
    let mut i: usize = 0;
    while i < tiles.entries.len()
        invariant
            i <= tiles.entries@.len(),
            entries@.len() == i,
            forall|j: int| 0 <= j < i ==> #[trigger] entries@[j] == tiles.entries@[j],
        decreases tiles.entries@.len() - i,
    {
        let shared = share(&tiles.entries[i].1);
        entries.push((tiles.entries[i].0, shared));
        i += 1;
    }
    assert(entries@ =~= tiles.entries@);
    KeyedMap { entries }
}

pub fn copy_pixels(pixels: &Vec<LinearRgba>) -> (copy: Vec<LinearRgba>)
    ensures
        copy@ == pixels@,
{
    let mut copy: Vec<LinearRgba> = Vec::new();
    let mut i: usize = 0;
    while i < pixels.len()
        invariant
            i <= pixels@.len(),
            copy@ == pixels@.subrange(0, i as int),
        decreases pixels@.len() - i,
    {
        copy.push(pixels[i]);
        i += 1;
        assert(copy@ =~= pixels@.subrange(0, i as int));
    }
    assert(copy@ =~= pixels@);
    copy
}

/// `count` pixels that are all alike.
pub open spec fn uniform(pixel: LinearRgba, count: int) -> Seq<LinearRgba> {
    Seq::new(count as nat, |i: int| pixel)
}

pub fn uniform_pixels(pixel: LinearRgba, count: usize) -> (pixels: Vec<LinearRgba>)
    ensures
        pixels@ == uniform(pixel, count as int),
{
    let mut pixels: Vec<LinearRgba> = Vec::new();
    while pixels.len() < count
        invariant
            pixels@.len() <= count,
            forall|j: int| 0 <= j < pixels@.len() ==> #[trigger] pixels@[j] == pixel,
        decreases count - pixels@.len(),
    {
        pixels.push(pixel);
    }
    assert(pixels@ =~= uniform(pixel, count as int));
    pixels
}

pub open spec fn all_transparent(pixels: Seq<LinearRgba>) -> bool {
    forall|i: int| 0 <= i < pixels.len() ==> #[trigger] pixels[i] == transparent()
}

fn pixels_are_transparent(pixels: &Vec<LinearRgba>) -> (all: bool)
    ensures
        all == all_transparent(pixels@),
{
    let mut i: usize = 0;
    while i < pixels.len()
        invariant
            i <= pixels@.len(),
            forall|j: int| 0 <= j < i ==> #[trigger] pixels@[j] == transparent(),
        decreases pixels@.len() - i,
    {
        if !pixel_bits_equal(pixels[i], LinearRgba::transparent()) {
            return false;
        }
        i += 1;
    }
    true
}

/// Names one edit of a raster, from its beginning to its commit.
#[derive(Clone, Copy, Debug, PartialEq, Eq, Hash, Structural)]
pub struct GestureId(pub u64);

#[derive(Clone, Copy, Debug, PartialEq, Eq, Structural)]
pub enum RasterError {
    EmptyCanvas,
    InvalidTileSize,
    TileStorageOverflow,
    TileOutOfBounds(TileCoord),
    InvalidTilePixelCount { tile: TileCoord, expected: usize, actual: usize },
    DamageOutsideTile {
        tile: TileCoord,
        damage: RectU32,
        valid_width: u32,
        valid_height: u32,
    },
    PixelOutOfBounds { x: u32, y: u32 },
    GestureActive,
    GestureMismatch,
    GestureIdsExhausted,
}

/// The size of a raster: what decides which tiles it has.
pub struct RasterGeometry {
    pub width: int,
    pub height: int,
    pub tile_size: int,
}

impl RasterGeometry {
    pub open spec fn valid(self) -> bool {
        &&& 0 < self.width <= u32::MAX
        &&& 0 < self.height <= u32::MAX
        &&& 0 < self.tile_size <= u32::MAX
        &&& self.tile_size * self.tile_size <= u32::MAX
        &&& self.tile_size * self.tile_size <= usize::MAX
    }

    /// Whether the tile holds a pixel of the canvas.
    pub open spec fn has_tile(self, tile: TileCoord) -> bool {
        tile.x * self.tile_size < self.width && tile.y * self.tile_size < self.height
    }

    /// The part of the canvas that lies in the tile.
    pub open spec fn tile_bounds(self, tile: TileCoord) -> Rect {
        Rect {
            min_x: tile.x * self.tile_size,
            min_y: tile.y * self.tile_size,
            max_x: minimum(tile.x * self.tile_size + self.tile_size, self.width),
            max_y: minimum(tile.y * self.tile_size + self.tile_size, self.height),
        }
    }

    /// The tile that holds the pixel at (`x`, `y`).
    pub open spec fn tile_of(self, x: int, y: int) -> TileCoord {
        TileCoord { x: (x / self.tile_size) as u32, y: (y / self.tile_size) as u32 }
    }

    /// Where in its tile the pixel at (`x`, `y`) stands.
    pub open spec fn index_of(self, x: int, y: int) -> int {
        grid_index(self.tile_size, x % self.tile_size, y % self.tile_size)
    }

    pub open spec fn tile_len(self) -> int {
        self.tile_size * self.tile_size
    }
}

/// The color at (`x`, `y`): that of its tile, or transparent where there is none.
pub open spec fn pixel_at(
    geometry: RasterGeometry,
    tiles: Map<TileCoord, Seq<LinearRgba>>,
    x: int,
    y: int,
) -> LinearRgba {
    let tile = geometry.tile_of(x, y);
    if tiles.contains_key(tile) {
        tiles[tile][geometry.index_of(x, y)]
    } else {
        transparent()
    }
}

/// The pixels of a tile, all transparent where it is not allocated.
pub open spec fn tile_or_blank(
    geometry: RasterGeometry,
    tiles: Map<TileCoord, Seq<LinearRgba>>,
    tile: TileCoord,
) -> Seq<LinearRgba> {
    if tiles.contains_key(tile) {
        tiles[tile]
    } else {
        uniform(transparent(), geometry.tile_len())
    }
}

/// The tiles after one pixel has been set.
pub open spec fn with_pixel(
    geometry: RasterGeometry,
    tiles: Map<TileCoord, Seq<LinearRgba>>,
    x: int,
    y: int,
    color: LinearRgba,
) -> Map<TileCoord, Seq<LinearRgba>> {
    let tile = geometry.tile_of(x, y);
    tiles.insert(
        tile,
        tile_or_blank(geometry, tiles, tile).update(geometry.index_of(x, y), color),
    )
}

/// The tiles after one has been replaced. A tile that holds no color is given up.
pub open spec fn with_tile(
    tiles: Map<TileCoord, Seq<LinearRgba>>,
    tile: TileCoord,
    pixels: Seq<LinearRgba>,
) -> Map<TileCoord, Seq<LinearRgba>> {
    if all_transparent(pixels) {
        tiles.remove(tile)
    } else {
        tiles.insert(tile, pixels)
    }
}

pub open spec fn tiles_valid(
    geometry: RasterGeometry,
    tiles: Map<TileCoord, Seq<LinearRgba>>,
) -> bool {
    forall|tile: TileCoord| #[trigger]
        tiles.contains_key(tile) ==> geometry.has_tile(tile) && tiles[tile].len()
            == geometry.tile_len()
}

/// Why a tile cannot take `pixels` pixels with this damage, if it cannot.
pub open spec fn edit_error(
    geometry: RasterGeometry,
    tile: TileCoord,
    damage: RectU32,
    pixels: nat,
) -> Option<RasterError> {
    let bounds = geometry.tile_bounds(tile);
    if !geometry.has_tile(tile) {
        Some(RasterError::TileOutOfBounds(tile))
    } else if damage@.max_x > bounds.width() || damage@.max_y > bounds.height() {
        Some(
            RasterError::DamageOutsideTile {
                tile,
                damage,
                valid_width: bounds.width() as u32,
                valid_height: bounds.height() as u32,
            },
        )
    } else if pixels != geometry.tile_len() {
        Some(
            RasterError::InvalidTilePixelCount {
                tile,
                expected: geometry.tile_len() as usize,
                actual: pixels as usize,
            },
        )
    } else {
        None
    }
}

/// An edit in progress: its name, what to return to, and what it touched.
pub struct GestureModel {
    pub id: GestureId,
    pub before: Map<TileCoord, Seq<LinearRgba>>,
    pub damage: Map<TileCoord, Rect>,
}

pub struct RasterModel {
    pub geometry: RasterGeometry,
    pub tiles: Map<TileCoord, Seq<LinearRgba>>,
    pub gesture: Option<GestureModel>,
    pub next_gesture: u64,
    pub undo_depth: nat,
}

/// One stored tile with its pixels.
#[derive(Clone, Debug, PartialEq)]
pub struct RasterTile {
    pub coord: TileCoord,
    pub pixels: TilePixels,
}

impl crate::ordering::Ranked for RasterTile {
    open spec fn le(self, other: Self) -> bool {
        self.coord.le(other.coord)
    }

    proof fn le_total(first: Self, second: Self) {
    }

    proof fn le_transitive(first: Self, second: Self, third: Self) {
    }

    fn not_after(&self, other: &Self) -> (le: bool) {
        self.coord.not_after(&other.coord)
    }
}

pub open spec fn tile_entries(tiles: Seq<RasterTile>) -> Seq<(TileCoord, Seq<LinearRgba>)> {
    Seq::new(tiles.len(), |i: int| (tiles[i].coord, tiles[i].pixels@))
}

#[derive(Debug)]
pub(crate) struct ActiveGesture {
    pub(crate) id: GestureId,
    pub(crate) before: KeyedMap<TileCoord, TilePixels>,
    pub(crate) damage: Damage,
}

/// The pixels of one layer. Only tiles that were painted on are stored.
#[derive(Debug)]
pub struct RasterLayer {
    pub(crate) width: u32,
    pub(crate) height: u32,
    pub(crate) tile_size: u32,
    pub(crate) tiles: KeyedMap<TileCoord, TilePixels>,
    pub(crate) gesture: Option<ActiveGesture>,
    pub(crate) next_gesture: u64,
    pub(crate) history: Vec<KeyedMap<TileCoord, TilePixels>>,
}

impl View for RasterLayer {
    type V = RasterModel;

    open(crate) spec fn view(&self) -> RasterModel {
        RasterModel {
            geometry: RasterGeometry {
                width: self.width as int,
                height: self.height as int,
                tile_size: self.tile_size as int,
            },
            tiles: pixel_map(self.tiles@),
            gesture: match self.gesture {
                Some(gesture) => Some(
                    GestureModel {
                        id: gesture.id,
                        before: pixel_map(gesture.before@),
                        damage: gesture.damage@,
                    },
                ),
                None => None,
            },
            next_gesture: self.next_gesture,
            undo_depth: self.history@.len(),
        }
    }
}

impl RasterLayer {
    pub open(crate) spec fn wf(self) -> bool {
        &&& self@.geometry.valid()
        &&& self.tiles.wf()
        &&& tiles_valid(self@.geometry, self@.tiles)
        &&& self.gesture matches Some(gesture) ==> {
            &&& gesture.before.wf()
            &&& gesture.damage.wf()
            &&& tiles_valid(self@.geometry, pixel_map(gesture.before@))
        }
        &&& forall|i: int|
            #![trigger self.history@[i]]
            0 <= i < self.history@.len() ==> self.history@[i].wf() && tiles_valid(
                self@.geometry,
                pixel_map(self.history@[i]@),
            )
    }

    /// What the tiles were before each edit that can be undone, the oldest first.
    pub open(crate) spec fn past(self) -> Seq<Map<TileCoord, Seq<LinearRgba>>> {
        Seq::new(self.history@.len(), |i: int| pixel_map(self.history@[i]@))
    }

    pub fn new(width: u32, height: u32, tile_size: u32) -> (layer: Result<RasterLayer, RasterError>)
        ensures
            match layer {
                Ok(layer) => {
                    &&& layer.wf()
                    &&& layer@ == (RasterModel {
                        geometry: RasterGeometry {
                            width: width as int,
                            height: height as int,
                            tile_size: tile_size as int,
                        },
                        tiles: Map::empty(),
                        gesture: None,
                        next_gesture: 1,
                        undo_depth: 0,
                    })
                },
                Err(RasterError::EmptyCanvas) => width == 0 || height == 0,
                Err(RasterError::InvalidTileSize) => width > 0 && height > 0 && tile_size == 0,
                Err(RasterError::TileStorageOverflow) => width > 0 && height > 0 && (tile_size
                    * tile_size > u32::MAX || tile_size * tile_size > usize::MAX),
                Err(_) => false,
            },
            layer is Ok <==> (RasterGeometry {
                width: width as int,
                height: height as int,
                tile_size: tile_size as int,
            }).valid(),
    {
        if width == 0 || height == 0 {
            return Err(RasterError::EmptyCanvas);
        }
        if tile_size == 0 {
            return Err(RasterError::InvalidTileSize);
        }
        match tile_size.checked_mul(tile_size) {
            Some(count) => {
                if count as u64 > usize::MAX as u64 {
                    return Err(RasterError::TileStorageOverflow);
                }
            },
            None => {
                return Err(RasterError::TileStorageOverflow);
            },
        }
        let layer = RasterLayer {
            width,
            height,
            tile_size,
            tiles: KeyedMap::new(),
            gesture: None,
            next_gesture: 1,
            history: Vec::new(),
        };
        assert(layer@.tiles =~= Map::<TileCoord, Seq<LinearRgba>>::empty());
        Ok(layer)
    }

    pub fn width(&self) -> (width: u32)
        ensures
            width == self@.geometry.width,
    {
        self.width
    }

    pub fn height(&self) -> (height: u32)
        ensures
            height == self@.geometry.height,
    {
        self.height
    }

    pub fn tile_size(&self) -> (tile_size: u32)
        ensures
            tile_size == self@.geometry.tile_size,
    {
        self.tile_size
    }

    pub fn active_gesture_id(&self) -> (id: Option<GestureId>)
        ensures
            id == (match self@.gesture {
                Some(gesture) => Some(gesture.id),
                None => None,
            }),
    {
        match &self.gesture {
            Some(gesture) => Some(gesture.id),
            None => None,
        }
    }

    pub fn undo_depth(&self) -> (depth: usize)
        ensures
            depth == self@.undo_depth,
    {
        self.history.len()
    }

    pub fn clear_history(&mut self)
        requires
            old(self).wf(),
        ensures
            final(self).wf(),
            final(self)@ == (RasterModel { undo_depth: 0, ..old(self)@ }),
    {
        self.history = Vec::new();
    }

    pub fn allocated_tile_count(&self) -> (count: usize)
        requires
            self.wf(),
        ensures
            self@.tiles.dom().finite(),
            count == self@.tiles.dom().len(),
    {
        assert(self@.tiles.dom() =~= self.tiles@.dom());
        self.tiles.len()
    }

    pub fn tile_is_allocated(&self, tile: TileCoord) -> (allocated: bool)
        requires
            self.wf(),
        ensures
            allocated == self@.tiles.contains_key(tile),
    {
        self.tiles.contains(tile)
    }

    /// The pixels of an allocated tile in row order.
    pub fn tile(&self, tile: TileCoord) -> (pixels: Option<&Vec<LinearRgba>>)
        requires
            self.wf(),
        ensures
            match pixels {
                Some(pixels) => self@.tiles.contains_key(tile) && pixels@ == self@.tiles[tile],
                None => !self@.tiles.contains_key(tile),
            },
    {
        match self.tiles.get(tile) {
            Some(pixels) => Some(&**pixels),
            None => None,
        }
    }

    /// The part of the canvas that lies in `tile`, where there is one.
    pub fn tile_bounds(&self, tile: TileCoord) -> (bounds: Option<RectU32>)
        requires
            self.wf(),
        ensures
            match bounds {
                Some(bounds) => self@.geometry.has_tile(tile) && bounds@
                    == self@.geometry.tile_bounds(tile) && bounds@.nonempty(),
                None => !self@.geometry.has_tile(tile),
            },
    {
        let (min_x, min_y) = match (
            tile.x.checked_mul(self.tile_size),
            tile.y.checked_mul(self.tile_size),
        ) {
            (Some(min_x), Some(min_y)) => (min_x, min_y),
            _ => {
                return None;
            },
        };
        if min_x >= self.width || min_y >= self.height {
            return None;
        }
        let width: u32 = if self.tile_size <= self.width - min_x {
            self.tile_size
        } else {
            self.width - min_x
        };
        let height: u32 = if self.tile_size <= self.height - min_y {
            self.tile_size
        } else {
            self.height - min_y
        };
        RectU32::from_min_max(min_x, min_y, min_x + width, min_y + height)
    }

    /// The color at (`x`, `y`), or nothing outside the canvas.
    pub fn pixel(&self, x: u32, y: u32) -> (color: Option<LinearRgba>)
        requires
            self.wf(),
        ensures
            color == (if x < self@.geometry.width && y < self@.geometry.height {
                Some(pixel_at(self@.geometry, self@.tiles, x as int, y as int))
            } else {
                None
            }),
    {
        if x >= self.width || y >= self.height {
            return None;
        }
        let tile = TileCoord::new(x / self.tile_size, y / self.tile_size);
        let index: usize = self.index(x, y);
        match self.tiles.get(tile) {
            Some(pixels) => {
                proof {
                    assert(self@.tiles.contains_key(tile));
                }
                Some(pixels[index])
            },
            None => Some(LinearRgba::transparent()),
        }
    }

    fn index(&self, x: u32, y: u32) -> (index: usize)
        requires
            self.wf(),
            x < self@.geometry.width,
            y < self@.geometry.height,
        ensures
            index == self@.geometry.index_of(x as int, y as int),
            index < self@.geometry.tile_len(),
            self@.geometry.has_tile(self@.geometry.tile_of(x as int, y as int)),
    {
        let size = self.tile_size;
        let tile_x: u32 = x % size;
        let tile_y: u32 = y % size;
        proof {
            lemma_grid_bound(size as int, size as int, tile_x as int, tile_y as int);
            lemma_grid_position(size as int, x as int);
            lemma_grid_position(size as int, y as int);
        }
        tile_y as usize * size as usize + tile_x as usize
    }

    pub fn begin_gesture(&mut self) -> (gesture: Result<GestureId, RasterError>)
        requires
            old(self).wf(),
        ensures
            final(self).wf(),
            match gesture {
                Ok(id) => {
                    &&& old(self)@.gesture is None
                    &&& old(self)@.next_gesture < u64::MAX
                    &&& id == GestureId(old(self)@.next_gesture)
                    &&& final(self)@ == (RasterModel {
                        gesture: Some(
                            GestureModel { id, before: old(self)@.tiles, damage: Map::empty() },
                        ),
                        next_gesture: (old(self)@.next_gesture + 1) as u64,
                        ..old(self)@
                    })
                    &&& final(self).past() == old(self).past()
                },
                Err(RasterError::GestureActive) => old(self)@.gesture is Some && *final(self)
                    == *old(self),
                Err(RasterError::GestureIdsExhausted) => old(self)@.gesture is None && old(
                    self,
                )@.next_gesture == u64::MAX && *final(self) == *old(self),
                Err(_) => false,
            },
    {
        if self.gesture.is_some() {
            return Err(RasterError::GestureActive);
        }
        if self.next_gesture == u64::MAX {
            return Err(RasterError::GestureIdsExhausted);
        }
        let id = GestureId(self.next_gesture);
        let before = share_tiles(&self.tiles);
        self.next_gesture = self.next_gesture + 1;
        self.gesture = Some(ActiveGesture { id, before, damage: Damage::new() });
        Ok(id)
    }

    fn owns(&self, gesture: GestureId) -> (owns: bool)
        ensures
            owns == (self@.gesture matches Some(active) && active.id == gesture),
    {
        match &self.gesture {
            Some(active) => active.id.0 == gesture.0,
            None => false,
        }
    }

    /// Paints one pixel. Says whether its bits changed.
    pub fn set_pixel(&mut self, gesture: GestureId, x: u32, y: u32, color: LinearRgba) -> (changed:
        Result<bool, RasterError>)
        requires
            old(self).wf(),
        ensures
            final(self).wf(),
            match changed {
                Ok(changed) => {
                    let model = old(self)@;
                    &&& model.gesture matches Some(active)
                    &&& active.id == gesture
                    &&& x < model.geometry.width && y < model.geometry.height
                    &&& changed == (pixel_at(model.geometry, model.tiles, x as int, y as int)
                        != color)
                    &&& !changed ==> *final(self) == *old(self)
                    &&& changed ==> final(self)@ == (RasterModel {
                        tiles: with_pixel(model.geometry, model.tiles, x as int, y as int, color),
                        gesture: Some(
                            GestureModel {
                                damage: damage_add(
                                    active.damage,
                                    model.geometry.tile_of(x as int, y as int),
                                    Rect {
                                        min_x: x as int,
                                        min_y: y as int,
                                        max_x: x + 1,
                                        max_y: y + 1,
                                    },
                                ),
                                ..active
                            },
                        ),
                        ..model
                    })
                },
                Err(RasterError::GestureMismatch) => !(old(self)@.gesture matches Some(active)
                    && active.id == gesture) && *final(self) == *old(self),
                Err(RasterError::PixelOutOfBounds { x: at_x, y: at_y }) => {
                    &&& at_x == x && at_y == y
                    &&& old(self)@.gesture matches Some(active)
                    &&& active.id == gesture
                    &&& !(x < old(self)@.geometry.width && y < old(self)@.geometry.height)
                    &&& *final(self) == *old(self)
                },
                Err(_) => false,
            },
    {
        if !self.owns(gesture) {
            return Err(RasterError::GestureMismatch);
        }
        let current = match self.pixel(x, y) {
            Some(current) => current,
            None => {
                return Err(RasterError::PixelOutOfBounds { x, y });
            },
        };
        if pixel_bits_equal(current, color) {
            return Ok(false);
        }
        let ghost model = self@;
        let tile = TileCoord::new(x / self.tile_size, y / self.tile_size);
        let index: usize = self.index(x, y);
        let mut pixels = match self.tiles.get(tile) {
            Some(pixels) => {
                assert(self@.tiles.contains_key(tile));
                copy_pixels(pixels)
            },
            None => uniform_pixels(
                LinearRgba::transparent(),
                self.tile_size as usize * self.tile_size as usize,
            ),
        };
        pixels.set(index, color);
        self.tiles.insert(tile, Arc::new(pixels));
        match RectU32::from_min_max(x, y, x + 1, y + 1) {
            Some(bounds) => {
                match self.gesture.as_mut() {
                    Some(active) => {
                        active.damage.add(tile, bounds);
                    },
                    None => {},
                }
            },
            None => {},
        }
        proof {
            assert(self@.tiles =~= with_pixel(
                model.geometry,
                model.tiles,
                x as int,
                y as int,
                color,
            ));
            assert forall|t: TileCoord| #[trigger] self@.tiles.contains_key(t) implies
                self@.geometry.has_tile(t) && self@.tiles[t].len() == self@.geometry.tile_len() by {
                if t != tile {
                    assert(model.tiles.contains_key(t));
                }
            }
        }
        Ok(true)
    }

    /// Ends an edit and keeps it. Says what it changed, if anything.
    pub fn commit_gesture(&mut self, gesture: GestureId) -> (damage: Result<
        Option<Damage>,
        RasterError,
    >)
        requires
            old(self).wf(),
        ensures
            final(self).wf(),
            match damage {
                Ok(damage) => {
                    &&& old(self)@.gesture matches Some(active)
                    &&& active.id == gesture
                    &&& match damage {
                        Some(damage) => damage.wf() && damage@ == active.damage && damage@
                            != Map::<TileCoord, Rect>::empty(),
                        None => active.damage == Map::<TileCoord, Rect>::empty(),
                    }
                    &&& final(self)@ == (RasterModel {
                        gesture: None,
                        undo_depth: old(self)@.undo_depth + if damage is Some {
                            1nat
                        } else {
                            0nat
                        },
                        ..old(self)@
                    })
                    &&& final(self).past() == if damage is Some {
                        old(self).past().push(active.before)
                    } else {
                        old(self).past()
                    }
                },
                Err(error) => error == RasterError::GestureMismatch && !(old(
                    self,
                )@.gesture matches Some(active) && active.id == gesture) && *final(self) == *old(
                    self,
                ),
            },
    {
        if !self.owns(gesture) {
            return Err(RasterError::GestureMismatch);
        }
        match self.gesture.take() {
            Some(active) => {
                if active.damage.is_empty() {
                    Ok(None)
                } else {
                    let ghost past = self.past();
                    self.history.push(active.before);
                    assert(self.past() =~= past.push(pixel_map(active.before@)));
                    Ok(Some(active.damage))
                }
            },
            None => Ok(None),
        }
    }

    /// Ends an edit and takes it back.
    pub fn cancel_gesture(&mut self, gesture: GestureId) -> (cancelled: Result<(), RasterError>)
        requires
            old(self).wf(),
        ensures
            final(self).wf(),
            match cancelled {
                Ok(_) => {
                    &&& old(self)@.gesture matches Some(active)
                    &&& active.id == gesture
                    &&& final(self)@ == (RasterModel {
                        tiles: active.before,
                        gesture: None,
                        ..old(self)@
                    })
                },
                Err(error) => error == RasterError::GestureMismatch && !(old(
                    self,
                )@.gesture matches Some(active) && active.id == gesture) && *final(self) == *old(
                    self,
                ),
            },
    {
        if !self.owns(gesture) {
            return Err(RasterError::GestureMismatch);
        }
        match self.gesture.take() {
            Some(active) => {
                self.tiles = active.before;
                Ok(())
            },
            None => Ok(()),
        }
    }

    /// Replaces the pixels of one tile during an edit. `local_damage` says, from the tile's own
    /// corner, what part of the tile the caller has changed. The tile stays allocated.
    pub fn edit_tile_additive(
        &mut self,
        gesture: GestureId,
        tile: TileCoord,
        local_damage: RectU32,
        pixels: Vec<LinearRgba>,
    ) -> (edited: Result<(), RasterError>)
        requires
            old(self).wf(),
        ensures
            final(self).wf(),
            match edited {
                Ok(_) => {
                    let model = old(self)@;
                    &&& model.gesture matches Some(active)
                    &&& active.id == gesture
                    &&& edit_error(model.geometry, tile, local_damage, pixels@.len()) is None
                    &&& final(self)@ == (RasterModel {
                        tiles: model.tiles.insert(tile, pixels@),
                        gesture: Some(
                            GestureModel {
                                damage: damage_add(
                                    active.damage,
                                    tile,
                                    local_damage@.translated(
                                        tile.x * model.geometry.tile_size,
                                        tile.y * model.geometry.tile_size,
                                    ),
                                ),
                                ..active
                            },
                        ),
                        ..model
                    })
                    &&& final(self).past() == old(self).past()
                },
                Err(error) => {
                    &&& *final(self) == *old(self)
                    &&& if old(self)@.gesture matches Some(active) && active.id == gesture {
                        edit_error(old(self)@.geometry, tile, local_damage, pixels@.len()) == Some(
                            error,
                        )
                    } else {
                        error == RasterError::GestureMismatch
                    }
                },
            },
    {
        if !self.owns(gesture) {
            return Err(RasterError::GestureMismatch);
        }
        let bounds = match self.tile_bounds(tile) {
            Some(bounds) => bounds,
            None => {
                return Err(RasterError::TileOutOfBounds(tile));
            },
        };
        if local_damage.max_x() > bounds.width() || local_damage.max_y() > bounds.height() {
            return Err(
                RasterError::DamageOutsideTile {
                    tile,
                    damage: local_damage,
                    valid_width: bounds.width(),
                    valid_height: bounds.height(),
                },
            );
        }
        let expected: usize = self.tile_size as usize * self.tile_size as usize;
        if pixels.len() != expected {
            return Err(
                RasterError::InvalidTilePixelCount { tile, expected, actual: pixels.len() },
            );
        }
        let ghost model = self@;
        let ghost content = pixels@;
        self.tiles.insert(tile, Arc::new(pixels));
        match RectU32::from_min_max(
            bounds.min_x() + local_damage.min_x(),
            bounds.min_y() + local_damage.min_y(),
            bounds.min_x() + local_damage.max_x(),
            bounds.min_y() + local_damage.max_y(),
        ) {
            Some(damage) => {
                match self.gesture.as_mut() {
                    Some(active) => {
                        active.damage.add(tile, damage);
                    },
                    None => {},
                }
            },
            None => {},
        }
        proof {
            assert(self@.tiles =~= model.tiles.insert(tile, content));
            assert forall|t: TileCoord| #[trigger] self@.tiles.contains_key(t) implies
                self@.geometry.has_tile(t) && self@.tiles[t].len() == self@.geometry.tile_len() by {
                if t != tile {
                    assert(model.tiles.contains_key(t));
                }
            }
        }
        Ok(())
    }

    /// Takes back the last edit that can be undone. Says whether there was one.
    pub fn undo(&mut self) -> (undone: Result<bool, RasterError>)
        requires
            old(self).wf(),
        ensures
            final(self).wf(),
            match undone {
                Ok(true) => {
                    &&& old(self)@.gesture is None
                    &&& old(self)@.undo_depth > 0
                    &&& final(self)@ == (RasterModel {
                        tiles: old(self).past().last(),
                        undo_depth: (old(self)@.undo_depth - 1) as nat,
                        ..old(self)@
                    })
                    &&& final(self).past() == old(self).past().drop_last()
                },
                Ok(false) => old(self)@.gesture is None && old(self)@.undo_depth == 0
                    && *final(self) == *old(self),
                Err(error) => error == RasterError::GestureActive && old(self)@.gesture is Some
                    && *final(self) == *old(self),
            },
    {
        if self.gesture.is_some() {
            return Err(RasterError::GestureActive);
        }
        if self.history.len() == 0 {
            return Ok(false);
        }
        let ghost before = *self;
        match self.history.pop() {
            Some(tiles) => {
                self.tiles = tiles;
                proof {
                    let last = before.history@.len() - 1;
                    assert(before.history@[last] == tiles);
                    assert(before.past().last() == pixel_map(tiles@));
                    assert(self.past() =~= before.past().drop_last());
                    assert(self@.tiles == before.past().last());
                    assert forall|i: int|
                        #![trigger self.history@[i]]
                        0 <= i < self.history@.len() implies self.history@[i].wf() && tiles_valid(
                        self@.geometry,
                        pixel_map(self.history@[i]@),
                    ) by {
                        assert(self.history@[i] == before.history@[i]);
                    }
                }
                Ok(true)
            },
            None => Ok(false),
        }
    }

    /// Replaces the pixels of one tile. A tile without color is given up.
    pub fn restore_tile(&mut self, tile: TileCoord, pixels: Vec<LinearRgba>) -> (restored: Result<
        (),
        RasterError,
    >)
        requires
            old(self).wf(),
        ensures
            final(self).wf(),
            match restored {
                Ok(_) => {
                    &&& old(self)@.geometry.has_tile(tile)
                    &&& pixels@.len() == old(self)@.geometry.tile_len()
                    &&& final(self)@ == (RasterModel {
                        tiles: with_tile(old(self)@.tiles, tile, pixels@),
                        ..old(self)@
                    })
                },
                Err(RasterError::TileOutOfBounds(at)) => at == tile && !old(
                    self,
                )@.geometry.has_tile(tile) && *final(self) == *old(self),
                Err(RasterError::InvalidTilePixelCount { tile: at, expected, actual }) => {
                    &&& at == tile
                    &&& old(self)@.geometry.has_tile(tile)
                    &&& expected == old(self)@.geometry.tile_len()
                    &&& actual == pixels@.len()
                    &&& expected != actual
                    &&& *final(self) == *old(self)
                },
                Err(_) => false,
            },
    {
        self.restore_shared_tile(tile, Arc::new(pixels))
    }

    /// As `restore_tile`, for pixels that others hold too.
    pub fn restore_shared_tile(&mut self, tile: TileCoord, pixels: TilePixels) -> (restored: Result<
        (),
        RasterError,
    >)
        requires
            old(self).wf(),
        ensures
            final(self).wf(),
            match restored {
                Ok(_) => {
                    &&& old(self)@.geometry.has_tile(tile)
                    &&& pixels@.len() == old(self)@.geometry.tile_len()
                    &&& final(self)@ == (RasterModel {
                        tiles: with_tile(old(self)@.tiles, tile, pixels@),
                        ..old(self)@
                    })
                },
                Err(RasterError::TileOutOfBounds(at)) => at == tile && !old(
                    self,
                )@.geometry.has_tile(tile) && *final(self) == *old(self),
                Err(RasterError::InvalidTilePixelCount { tile: at, expected, actual }) => {
                    &&& at == tile
                    &&& old(self)@.geometry.has_tile(tile)
                    &&& expected == old(self)@.geometry.tile_len()
                    &&& actual == pixels@.len()
                    &&& expected != actual
                    &&& *final(self) == *old(self)
                },
                Err(_) => false,
            },
    {
        if self.tile_bounds(tile).is_none() {
            return Err(RasterError::TileOutOfBounds(tile));
        }
        let expected: usize = self.tile_size as usize * self.tile_size as usize;
        if pixels.len() != expected {
            return Err(
                RasterError::InvalidTilePixelCount { tile, expected, actual: pixels.len() },
            );
        }
        let ghost before = self@;
        let ghost content = pixels@;
        if pixels_are_transparent(&pixels) {
            self.tiles.remove(tile);
        } else {
            self.tiles.insert(tile, pixels);
        }
        proof {
            assert(self@.tiles =~= with_tile(before.tiles, tile, content));
            assert forall|t: TileCoord| #[trigger] self@.tiles.contains_key(t) implies
                self@.geometry.has_tile(t) && self@.tiles[t].len() == self@.geometry.tile_len() by {
                if t != tile {
                    assert(before.tiles.contains_key(t));
                }
            }
        }
        Ok(())
    }

    /// The stored tiles, each once. They share their pixels with the layer.
    pub fn checkpoint_tiles(&self) -> (tiles: Vec<RasterTile>)
        requires
            self.wf(),
        ensures
            keys_unique(tile_entries(tiles@)),
            entries_map(tile_entries(tiles@)) == self@.tiles,
    {
        let ghost order = self.tiles.entries@;
        let mut tiles: Vec<RasterTile> = Vec::new();
        let mut i: usize = 0;
        while i < self.tiles.entries.len()
            invariant
                order == self.tiles.entries@,
                i <= order.len(),
                tiles@.len() == i,
                forall|k: int|
                    #![trigger tiles@[k]]
                    0 <= k < i ==> tiles@[k].coord == order[k].0 && tiles@[k].pixels
                        == order[k].1,
            decreases order.len() - i,
        {
            tiles.push(
                RasterTile {
                    coord: self.tiles.entries[i].0,
                    pixels: share(&self.tiles.entries[i].1),
                },
            );
            i += 1;
        }
        proof {
            let entries = tile_entries(tiles@);
            assert forall|a: int, b: int|
                #![trigger entries[a], entries[b]]
                0 <= a < b < entries.len() implies entries[a].0 != entries[b].0 by {
                assert(order[a].0 != order[b].0);
            }
            let map = entries_map(entries);
            assert forall|tile: TileCoord| #[trigger] map.contains_key(tile)
                == self@.tiles.contains_key(tile) by {
                if has_key(entries, tile) {
                    let k = choose|k: int|
                        0 <= k < entries.len() && (#[trigger] entries[k]).0 == tile;
                    assert(order[k].0 == tile);
                    assert(has_key(order, tile));
                }
                if has_key(order, tile) {
                    let k = choose|k: int| 0 <= k < order.len() && (#[trigger] order[k]).0 == tile;
                    assert(entries[k].0 == tile);
                }
            }
            assert forall|tile: TileCoord| #[trigger] map.contains_key(tile) implies map[tile]
                == self@.tiles[tile] by {
                let k = choose|k: int| 0 <= k < entries.len() && (#[trigger] entries[k]).0 == tile;
                lemma_entry_in_map(entries, k);
                lemma_entry_in_map(order, k);
            }
            assert(map =~= self@.tiles);
        }
        tiles
    }
}

} // verus!
