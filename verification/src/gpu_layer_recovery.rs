//! Commands that put a whole layer back.

use crate::document::LayerId;
use crate::gpu_cpu_mirror::colored_tiles;
use crate::gpu_raster_recovery::PIXEL_BYTES;
use crate::keyed_map::{
    entries_map, has_key, keys_unique, lemma_entry_in_map, lemma_map_len, lemma_pushed,
};
use crate::ordering::{lemma_sorted, lemma_sorted_contains, sort, stable_sorted, Ranked};
use crate::pixel_grid::{lemma_grid_bound, lemma_grid_position};
use crate::raster::{first_nonfinite, pixel_finite, transparent, LinearRgba, TileCoord};
use crate::raster_layer::{
    pixel_at, tile_entries, tiles_valid, RasterError, RasterGeometry, RasterLayer, RasterModel,
    RasterTile,
};
use crate::shared::share;
use vstd::layout::size_of;
use vstd::prelude::*;

verus! {

/// What a command holds besides its tiles: its layer, its canvas, where the tiles lie, and what it
/// counts for.
pub type LayerCommandHeader = (LayerId, u32, u32, u32, &'static [u8], u64);

/// What a tile of a command holds besides its pixels: its place, and where the pixels lie.
pub type LayerTileHeader = (TileCoord, &'static [u8]);

#[derive(Clone, Copy, Debug, PartialEq, Eq, Structural)]
pub enum GpuExactLayerRecoveryBuildError {
    GestureActive,
    NonFinitePixel { tile: TileCoord, index: usize },
    ByteCountOverflow,
}

#[derive(Clone, Copy, Debug, PartialEq, Eq)]
pub enum GpuExactLayerRecoveryReplayError {
    LayerMismatch { expected: LayerId, actual: LayerId },
    GeometryMismatch {
        expected_dimensions: [u32; 2],
        actual_dimensions: [u32; 2],
        expected_tile_size: u32,
        actual_tile_size: u32,
    },
    TileCountOverflow,
    Raster(RasterError),
}

impl From<RasterError> for GpuExactLayerRecoveryReplayError {
    fn from(error: RasterError) -> (converted: Self) {
        GpuExactLayerRecoveryReplayError::Raster(error)
    }
}

impl vstd::std_specs::convert::FromSpecImpl<RasterError> for GpuExactLayerRecoveryReplayError {
    open spec fn obeys_from_spec() -> bool {
        true
    }

    open spec fn from_spec(error: RasterError) -> Self {
        GpuExactLayerRecoveryReplayError::Raster(error)
    }
}

/// All pixels of one layer.
#[derive(Clone, Debug, PartialEq)]
pub struct GpuExactLayerRecoveryCommand {
    pub(crate) layer: LayerId,
    pub(crate) width: u32,
    pub(crate) height: u32,
    pub(crate) tile_size: u32,
    pub(crate) tiles: Vec<RasterTile>,
    pub(crate) retained_byte_len: u64,
}

pub struct LayerCommandModel {
    pub layer: LayerId,
    pub geometry: RasterGeometry,
    pub tiles: Seq<(TileCoord, Seq<LinearRgba>)>,
}

impl View for GpuExactLayerRecoveryCommand {
    type V = LayerCommandModel;

    open(crate) spec fn view(&self) -> LayerCommandModel {
        LayerCommandModel {
            layer: self.layer,
            geometry: RasterGeometry {
                width: self.width as int,
                height: self.height as int,
                tile_size: self.tile_size as int,
            },
            tiles: tile_entries(self.tiles@),
        }
    }
}

/// Row by row, no tile twice.
pub open spec fn tiles_in_order(tiles: Seq<(TileCoord, Seq<LinearRgba>)>) -> bool {
    forall|i: int, j: int|
        #![trigger tiles[i], tiles[j]]
        0 <= i < j < tiles.len() ==> tiles[i].0.le(tiles[j].0) && tiles[i].0 != tiles[j].0
}

pub open spec fn layer_byte_len(tile_count: int, tile_len: int) -> int {
    size_of::<LayerCommandHeader>() + tile_count * size_of::<LayerTileHeader>() + tile_count
        * tile_len * PIXEL_BYTES
}

pub open spec fn pixels_finite(pixels: Seq<LinearRgba>) -> bool {
    forall|i: int| 0 <= i < pixels.len() ==> pixel_finite(#[trigger] pixels[i])
}

impl LayerCommandModel {
    pub open spec fn byte_len(self) -> int {
        layer_byte_len(self.tiles.len() as int, self.geometry.tile_len())
    }

    pub open spec fn valid(self) -> bool {
        &&& self.geometry.valid()
        &&& tiles_in_order(self.tiles)
        &&& tiles_valid(self.geometry, entries_map(self.tiles))
        &&& self.byte_len() <= u64::MAX
    }
}

proof fn lemma_order_is_unique(tiles: Seq<(TileCoord, Seq<LinearRgba>)>)
    requires
        tiles_in_order(tiles),
    ensures
        keys_unique(tiles),
{
}

/// Sorting tiles keeps what they map to.
proof fn lemma_sorted_tiles(tiles: Seq<RasterTile>)
    requires
        keys_unique(tile_entries(tiles)),
    ensures
        tiles_in_order(tile_entries(stable_sorted(tiles))),
        entries_map(tile_entries(stable_sorted(tiles))) == entries_map(tile_entries(tiles)),
        stable_sorted(tiles).len() == tiles.len(),
{
    let sorted = stable_sorted(tiles);
    let entries = tile_entries(tiles);
    let ordered = tile_entries(sorted);
    lemma_sorted(tiles);
    assert(tiles.no_duplicates()) by {
        assert forall|i: int, j: int|
            0 <= i < tiles.len() && 0 <= j < tiles.len() && i != j implies tiles[i]
            != tiles[j] by {
            assert(entries[i].0 == tiles[i].coord && entries[j].0 == tiles[j].coord);
        }
    }
    tiles.lemma_multiset_has_no_duplicates();
    sorted.lemma_multiset_has_no_duplicates_conv();
    assert forall|i: int| 0 <= i < sorted.len() implies exists|k: int|
        0 <= k < tiles.len() && tiles[k] == #[trigger] sorted[i] by {
        lemma_sorted_contains(tiles, sorted[i]);
        assert(sorted.contains(sorted[i]));
        assert(tiles.contains(sorted[i]));
    }
    assert forall|i: int, j: int|
        #![trigger ordered[i], ordered[j]]
        0 <= i < j < ordered.len() implies ordered[i].0.le(ordered[j].0) && ordered[i].0
        != ordered[j].0 by {
        assert(sorted[i].le(sorted[j]));
        if sorted[i].coord == sorted[j].coord {
            let a = choose|a: int| 0 <= a < tiles.len() && tiles[a] == sorted[i];
            let b = choose|b: int| 0 <= b < tiles.len() && tiles[b] == sorted[j];
            assert(entries[a].0 == entries[b].0);
            assert(a == b);
        }
    }
    lemma_order_is_unique(ordered);
    assert forall|i: int| 0 <= i < tiles.len() implies has_key(ordered, tiles[i].coord)
        && #[trigger] entries_map(ordered)[tiles[i].coord] == tiles[i].pixels@ by {
        lemma_sorted_contains(tiles, tiles[i]);
        assert(tiles.contains(tiles[i]));
        let k = choose|k: int| 0 <= k < sorted.len() && sorted[k] == tiles[i];
        assert(ordered[k].0 == tiles[i].coord);
        lemma_entry_in_map(ordered, k);
    }
    let left = entries_map(ordered);
    let right = entries_map(entries);
    assert forall|tile: TileCoord| #[trigger] left.contains_key(tile) == right.contains_key(
        tile,
    ) by {
        if has_key(entries, tile) {
            let i = choose|i: int| 0 <= i < entries.len() && (#[trigger] entries[i]).0 == tile;
            assert(tiles[i].coord == tile);
            assert(entries_map(ordered)[tiles[i].coord] == tiles[i].pixels@);
        }
        if has_key(ordered, tile) {
            let i = choose|i: int| 0 <= i < ordered.len() && (#[trigger] ordered[i]).0 == tile;
            let k = choose|k: int| 0 <= k < tiles.len() && tiles[k] == sorted[i];
            assert(entries[k].0 == tile);
        }
    }
    assert forall|tile: TileCoord| #[trigger] right.contains_key(tile) implies left[tile]
        == right[tile] by {
        let i = choose|i: int| 0 <= i < entries.len() && (#[trigger] entries[i]).0 == tile;
        assert(entries_map(ordered)[tiles[i].coord] == tiles[i].pixels@);
        lemma_entry_in_map(entries, i);
    }
    assert(left =~= right);
}

/// A tile holds a pixel that is not finite, and is the first in row order that does.
pub open spec fn first_bad_tile(
    tiles: Map<TileCoord, Seq<LinearRgba>>,
    tile: TileCoord,
    index: int,
) -> bool {
    &&& tiles.contains_key(tile)
    &&& 0 <= index < tiles[tile].len()
    &&& !pixel_finite(tiles[tile][index])
    &&& forall|i: int| 0 <= i < index ==> pixel_finite(#[trigger] tiles[tile][i])
    &&& forall|other: TileCoord| #[trigger]
        tiles.contains_key(other) && other.le(tile) && other != tile ==> pixels_finite(
            tiles[other],
        )
}

pub open spec fn all_tiles_finite(tiles: Map<TileCoord, Seq<LinearRgba>>) -> bool {
    forall|tile: TileCoord| #[trigger] tiles.contains_key(tile) ==> pixels_finite(tiles[tile])
}

/// The stored tiles of a layer, row by row.
pub(crate) fn ordered_tiles(raster: &RasterLayer) -> (tiles: Vec<RasterTile>)
    requires
        raster.wf(),
    ensures
        tiles_in_order(tile_entries(tiles@)),
        entries_map(tile_entries(tiles@)) == raster@.tiles,
{
    let stored = raster.checkpoint_tiles();
    proof {
        lemma_sorted_tiles(stored@);
        lemma_map_len(tile_entries(stored@));
    }
    sort(stored)
}

/// The tiles in row order, unless one holds a pixel that is not finite.
fn finite_tiles(raster: &RasterLayer) -> (tiles: Result<
    Vec<RasterTile>,
    GpuExactLayerRecoveryBuildError,
>)
    requires
        raster.wf(),
    ensures
        match tiles {
            Ok(tiles) => {
                &&& all_tiles_finite(raster@.tiles)
                &&& tiles_in_order(tile_entries(tiles@))
                &&& entries_map(tile_entries(tiles@)) == raster@.tiles
                &&& raster@.tiles.dom().finite()
                &&& tiles@.len() == raster@.tiles.dom().len()
            },
            Err(GpuExactLayerRecoveryBuildError::NonFinitePixel { tile, index }) => {
                first_bad_tile(raster@.tiles, tile, index as int)
            },
            Err(_) => false,
        },
{
    let tiles = ordered_tiles(raster);
    let ghost entries = tile_entries(tiles@);
    proof {
        lemma_order_is_unique(entries);
    }
    let mut i: usize = 0;
    while i < tiles.len()
        invariant
            entries == tile_entries(tiles@),
            tiles_in_order(entries),
            keys_unique(entries),
            entries_map(entries) == raster@.tiles,
            i <= tiles@.len(),
            forall|k: int|
                #![trigger entries[k]]
                0 <= k < i ==> pixels_finite(entries[k].1),
        decreases tiles@.len() - i,
    {
        assert(entries[i as int].1 == tiles@[i as int].pixels@);
        match first_nonfinite(&tiles[i].pixels) {
            Some(index) => {
                let tile = tiles[i].coord;
                proof {
                    lemma_entry_in_map(entries, i as int);
                    assert forall|other: TileCoord| #[trigger]
                        raster@.tiles.contains_key(other) && other.le(tile) && other
                            != tile implies pixels_finite(raster@.tiles[other]) by {
                        let k = choose|k: int|
                            0 <= k < entries.len() && (#[trigger] entries[k]).0 == other;
                        lemma_entry_in_map(entries, k);
                        if k > i {
                            assert(entries[i as int].0.le(entries[k].0));
                        }
                    }
                }
                return Err(GpuExactLayerRecoveryBuildError::NonFinitePixel { tile, index });
            },
            None => {},
        }
        i += 1;
    }
    proof {
        assert forall|tile: TileCoord| #[trigger]
            raster@.tiles.contains_key(tile) implies pixels_finite(raster@.tiles[tile]) by {
            let k = choose|k: int| 0 <= k < entries.len() && (#[trigger] entries[k]).0 == tile;
            lemma_entry_in_map(entries, k);
        }
        lemma_map_len(entries);
    }
    Ok(tiles)
}

/// The header of a command counts for part of it.
pub(crate) proof fn lemma_header_counted(tile_count: int, tile_len: int)
    requires
        tile_count >= 0,
        tile_len >= 0,
    ensures
        layer_byte_len(tile_count, tile_len) >= size_of::<LayerCommandHeader>(),
        tile_count * size_of::<LayerTileHeader>() >= 0,
        tile_count * tile_len >= 0,
{
    let tile_size = size_of::<LayerTileHeader>() as int;
    assert(tile_count * tile_size >= 0) by (nonlinear_arith)
        requires
            tile_count >= 0,
            tile_size >= 0,
    ;
    assert(tile_count * tile_len >= 0) by (nonlinear_arith)
        requires
            tile_count >= 0,
            tile_len >= 0,
    ;
}

fn retained_byte_len(tile_count: usize, tile_len: u32) -> (len: Option<u64>)
    ensures
        match len {
            Some(len) => len == layer_byte_len(tile_count as int, tile_len as int),
            None => layer_byte_len(tile_count as int, tile_len as int) > u64::MAX,
        },
{
    let command_size: u64 = core::mem::size_of::<LayerCommandHeader>() as u64;
    let tile_size: u64 = core::mem::size_of::<LayerTileHeader>() as u64;
    proof {
        lemma_header_counted(tile_count as int, tile_len as int);
    }
    let tile_bytes = match (tile_count as u64).checked_mul(tile_size) {
        Some(bytes) => bytes,
        None => {
            return None;
        },
    };
    let pixels = match (tile_count as u64).checked_mul(tile_len as u64) {
        Some(pixels) => pixels,
        None => {
            return None;
        },
    };
    let pixel_bytes = match pixels.checked_mul(PIXEL_BYTES) {
        Some(bytes) => bytes,
        None => {
            return None;
        },
    };
    let with_tiles = match command_size.checked_add(tile_bytes) {
        Some(bytes) => bytes,
        None => {
            return None;
        },
    };
    with_tiles.checked_add(pixel_bytes)
}

/// What comes of taking the pixels of a whole layer into a command.
pub open(crate) spec fn layer_captured(
    layer: LayerId,
    raster: RasterModel,
    built: Result<GpuExactLayerRecoveryCommand, GpuExactLayerRecoveryBuildError>,
) -> bool {
    match built {
        Ok(command) => {
            &&& raster.gesture is None
            &&& all_tiles_finite(raster.tiles)
            &&& command.wf()
            &&& command@.layer == layer
            &&& command@.geometry == raster.geometry
            &&& tiles_in_order(command@.tiles)
            &&& entries_map(command@.tiles) == raster.tiles
        },
        Err(GpuExactLayerRecoveryBuildError::GestureActive) => raster.gesture is Some,
        Err(GpuExactLayerRecoveryBuildError::NonFinitePixel { tile, index }) => {
            &&& raster.gesture is None
            &&& first_bad_tile(raster.tiles, tile, index as int)
        },
        Err(GpuExactLayerRecoveryBuildError::ByteCountOverflow) => {
            &&& raster.gesture is None
            &&& all_tiles_finite(raster.tiles)
            &&& layer_byte_len(
                raster.tiles.dom().len() as int,
                raster.geometry.tile_len(),
            ) > u64::MAX
        },
    }
}

impl GpuExactLayerRecoveryCommand {
    pub open(crate) spec fn wf(self) -> bool {
        &&& self@.valid()
        &&& self.retained_byte_len == self@.byte_len()
    }

    /// Captures a layer between two edits.
    pub fn from_raster(layer: LayerId, raster: &RasterLayer) -> (command: Result<
        GpuExactLayerRecoveryCommand,
        GpuExactLayerRecoveryBuildError,
    >)
        requires
            raster.wf(),
        ensures
            layer_captured(layer, raster@, command),
    {
        if raster.active_gesture_id().is_some() {
            return Err(GpuExactLayerRecoveryBuildError::GestureActive);
        }
        let tiles = match finite_tiles(raster) {
            Ok(tiles) => tiles,
            Err(error) => {
                return Err(error);
            },
        };
        let tile_size: u32 = raster.tile_size();
        let tile_len: u32 = tile_size * tile_size;
        match retained_byte_len(tiles.len(), tile_len) {
            Some(retained_byte_len) => Ok(
                GpuExactLayerRecoveryCommand {
                    layer,
                    width: raster.width(),
                    height: raster.height(),
                    tile_size,
                    tiles,
                    retained_byte_len,
                },
            ),
            None => Err(GpuExactLayerRecoveryBuildError::ByteCountOverflow),
        }
    }

    pub fn layer(&self) -> (layer: LayerId)
        ensures
            layer == self@.layer,
    {
        self.layer
    }

    pub fn dimensions(&self) -> (dimensions: [u32; 2])
        ensures
            dimensions == [self@.geometry.width as u32, self@.geometry.height as u32],
    {
        [self.width, self.height]
    }

    pub fn tile_size(&self) -> (tile_size: u32)
        ensures
            tile_size == self@.geometry.tile_size,
    {
        self.tile_size
    }

    pub fn tile_count(&self) -> (count: usize)
        ensures
            count == self@.tiles.len(),
    {
        self.tiles.len()
    }

    /// The captured tiles, row by row.
    pub fn tiles(&self) -> (tiles: &Vec<RasterTile>)
        ensures
            tile_entries(tiles@) == self@.tiles,
    {
        &self.tiles
    }

    pub fn retained_byte_len(&self) -> (len: u64)
        requires
            self.wf(),
        ensures
            len == self@.byte_len(),
    {
        self.retained_byte_len
    }

    /// The layer as it was captured. Tiles without color are left out.
    pub fn raster_layer(&self) -> (raster: Result<RasterLayer, RasterError>)
        requires
            self.wf(),
        ensures
            raster matches Ok(raster) && {
                &&& raster.wf()
                &&& raster@ == restored_layer(self@)
            },
    {
        let mut raster = match RasterLayer::new(self.width, self.height, self.tile_size) {
            Ok(raster) => raster,
            Err(error) => {
                return Err(error);
            },
        };
        let ghost entries = self@.tiles;
        proof {
            lemma_order_is_unique(entries);
            assert(entries.subrange(0, 0) =~= Seq::<(TileCoord, Seq<LinearRgba>)>::empty());
            assert(raster@.tiles =~= colored_tiles(entries_map(entries.subrange(0, 0))));
        }
        let mut i: usize = 0;
        while i < self.tiles.len()
            invariant
                self.wf(),
                entries == self@.tiles,
                keys_unique(entries),
                i <= entries.len(),
                raster.wf(),
                raster@ == (RasterModel {
                    tiles: colored_tiles(entries_map(entries.subrange(0, i as int))),
                    ..restored_layer(self@)
                }),
            decreases self.tiles@.len() - i,
        {
            let tile = &self.tiles[i];
            let ghost before = entries.subrange(0, i as int);
            proof {
                assert(entries[i as int] == (tile.coord, tile.pixels@));
                lemma_entry_in_map(entries, i as int);
                assert(!has_key(before, tile.coord)) by {
                    if has_key(before, tile.coord) {
                        let k = choose|k: int|
                            0 <= k < before.len() && (#[trigger] before[k]).0 == tile.coord;
                        assert(entries[k].0 != entries[i as int].0);
                    }
                }
                assert(keys_unique(before));
                lemma_pushed(before, tile.coord, tile.pixels@);
                assert(before.push(entries[i as int]) =~= entries.subrange(0, i as int + 1));
            }
            match raster.restore_shared_tile(tile.coord, share(&tile.pixels)) {
                Ok(_) => {},
                Err(error) => {
                    return Err(error);
                },
            }
            assert(raster@.tiles =~= colored_tiles(
                entries_map(entries.subrange(0, i as int + 1)),
            ));
            i += 1;
        }
        assert(entries.subrange(0, i as int) =~= entries);
        Ok(raster)
    }

    /// A second command that shares the pixels.
    pub fn duplicate(&self) -> (copy: GpuExactLayerRecoveryCommand)
        ensures
            copy@ == self@,
            self.wf() ==> copy.wf(),
    {
        let mut tiles: Vec<RasterTile> = Vec::new();
        let mut i: usize = 0;
        while i < self.tiles.len()
            invariant
                i <= self.tiles@.len(),
                tiles@ == self.tiles@.subrange(0, i as int),
            decreases self.tiles@.len() - i,
        {
            tiles.push(
                RasterTile { coord: self.tiles[i].coord, pixels: share(&self.tiles[i].pixels) },
            );
            assert(tiles@ =~= self.tiles@.subrange(0, i as int + 1));
            i += 1;
        }
        assert(tiles@ =~= self.tiles@);
        GpuExactLayerRecoveryCommand {
            layer: self.layer,
            width: self.width,
            height: self.height,
            tile_size: self.tile_size,
            tiles,
            retained_byte_len: self.retained_byte_len,
        }
    }
}

/// The layer that a command brings back: its pixels and nothing to undo.
pub open spec fn restored_layer(command: LayerCommandModel) -> RasterModel {
    RasterModel {
        geometry: command.geometry,
        tiles: colored_tiles(entries_map(command.tiles)),
        gesture: None,
        next_gesture: 1,
        undo_depth: 0,
    }
}

#[derive(Clone, Copy, Debug, PartialEq, Eq, Structural)]
pub struct GpuExactLayerRecoveryReplay {
    pub tiles_installed: u32,
    pub previous_tiles_discarded: u32,
}

impl Default for GpuExactLayerRecoveryReplay {
    fn default() -> (replay: GpuExactLayerRecoveryReplay)
        ensures
            replay.tiles_installed == 0,
            replay.previous_tiles_discarded == 0,
    {
        GpuExactLayerRecoveryReplay { tiles_installed: 0, previous_tiles_discarded: 0 }
    }
}

/// Why a layer is not replaced, if it is not.
pub open spec fn layer_replay_error(
    layer_id: LayerId,
    model: RasterModel,
    command: LayerCommandModel,
) -> Option<GpuExactLayerRecoveryReplayError> {
    if layer_id != command.layer {
        Some(
            GpuExactLayerRecoveryReplayError::LayerMismatch {
                expected: command.layer,
                actual: layer_id,
            },
        )
    } else if model.geometry != command.geometry {
        Some(
            GpuExactLayerRecoveryReplayError::GeometryMismatch {
                expected_dimensions: [
                    command.geometry.width as u32,
                    command.geometry.height as u32,
                ],
                actual_dimensions: [model.geometry.width as u32, model.geometry.height as u32],
                expected_tile_size: command.geometry.tile_size as u32,
                actual_tile_size: model.geometry.tile_size as u32,
            },
        )
    } else if model.tiles.dom().len() > u32::MAX || command.tiles.len() > u32::MAX {
        Some(GpuExactLayerRecoveryReplayError::TileCountOverflow)
    } else {
        None
    }
}

/// Replaces a layer as a whole, or leaves it as it was.
pub fn replay_exact_layer_recovery_command(
    layer_id: LayerId,
    layer: &mut RasterLayer,
    command: &GpuExactLayerRecoveryCommand,
) -> (replay: Result<GpuExactLayerRecoveryReplay, GpuExactLayerRecoveryReplayError>)
    requires
        old(layer).wf(),
        command.wf(),
    ensures
        final(layer).wf(),
        match replay {
            Ok(replay) => {
                &&& layer_replay_error(layer_id, old(layer)@, command@) is None
                &&& final(layer)@ == restored_layer(command@)
                &&& replay.tiles_installed == command@.tiles.len()
                &&& replay.previous_tiles_discarded == old(layer)@.tiles.dom().len()
            },
            Err(error) => {
                &&& layer_replay_error(layer_id, old(layer)@, command@) == Some(error)
                &&& *final(layer) == *old(layer)
            },
        },
{
    if layer_id.0 != command.layer.0 {
        return Err(
            GpuExactLayerRecoveryReplayError::LayerMismatch {
                expected: command.layer,
                actual: layer_id,
            },
        );
    }
    if layer.width() != command.width || layer.height() != command.height || layer.tile_size()
        != command.tile_size {
        return Err(
            GpuExactLayerRecoveryReplayError::GeometryMismatch {
                expected_dimensions: command.dimensions(),
                actual_dimensions: [layer.width(), layer.height()],
                expected_tile_size: command.tile_size,
                actual_tile_size: layer.tile_size(),
            },
        );
    }
    let discarded: usize = layer.allocated_tile_count();
    let installed: usize = command.tiles.len();
    if discarded > u32::MAX as usize || installed > u32::MAX as usize {
        return Err(GpuExactLayerRecoveryReplayError::TileCountOverflow);
    }
    match command.raster_layer() {
        Ok(replacement) => {
            *layer = replacement;
            Ok(
                GpuExactLayerRecoveryReplay {
                    tiles_installed: installed as u32,
                    previous_tiles_discarded: discarded as u32,
                },
            )
        },
        Err(error) => Err(GpuExactLayerRecoveryReplayError::Raster(error)),
    }
}

/// A layer that was captured comes back with every pixel as it was.
pub proof fn law_captured_layer_keeps_its_pixels(
    source: RasterModel,
    command: LayerCommandModel,
    x: int,
    y: int,
)
    requires
        source.geometry.valid(),
        tiles_valid(source.geometry, source.tiles),
        command.geometry == source.geometry,
        entries_map(command.tiles) == source.tiles,
        0 <= x < source.geometry.width,
        0 <= y < source.geometry.height,
    ensures
        pixel_at(command.geometry, restored_layer(command).tiles, x, y) == pixel_at(
            source.geometry,
            source.tiles,
            x,
            y,
        ),
{
    let size = source.geometry.tile_size;
    let tile = source.geometry.tile_of(x, y);
    lemma_grid_position(size, x);
    lemma_grid_position(size, y);
    lemma_grid_bound(size, size, x % size, y % size);
    if source.tiles.contains_key(tile) {
        let index = source.geometry.index_of(x, y);
        assert(0 <= index < source.tiles[tile].len());
        if crate::raster_layer::all_transparent(source.tiles[tile]) {
            assert(source.tiles[tile][index] == transparent());
        }
    }
}

} // verus!
