//! Commands that put exact pixels back into a layer.

use crate::document::{DocumentRevision, LayerId};
use crate::gpu_cpu_mirror::{copy_shapes, patch_shapes, GpuMirrorPatchBatch, GpuMirrorPatchRegion};
use crate::gpu_document_mirror::{batch_models, GpuMirrorReadbackPlan, ReadbackPlanModel};
use crate::gpu_document_undo::{block_aligned, GPU_UNDO_BLOCK_SIZE};
use crate::gpu_mirror_reconciler::shapes_match;
use crate::keyed_map::Key;
use crate::ordering::{
    in_order, lemma_sorted, lemma_sorted_contains, sort, stable_sorted, Ranked,
};
use crate::raster::{
    first_nonfinite, pixel_finite, rectangles_overlap, LinearRgba, Rect, RectU32, TileCoord,
};
use crate::raster_layer::TilePixels;
use crate::shared::share;
use vstd::layout::size_of;
use vstd::prelude::*;

pub use crate::gpu_raster_replay::{
    replay_exact_raster_recovery_command, GpuExactRasterRecoveryReplay,
    GpuExactRasterRecoveryReplayError,
};

verus! {

/// What a command holds besides its tiles: its layer and tile size, where the tiles lie, how many
/// regions and pixels there are, and what it counts for.
pub type ExactCommandHeader = (LayerId, u32, &'static [u8], usize, usize, u64);

/// What a tile of a command holds besides its regions: its place, whether it holds pixels, and where
/// the regions lie.
pub type ExactTileHeader = (TileCoord, bool, &'static [u8]);

/// What a region of a command holds besides its pixels: its bounds, and where the pixels lie.
pub type ExactRegionHeader = (RectU32, &'static [u8]);

/// What a pixel counts for, in bytes.
pub const PIXEL_BYTES: u64 = 16;

#[derive(Clone, Copy, Debug, PartialEq, Eq, Structural)]
pub enum GpuExactRasterRecoveryBuildError {
    InvalidTileSize,
    EmptyCommand,
    MixedLayers { first: LayerId, second: LayerId },
    RegionOutsideTile { tile: TileCoord, bounds: RectU32, tile_size: u32 },
    RegionNotBlockAligned { tile: TileCoord, bounds: RectU32, block_size: u32 },
    PixelCountOverflow,
    InvalidPixelCount { tile: TileCoord, expected: usize, actual: usize },
    NonFinitePixel { tile: TileCoord, index: usize },
    ConflictingResidentState(TileCoord),
    OverlappingRegions(TileCoord),
    ByteCountOverflow,
}

#[derive(Clone, Debug, PartialEq)]
pub(crate) struct GpuExactRasterRecoveryRegion {
    pub(crate) local_bounds: RectU32,
    pub(crate) pixels: TilePixels,
}

pub struct ExactRegionModel {
    pub bounds: Rect,
    pub pixels: Seq<LinearRgba>,
}

impl View for GpuExactRasterRecoveryRegion {
    type V = ExactRegionModel;

    open(crate) spec fn view(&self) -> ExactRegionModel {
        ExactRegionModel { bounds: self.local_bounds@, pixels: self.pixels@ }
    }
}

#[derive(Clone, Debug, PartialEq)]
pub(crate) struct GpuExactRasterRecoveryTile {
    pub(crate) coord: TileCoord,
    pub(crate) initialized: bool,
    pub(crate) regions: Vec<GpuExactRasterRecoveryRegion>,
}

pub struct ExactTileModel {
    pub coord: TileCoord,
    pub initialized: bool,
    pub regions: Seq<ExactRegionModel>,
}

impl View for GpuExactRasterRecoveryTile {
    type V = ExactTileModel;

    open(crate) spec fn view(&self) -> ExactTileModel {
        ExactTileModel {
            coord: self.coord,
            initialized: self.initialized,
            regions: Seq::new(self.regions@.len(), |i: int| self.regions@[i]@),
        }
    }
}

pub(crate) open(crate) spec fn tile_models(tiles: Seq<GpuExactRasterRecoveryTile>) -> Seq<
    ExactTileModel,
> {
    Seq::new(tiles.len(), |i: int| tiles[i]@)
}

/// Exact pixels for some tiles of one layer.
#[derive(Clone, Debug, PartialEq)]
pub struct GpuExactRasterRecoveryCommand {
    pub(crate) layer: LayerId,
    pub(crate) tile_size: u32,
    pub(crate) tiles: Vec<GpuExactRasterRecoveryTile>,
    pub(crate) region_count: usize,
    pub(crate) pixel_count: usize,
    pub(crate) retained_byte_len: u64,
}

pub struct ExactCommandModel {
    pub layer: LayerId,
    pub tile_size: int,
    pub tiles: Seq<ExactTileModel>,
    pub region_count: int,
    pub pixel_count: int,
    pub retained_byte_len: int,
}

impl View for GpuExactRasterRecoveryCommand {
    type V = ExactCommandModel;

    open(crate) spec fn view(&self) -> ExactCommandModel {
        ExactCommandModel {
            layer: self.layer,
            tile_size: self.tile_size as int,
            tiles: tile_models(self.tiles@),
            region_count: self.region_count as int,
            pixel_count: self.pixel_count as int,
            retained_byte_len: self.retained_byte_len as int,
        }
    }
}

pub open spec fn exact_region_valid(tile_size: int, region: ExactRegionModel) -> bool {
    &&& region.bounds.nonempty()
    &&& 0 <= region.bounds.min_x
    &&& 0 <= region.bounds.min_y
    &&& region.bounds.max_x <= tile_size
    &&& region.bounds.max_y <= tile_size
    &&& region.pixels.len() == region.bounds.area()
}

/// Tiles in order, none twice, with regions that lie in them.
pub open spec fn exact_tiles_valid(tile_size: int, tiles: Seq<ExactTileModel>) -> bool {
    &&& forall|i: int, j: int|
        #![trigger tiles[i], tiles[j]]
        0 <= i < j < tiles.len() ==> tiles[i].coord.le(tiles[j].coord) && tiles[i].coord
            != tiles[j].coord
    &&& forall|t: int, r: int|
        #![trigger tiles[t].regions[r]]
        0 <= t < tiles.len() && 0 <= r < tiles[t].regions.len() ==> exact_region_valid(
            tile_size,
            tiles[t].regions[r],
        )
}

impl ExactCommandModel {
    pub open spec fn valid(self) -> bool {
        &&& self.tile_size > 0
        &&& exact_tiles_valid(self.tile_size, self.tiles)
        &&& size_of::<ExactCommandHeader>() <= self.retained_byte_len <= u64::MAX
    }
}

/// What is wrong with the `i`th region by itself, if anything.
pub open spec fn region_fault(
    tile_size: u32,
    regions: Seq<GpuMirrorPatchRegion>,
    i: int,
) -> Option<GpuExactRasterRecoveryBuildError> {
    let region = regions[i];
    let bounds = region.local_bounds@;
    let tile = region.key.tile;
    let expected = if region.initialized {
        bounds.area()
    } else {
        0
    };
    if region.key.layer != regions[0].key.layer {
        Some(
            GpuExactRasterRecoveryBuildError::MixedLayers {
                first: regions[0].key.layer,
                second: region.key.layer,
            },
        )
    } else if bounds.max_x > tile_size || bounds.max_y > tile_size {
        Some(
            GpuExactRasterRecoveryBuildError::RegionOutsideTile {
                tile,
                bounds: region.local_bounds,
                tile_size,
            },
        )
    } else if !block_aligned(bounds) {
        Some(
            GpuExactRasterRecoveryBuildError::RegionNotBlockAligned {
                tile,
                bounds: region.local_bounds,
                block_size: GPU_UNDO_BLOCK_SIZE,
            },
        )
    } else if expected > usize::MAX {
        Some(GpuExactRasterRecoveryBuildError::PixelCountOverflow)
    } else if region.pixels@.len() != expected {
        Some(
            GpuExactRasterRecoveryBuildError::InvalidPixelCount {
                tile,
                expected: expected as usize,
                actual: region.pixels@.len() as usize,
            },
        )
    } else if exists|k: int|
        0 <= k < region.pixels@.len() && !pixel_finite(#[trigger] region.pixels@[k]) {
        Some(
            GpuExactRasterRecoveryBuildError::NonFinitePixel {
                tile,
                index: first_bad_pixel(region.pixels@) as usize,
            },
        )
    } else if total_pixels(regions.subrange(0, i + 1)) > usize::MAX {
        Some(GpuExactRasterRecoveryBuildError::ByteCountOverflow)
    } else {
        None
    }
}

/// The first pixel that holds an infinity or a NaN.
pub open spec fn first_bad_pixel(pixels: Seq<LinearRgba>) -> int {
    choose|k: int|
        0 <= k < pixels.len() && !pixel_finite(#[trigger] pixels[k]) && forall|j: int|
            0 <= j < k ==> pixel_finite(#[trigger] pixels[j])
}

pub open spec fn total_pixels(regions: Seq<GpuMirrorPatchRegion>) -> int
    decreases regions.len(),
{
    if regions.len() == 0 {
        0
    } else {
        total_pixels(regions.drop_last()) + regions.last().pixels@.len()
    }
}

/// Two regions of the tile disagree on whether it holds pixels.
pub open spec fn tile_conflicts(regions: Seq<GpuMirrorPatchRegion>, tile: TileCoord) -> bool {
    exists|i: int, j: int|
        #![trigger regions[i], regions[j]]
        0 <= i < j < regions.len() && regions[i].key.tile == tile && regions[j].key.tile == tile
            && regions[i].initialized != regions[j].initialized
}

/// Two regions of the tile share a pixel.
pub open spec fn tile_overlaps(regions: Seq<GpuMirrorPatchRegion>, tile: TileCoord) -> bool {
    exists|i: int, j: int|
        #![trigger regions[i], regions[j]]
        0 <= i < j < regions.len() && regions[i].key.tile == tile && regions[j].key.tile == tile
            && regions[i].initialized && regions[j].initialized
            && regions[i].local_bounds@.overlaps(regions[j].local_bounds@)
}

/// What is wrong with the regions of one tile together, if anything.
pub open spec fn tile_fault(regions: Seq<GpuMirrorPatchRegion>, tile: TileCoord) -> Option<
    GpuExactRasterRecoveryBuildError,
> {
    if tile_conflicts(regions, tile) {
        Some(GpuExactRasterRecoveryBuildError::ConflictingResidentState(tile))
    } else if tile_overlaps(regions, tile) {
        Some(GpuExactRasterRecoveryBuildError::OverlappingRegions(tile))
    } else {
        None
    }
}

/// The tiles that the regions name.
pub open spec fn named_tiles(regions: Seq<GpuMirrorPatchRegion>) -> Set<TileCoord> {
    Set::new(
        |tile: TileCoord|
            exists|i: int| 0 <= i < regions.len() && (#[trigger] regions[i]).key.tile == tile,
    )
}

/// What a command with these regions counts for, in bytes.
pub open spec fn exact_byte_len(tiles: int, regions: int, pixels: int) -> int {
    size_of::<ExactCommandHeader>() + tiles * size_of::<ExactTileHeader>() + regions * size_of::<
        ExactRegionHeader,
    >() + pixels * PIXEL_BYTES
}

/// No region is wrong by itself.
pub open spec fn regions_sound(tile_size: u32, regions: Seq<GpuMirrorPatchRegion>, n: int) -> bool {
    forall|i: int|
        #![trigger regions[i]]
        0 <= i < n ==> region_fault(tile_size, regions, i) is None
}

/// Every tile before `tile` in row order is in order.
pub open spec fn earlier_tiles_sound(
    regions: Seq<GpuMirrorPatchRegion>,
    tile: TileCoord,
) -> bool {
    forall|i: int|
        0 <= i < regions.len() && (#[trigger] regions[i]).key.tile.le(tile)
            && regions[i].key.tile != tile ==> tile_fault(regions, regions[i].key.tile) is None
}

/// Whether `error` is what the check of these regions finds.
pub open spec fn build_fails_with(
    tile_size: u32,
    regions: Seq<GpuMirrorPatchRegion>,
    error: GpuExactRasterRecoveryBuildError,
) -> bool {
    let n = regions.len() as int;
    if tile_size == 0 {
        error == GpuExactRasterRecoveryBuildError::InvalidTileSize
    } else if n == 0 {
        error == GpuExactRasterRecoveryBuildError::EmptyCommand
    } else if !regions_sound(tile_size, regions, n) {
        exists|i: int|
            #![trigger regions[i]]
            0 <= i < n && regions_sound(tile_size, regions, i) && region_fault(
                tile_size,
                regions,
                i,
            ) == Some(error)
    } else if exists|i: int|
        #![trigger regions[i]]
        0 <= i < n && tile_fault(regions, regions[i].key.tile) is Some {
        exists|i: int|
            #![trigger regions[i]]
            0 <= i < n && tile_fault(regions, regions[i].key.tile) == Some(error)
                && earlier_tiles_sound(regions, regions[i].key.tile)
    } else {
        &&& error == GpuExactRasterRecoveryBuildError::ByteCountOverflow
        &&& exact_byte_len(named_tiles(regions).len() as int, n, total_pixels(regions)) > u64::MAX
    }
}

/// Whether a command can be made of these regions.
pub open spec fn build_succeeds(tile_size: u32, regions: Seq<GpuMirrorPatchRegion>) -> bool {
    let n = regions.len() as int;
    &&& tile_size > 0
    &&& n > 0
    &&& regions_sound(tile_size, regions, n)
    &&& forall|i: int|
        #![trigger regions[i]]
        0 <= i < n ==> tile_fault(regions, regions[i].key.tile) is None
    &&& exact_byte_len(named_tiles(regions).len() as int, n, total_pixels(regions)) <= u64::MAX
}

pub(crate) struct RecoveryMetrics {
    pub(crate) layer: LayerId,
    pub(crate) pixel_count: usize,
    pub(crate) retained_byte_len: u64,
}

pub open spec fn borrowed(regions: Seq<&GpuMirrorPatchRegion>) -> Seq<GpuMirrorPatchRegion> {
    Seq::new(regions.len(), |i: int| *regions[i])
}

pub(crate) proof fn lemma_total_pixels_grow(regions: Seq<GpuMirrorPatchRegion>, at: int)
    requires
        0 <= at <= regions.len(),
    ensures
        0 <= total_pixels(regions.subrange(0, at)) <= total_pixels(regions),
    decreases regions.len(),
{
    if at == regions.len() {
        assert(regions.subrange(0, at) =~= regions);
        if at > 0 {
            let rest = regions.drop_last();
            lemma_total_pixels_grow(rest, at - 1);
            assert(rest.subrange(0, at - 1) =~= rest);
        }
    } else {
        let rest = regions.drop_last();
        lemma_total_pixels_grow(rest, at);
        assert(rest.subrange(0, at) =~= regions.subrange(0, at));
    }
}

/// Checks the regions one after the other.
fn check_region(
    tile_size: u32,
    regions: &Vec<&GpuMirrorPatchRegion>,
    i: usize,
    pixels_before: usize,
) -> (checked: Result<usize, GpuExactRasterRecoveryBuildError>)
    requires
        i < regions@.len(),
        pixels_before == total_pixels(borrowed(regions@).subrange(0, i as int)),
    ensures
        match checked {
            Ok(pixels) => {
                &&& region_fault(tile_size, borrowed(regions@), i as int) is None
                &&& pixels == total_pixels(borrowed(regions@).subrange(0, i as int + 1))
                &&& borrowed(regions@)[i as int].local_bounds@.nonempty()
            },
            Err(error) => region_fault(tile_size, borrowed(regions@), i as int) == Some(error),
        },
{
    let ghost all = borrowed(regions@);
    let region = regions[i];
    let tile = region.key.tile;
    let bounds = region.local_bounds;
    if region.key.layer.0 != regions[0].key.layer.0 {
        return Err(
            GpuExactRasterRecoveryBuildError::MixedLayers {
                first: regions[0].key.layer,
                second: region.key.layer,
            },
        );
    }
    if bounds.max_x() > tile_size || bounds.max_y() > tile_size {
        return Err(
            GpuExactRasterRecoveryBuildError::RegionOutsideTile { tile, bounds, tile_size },
        );
    }
    if bounds.min_x() % GPU_UNDO_BLOCK_SIZE != 0 || bounds.min_y() % GPU_UNDO_BLOCK_SIZE != 0
        || bounds.max_x() % GPU_UNDO_BLOCK_SIZE != 0 || bounds.max_y() % GPU_UNDO_BLOCK_SIZE != 0 {
        return Err(
            GpuExactRasterRecoveryBuildError::RegionNotBlockAligned {
                tile,
                bounds,
                block_size: GPU_UNDO_BLOCK_SIZE,
            },
        );
    }
    let expected: usize = if region.initialized {
        let area: u64 = bounds.area();
        if area > usize::MAX as u64 {
            return Err(GpuExactRasterRecoveryBuildError::PixelCountOverflow);
        }
        area as usize
    } else {
        0
    };
    if region.pixels.len() != expected {
        return Err(
            GpuExactRasterRecoveryBuildError::InvalidPixelCount {
                tile,
                expected,
                actual: region.pixels.len(),
            },
        );
    }
    match first_nonfinite(&region.pixels) {
        Some(index) => {
            proof {
                let pixels = region.pixels@;
                assert(!pixel_finite(pixels[index as int]));
                let found = first_bad_pixel(pixels);
                assert(found == index) by {
                    if found < index {
                        assert(pixel_finite(pixels[found]));
                    } else if found > index {
                        assert(pixel_finite(pixels[index as int]));
                    }
                }
            }
            return Err(GpuExactRasterRecoveryBuildError::NonFinitePixel { tile, index });
        },
        None => {},
    }
    proof {
        let prefix = all.subrange(0, i as int + 1);
        assert(prefix.drop_last() =~= all.subrange(0, i as int));
        assert(prefix.last() == all[i as int]);
    }
    match pixels_before.checked_add(region.pixels.len()) {
        Some(pixels) => Ok(pixels),
        None => Err(GpuExactRasterRecoveryBuildError::ByteCountOverflow),
    }
}

/// The tiles that the regions name, in row order, each once.
fn distinct_tiles(regions: &Vec<&GpuMirrorPatchRegion>) -> (tiles: Vec<TileCoord>)
    ensures
        tiles@.no_duplicates(),
        tiles@.to_set() == named_tiles(borrowed(regions@)),
        in_order(tiles@),
        named_tiles(borrowed(regions@)).finite(),
        tiles@.len() == named_tiles(borrowed(regions@)).len(),
{
    let ghost all = borrowed(regions@);
    let mut tiles: Vec<TileCoord> = Vec::new();
    let mut i: usize = 0;
    while i < regions.len()
        invariant
            all == borrowed(regions@),
            i <= regions@.len(),
            tiles@.no_duplicates(),
            forall|j: int|
                0 <= j < i ==> tiles@.contains((#[trigger] all[j]).key.tile),
            forall|k: int|
                0 <= k < tiles@.len() ==> exists|j: int|
                    0 <= j < i && (#[trigger] all[j]).key.tile == #[trigger] tiles@[k],
        decreases regions@.len() - i,
    {
        let tile = regions[i].key.tile;
        assert(all[i as int].key.tile == tile);
        let ghost before = tiles@;
        if !contains_tile(&tiles, tile) {
            tiles.push(tile);
            assert(tiles@.contains(tile)) by {
                assert(tiles@[before.len() as int] == tile);
            }
            assert forall|j: int| 0 <= j < i implies tiles@.contains(
                (#[trigger] all[j]).key.tile,
            ) by {
                let k = choose|k: int| 0 <= k < before.len() && before[k] == all[j].key.tile;
                assert(tiles@[k] == all[j].key.tile);
            }
        }
        assert forall|k: int| 0 <= k < tiles@.len() implies exists|j: int|
            0 <= j < i + 1 && (#[trigger] all[j]).key.tile == #[trigger] tiles@[k] by {
            if k < before.len() {
                let j = choose|j: int| 0 <= j < i && (#[trigger] all[j]).key.tile == before[k];
                assert(all[j].key.tile == tiles@[k]);
            } else {
                assert(all[i as int].key.tile == tiles@[k]);
            }
        }
        i += 1;
    }
    let ghost unsorted = tiles@;
    let sorted = sort(tiles);
    proof {
        lemma_sorted(unsorted);
        lemma_sorted_distinct(unsorted);
        assert(sorted@.to_set() =~= named_tiles(all)) by {
            assert forall|tile: TileCoord| sorted@.to_set().contains(tile) == named_tiles(
                all,
            ).contains(tile) by {
                lemma_sorted_contains(unsorted, tile);
                if unsorted.contains(tile) {
                    let k = choose|k: int| 0 <= k < unsorted.len() && unsorted[k] == tile;
                    let j = choose|j: int|
                        0 <= j < all.len() && (#[trigger] all[j]).key.tile == unsorted[k];
                    assert(all[j].key.tile == tile);
                }
                if named_tiles(all).contains(tile) {
                    let j = choose|j: int|
                        0 <= j < all.len() && (#[trigger] all[j]).key.tile == tile;
                    assert(unsorted.contains(all[j].key.tile));
                }
            }
        }
        sorted@.unique_seq_to_set();
        vstd::seq_lib::seq_to_set_is_finite(sorted@);
    }
    sorted
}

fn contains_tile(tiles: &Vec<TileCoord>, tile: TileCoord) -> (contains: bool)
    ensures
        contains == tiles@.contains(tile),
{
    let mut i: usize = 0;
    while i < tiles.len()
        invariant
            i <= tiles@.len(),
            forall|j: int| 0 <= j < i ==> #[trigger] tiles@[j] != tile,
        decreases tiles@.len() - i,
    {
        if tiles[i].same(tile) {
            assert(tiles@[i as int] == tile);
            return true;
        }
        i += 1;
    }
    false
}

proof fn lemma_sorted_distinct<T: Ranked>(items: Seq<T>)
    requires
        items.no_duplicates(),
    ensures
        stable_sorted(items).no_duplicates(),
{
    lemma_sorted(items);
    items.lemma_multiset_has_no_duplicates();
    let sorted = stable_sorted(items);
    sorted.lemma_multiset_has_no_duplicates_conv();
}

/// Checks the regions of one tile together.
fn check_tile(regions: &Vec<&GpuMirrorPatchRegion>, tile: TileCoord) -> (checked: Result<
    (),
    GpuExactRasterRecoveryBuildError,
>)
    ensures
        match checked {
            Ok(_) => tile_fault(borrowed(regions@), tile) is None,
            Err(error) => tile_fault(borrowed(regions@), tile) == Some(error),
        },
{
    let ghost all = borrowed(regions@);
    let mut overlap = false;
    let mut i: usize = 0;
    while i < regions.len()
        invariant
            all == borrowed(regions@),
            i <= regions@.len(),
            forall|a: int, b: int|
                #![trigger all[a], all[b]]
                0 <= a < i && a < b < all.len() && all[a].key.tile == tile && all[b].key.tile
                    == tile ==> all[a].initialized == all[b].initialized,
            overlap ==> tile_overlaps(all, tile),
            !overlap ==> forall|a: int, b: int|
                #![trigger all[a], all[b]]
                0 <= a < i && a < b < all.len() && all[a].key.tile == tile && all[b].key.tile
                    == tile && all[a].initialized && all[b].initialized
                    ==> !all[a].local_bounds@.overlaps(all[b].local_bounds@),
        decreases regions@.len() - i,
    {
        assert(all[i as int] == *regions@[i as int]);
        if regions[i].key.tile.same(tile) {
            let mut j: usize = i + 1;
            while j < regions.len()
                invariant
                    all == borrowed(regions@),
                    i < j <= regions@.len(),
                    all[i as int].key.tile == tile,
                    forall|b: int|
                        #![trigger all[b]]
                        i < b < j && all[b].key.tile == tile ==> all[i as int].initialized
                            == all[b].initialized,
                    overlap ==> tile_overlaps(all, tile),
                    !overlap ==> forall|a: int, b: int|
                        #![trigger all[a], all[b]]
                        0 <= a < i && a < b < all.len() && all[a].key.tile == tile
                            && all[b].key.tile == tile && all[a].initialized && all[b].initialized
                            ==> !all[a].local_bounds@.overlaps(all[b].local_bounds@),
                    !overlap ==> forall|b: int|
                        #![trigger all[b]]
                        i < b < j && all[b].key.tile == tile && all[i as int].initialized
                            && all[b].initialized ==> !all[i as int].local_bounds@.overlaps(
                            all[b].local_bounds@,
                        ),
                decreases regions@.len() - j,
            {
                assert(all[j as int] == *regions@[j as int]);
                if regions[j].key.tile.same(tile) {
                    if regions[i].initialized != regions[j].initialized {
                        assert(tile_conflicts(all, tile));
                        return Err(
                            GpuExactRasterRecoveryBuildError::ConflictingResidentState(tile),
                        );
                    }
                    if regions[i].initialized && rectangles_overlap(
                        regions[i].local_bounds,
                        regions[j].local_bounds,
                    ) {
                        assert(all[i as int].local_bounds@.overlaps(all[j as int].local_bounds@));
                        assert(tile_overlaps(all, tile));
                        overlap = true;
                    }
                }
                j += 1;
            }
        }
        i += 1;
    }
    assert(!tile_conflicts(all, tile));
    if overlap {
        Err(GpuExactRasterRecoveryBuildError::OverlappingRegions(tile))
    } else {
        Ok(())
    }
}

/// What a command counts for, unless that is too much to count.
fn retained_byte_len(tile_count: usize, region_count: usize, pixel_count: usize) -> (len: Option<
    u64,
>)
    ensures
        match len {
            Some(len) => len == exact_byte_len(
                tile_count as int,
                region_count as int,
                pixel_count as int,
            ),
            None => exact_byte_len(tile_count as int, region_count as int, pixel_count as int)
                > u64::MAX,
        },
{
    let command_size: u64 = core::mem::size_of::<ExactCommandHeader>() as u64;
    let tile_size: u64 = core::mem::size_of::<ExactTileHeader>() as u64;
    let region_size: u64 = core::mem::size_of::<ExactRegionHeader>() as u64;
    proof {
        lemma_header_counted(tile_count as int, region_count as int, pixel_count as int);
    }
    let tile_bytes = match (tile_count as u64).checked_mul(tile_size) {
        Some(bytes) => bytes,
        None => {
            return None;
        },
    };
    let region_bytes = match (region_count as u64).checked_mul(region_size) {
        Some(bytes) => bytes,
        None => {
            return None;
        },
    };
    let pixel_bytes = match (pixel_count as u64).checked_mul(PIXEL_BYTES) {
        Some(bytes) => bytes,
        None => {
            return None;
        },
    };
    let with_tiles = match command_size.checked_add(tile_bytes) {
        Some(bytes) => bytes,
        None => {
            return None;
        },
    };
    let with_regions = match with_tiles.checked_add(region_bytes) {
        Some(bytes) => bytes,
        None => {
            return None;
        },
    };
    with_regions.checked_add(pixel_bytes)
}

/// Checks that the regions make one command, and counts what it retains.
pub(crate) fn validate_regions(tile_size: u32, regions: &Vec<&GpuMirrorPatchRegion>) -> (metrics:
    Result<RecoveryMetrics, GpuExactRasterRecoveryBuildError>)
    ensures
        ({
            let all = borrowed(regions@);
            match metrics {
                Ok(metrics) => {
                    &&& build_succeeds(tile_size, all)
                    &&& metrics.layer == all[0].key.layer
                    &&& metrics.pixel_count == total_pixels(all)
                    &&& metrics.retained_byte_len == exact_byte_len(
                        named_tiles(all).len() as int,
                        all.len() as int,
                        total_pixels(all),
                    )
                    &&& forall|i: int|
                        0 <= i < all.len() ==> (#[trigger] all[i]).local_bounds@.nonempty()
                },
                Err(error) => build_fails_with(tile_size, all, error),
            }
        }),
{
    let ghost all = borrowed(regions@);
    if tile_size == 0 {
        return Err(GpuExactRasterRecoveryBuildError::InvalidTileSize);
    }
    if regions.len() == 0 {
        return Err(GpuExactRasterRecoveryBuildError::EmptyCommand);
    }
    let layer = regions[0].key.layer;
    let mut pixel_count: usize = 0;
    let mut i: usize = 0;
    assert(all.subrange(0, 0) =~= Seq::<GpuMirrorPatchRegion>::empty());
    while i < regions.len()
        invariant
            all == borrowed(regions@),
            tile_size > 0,
            regions@.len() > 0,
            i <= regions@.len(),
            regions_sound(tile_size, all, i as int),
            pixel_count == total_pixels(all.subrange(0, i as int)),
            forall|j: int| 0 <= j < i ==> (#[trigger] all[j]).local_bounds@.nonempty(),
        decreases regions@.len() - i,
    {
        match check_region(tile_size, regions, i, pixel_count) {
            Ok(pixels) => {
                pixel_count = pixels;
            },
            Err(error) => {
                proof {
                    assert(region_fault(tile_size, all, i as int) is Some);
                    assert(all[i as int] == all[i as int]);
                    assert(!regions_sound(tile_size, all, all.len() as int));
                }
                return Err(error);
            },
        }
        i += 1;
    }
    assert(all.subrange(0, i as int) =~= all);
    let tiles = distinct_tiles(regions);
    let mut t: usize = 0;
    while t < tiles.len()
        invariant
            all == borrowed(regions@),
            tile_size > 0,
            regions@.len() > 0,
            regions_sound(tile_size, all, all.len() as int),
            tiles@.no_duplicates(),
            tiles@.to_set() == named_tiles(all),
            in_order(tiles@),
            t <= tiles@.len(),
            forall|k: int| 0 <= k < t ==> tile_fault(all, #[trigger] tiles@[k]) is None,
        decreases tiles@.len() - t,
    {
        let tile = tiles[t];
        match check_tile(regions, tile) {
            Ok(_) => {},
            Err(error) => {
                proof {
                    lemma_first_faulty_tile(all, tiles@, t as int);
                    assert(tiles@.to_set().contains(tile));
                    let i = choose|i: int|
                        0 <= i < all.len() && (#[trigger] all[i]).key.tile == tile;
                    assert(tile_fault(all, all[i].key.tile) == Some(error));
                }
                return Err(error);
            },
        }
        t += 1;
    }
    proof {
        assert forall|i: int|
            #![trigger all[i]]
            0 <= i < all.len() implies tile_fault(all, all[i].key.tile) is None by {
            assert(named_tiles(all).contains(all[i].key.tile));
            assert(tiles@.to_set().contains(all[i].key.tile));
            let k = choose|k: int| 0 <= k < tiles@.len() && tiles@[k] == all[i].key.tile;
            assert(tile_fault(all, tiles@[k]) is None);
        }
    }
    match retained_byte_len(tiles.len(), regions.len(), pixel_count) {
        Some(retained_byte_len) => Ok(RecoveryMetrics { layer, pixel_count, retained_byte_len }),
        None => Err(GpuExactRasterRecoveryBuildError::ByteCountOverflow),
    }
}

proof fn lemma_first_faulty_tile(
    regions: Seq<GpuMirrorPatchRegion>,
    tiles: Seq<TileCoord>,
    t: int,
)
    requires
        tiles.no_duplicates(),
        tiles.to_set() == named_tiles(regions),
        in_order(tiles),
        0 <= t < tiles.len(),
        forall|k: int| 0 <= k < t ==> tile_fault(regions, #[trigger] tiles[k]) is None,
    ensures
        earlier_tiles_sound(regions, tiles[t]),
{
    assert forall|i: int|
        0 <= i < regions.len() && (#[trigger] regions[i]).key.tile.le(tiles[t])
            && regions[i].key.tile != tiles[t] implies tile_fault(
        regions,
        regions[i].key.tile,
    ) is None by {
        let tile = regions[i].key.tile;
        assert(named_tiles(regions).contains(tile));
        assert(tiles.to_set().contains(tile));
        let k = choose|k: int| 0 <= k < tiles.len() && tiles[k] == tile;
        if k > t {
            assert(tiles[t].le(tiles[k]));
        }
        assert(tile_fault(regions, tiles[k]) is None);
    }
}

/// The tiles after one region more. A tile without pixels needs no regions.
pub open spec fn group_region(
    tiles: Seq<ExactTileModel>,
    region: GpuMirrorPatchRegion,
) -> Seq<ExactTileModel> {
    let piece = ExactRegionModel { bounds: region.local_bounds@, pixels: region.pixels@ };
    if tiles.len() > 0 && tiles.last().coord == region.key.tile {
        let last = tiles.last();
        tiles.drop_last().push(
            ExactTileModel {
                regions: if last.initialized {
                    last.regions.push(piece)
                } else {
                    last.regions
                },
                ..last
            },
        )
    } else {
        tiles.push(
            ExactTileModel {
                coord: region.key.tile,
                initialized: region.initialized,
                regions: if region.initialized {
                    seq![piece]
                } else {
                    Seq::empty()
                },
            },
        )
    }
}

/// Regions that stand in order, tile by tile.
pub open spec fn grouped(regions: Seq<GpuMirrorPatchRegion>) -> Seq<ExactTileModel>
    decreases regions.len(),
{
    if regions.len() == 0 {
        Seq::empty()
    } else {
        group_region(grouped(regions.drop_last()), regions.last())
    }
}

/// The command that checked regions make.
pub open spec fn exact_command(
    tile_size: u32,
    checked: Seq<GpuMirrorPatchRegion>,
    regions: Seq<GpuMirrorPatchRegion>,
) -> ExactCommandModel {
    ExactCommandModel {
        layer: checked[0].key.layer,
        tile_size: tile_size as int,
        tiles: grouped(stable_sorted(regions)),
        region_count: regions.len() as int,
        pixel_count: total_pixels(checked),
        retained_byte_len: exact_byte_len(
            named_tiles(checked).len() as int,
            checked.len() as int,
            total_pixels(checked),
        ),
    }
}

/// A region that a tile of the given size can take, if it brings pixels at all.
pub open spec fn patch_fits(tile_size: u32, region: GpuMirrorPatchRegion) -> bool {
    &&& region.local_bounds@.nonempty()
    &&& region.initialized ==> exact_region_valid(
        tile_size as int,
        ExactRegionModel { bounds: region.local_bounds@, pixels: region.pixels@ },
    )
}

/// Regions that agree on which tiles hold pixels.
pub open spec fn states_agree(regions: Seq<GpuMirrorPatchRegion>) -> bool {
    forall|i: int, j: int|
        #![trigger regions[i], regions[j]]
        0 <= i < regions.len() && 0 <= j < regions.len() && regions[i].key.tile
            == regions[j].key.tile ==> regions[i].initialized == regions[j].initialized
}

pub(crate) proof fn lemma_grouped_valid(tile_size: u32, regions: Seq<GpuMirrorPatchRegion>)
    requires
        in_order(regions),
        states_agree(regions),
        forall|i: int| 0 <= i < regions.len() ==> patch_fits(tile_size, #[trigger] regions[i]),
    ensures
        exact_tiles_valid(tile_size as int, grouped(regions)),
        regions.len() > 0 ==> grouped(regions).len() > 0 && grouped(regions).last().coord
            == regions.last().key.tile && grouped(regions).last().initialized
            == regions.last().initialized,
        forall|t: int|
            0 <= t < grouped(regions).len() ==> exists|i: int|
                0 <= i < regions.len() && (#[trigger] regions[i]).key.tile == (
                #[trigger] grouped(regions)[t]).coord,
    decreases regions.len(),
{
    if regions.len() > 0 {
        let rest = regions.drop_last();
        let last = regions.last();
        assert forall|i: int, j: int|
            #![trigger rest[i], rest[j]]
            0 <= i < j < rest.len() implies rest[i].le(rest[j]) by {
            assert(regions[i].le(regions[j]));
        }
        assert forall|i: int, j: int|
            #![trigger rest[i], rest[j]]
            0 <= i < rest.len() && 0 <= j < rest.len() && rest[i].key.tile
                == rest[j].key.tile implies rest[i].initialized == rest[j].initialized by {
            assert(regions[i].key.tile == regions[j].key.tile);
        }
        assert forall|i: int| 0 <= i < rest.len() implies patch_fits(
            tile_size,
            #[trigger] rest[i],
        ) by {
            assert(rest[i] == regions[i]);
        }
        lemma_grouped_valid(tile_size, rest);
        let before = grouped(rest);
        let after = grouped(regions);
        assert(patch_fits(tile_size, regions[regions.len() - 1]));
        if rest.len() > 0 && before.last().coord == last.key.tile {
            assert(regions[rest.len() - 1].key.tile == regions[regions.len() - 1].key.tile);
        }
        assert forall|i: int, j: int|
            #![trigger after[i], after[j]]
            0 <= i < j < after.len() implies after[i].coord.le(after[j].coord) && after[i].coord
            != after[j].coord by {
            if before.len() > 0 && before.last().coord == last.key.tile {
                assert(after[i].coord == before[i].coord);
                assert(after[j].coord == before[j].coord);
                assert(before[i].coord.le(before[j].coord));
            } else if j < before.len() {
                assert(before[i].coord.le(before[j].coord));
            } else {
                let k = choose|k: int|
                    0 <= k < rest.len() && (#[trigger] rest[k]).key.tile == (
                    #[trigger] before[i]).coord;
                assert(regions[k].le(regions[regions.len() - 1]));
                if before[i].coord == last.key.tile {
                    assert(regions[k].le(regions[rest.len() - 1]));
                    assert(regions[rest.len() - 1].le(regions[regions.len() - 1]));
                }
            }
        }
        assert forall|t: int, r: int|
            #![trigger after[t].regions[r]]
            0 <= t < after.len() && 0 <= r < after[t].regions.len() implies exact_region_valid(
            tile_size as int,
            after[t].regions[r],
        ) by {
            if t < before.len() && r < before[t].regions.len() {
                assert(after[t].regions[r] == before[t].regions[r]);
            }
        }
        assert forall|t: int| 0 <= t < after.len() implies exists|i: int|
            0 <= i < regions.len() && (#[trigger] regions[i]).key.tile == (
            #[trigger] after[t]).coord by {
            if t < before.len() {
                let k = choose|k: int|
                    0 <= k < rest.len() && (#[trigger] rest[k]).key.tile == (
                    #[trigger] before[t]).coord;
                assert(regions[k].key.tile == after[t].coord);
            } else {
                assert(regions[regions.len() - 1].key.tile == after[t].coord);
            }
        }
    }
}

/// What was checked of regions holds of the same regions in order.
pub(crate) proof fn lemma_checked_sorted(
    tile_size: u32,
    checked: Seq<GpuMirrorPatchRegion>,
    regions: Seq<GpuMirrorPatchRegion>,
)
    requires
        build_succeeds(tile_size, checked),
        forall|i: int| 0 <= i < checked.len() ==> (#[trigger] checked[i]).local_bounds@.nonempty(),
        forall|region: GpuMirrorPatchRegion|
            #![trigger regions.contains(region)]
            regions.contains(region) ==> checked.contains(region),
    ensures
        ({
            let sorted = stable_sorted(regions);
            &&& in_order(sorted)
            &&& states_agree(sorted)
            &&& forall|i: int|
                0 <= i < sorted.len() ==> patch_fits(tile_size, #[trigger] sorted[i])
        }),
{
    let sorted = stable_sorted(regions);
    lemma_sorted(regions);
    assert forall|i: int| 0 <= i < sorted.len() implies checked.contains(#[trigger] sorted[i]) by {
        lemma_sorted_contains(regions, sorted[i]);
        assert(sorted.contains(sorted[i]));
    }
    assert forall|i: int| 0 <= i < sorted.len() implies patch_fits(
        tile_size,
        #[trigger] sorted[i],
    ) by {
        assert(checked.contains(sorted[i]));
        let k = choose|k: int| 0 <= k < checked.len() && checked[k] == sorted[i];
        assert(region_fault(tile_size, checked, k) is None);
        assert(checked[k].local_bounds@.nonempty());
    }
    assert forall|i: int, j: int|
        #![trigger sorted[i], sorted[j]]
        0 <= i < sorted.len() && 0 <= j < sorted.len() && sorted[i].key.tile
            == sorted[j].key.tile implies sorted[i].initialized == sorted[j].initialized by {
        assert(checked.contains(sorted[i]) && checked.contains(sorted[j]));
        let a = choose|a: int| 0 <= a < checked.len() && checked[a] == sorted[i];
        let b = choose|b: int| 0 <= b < checked.len() && checked[b] == sorted[j];
        assert(tile_fault(checked, checked[a].key.tile) is None);
        if a < b {
            assert(!tile_conflicts(checked, checked[a].key.tile));
            assert(checked[a].initialized == checked[b].initialized);
        } else if b < a {
            assert(!tile_conflicts(checked, checked[a].key.tile));
            assert(checked[b].initialized == checked[a].initialized);
        }
    }
}

/// Makes a command of regions that have been checked.
fn build_validated_command(
    tile_size: u32,
    regions: Vec<GpuMirrorPatchRegion>,
    metrics: RecoveryMetrics,
) -> (command: GpuExactRasterRecoveryCommand)
    ensures
        command@ == (ExactCommandModel {
            layer: metrics.layer,
            tile_size: tile_size as int,
            tiles: grouped(stable_sorted(regions@)),
            region_count: regions@.len() as int,
            pixel_count: metrics.pixel_count as int,
            retained_byte_len: metrics.retained_byte_len as int,
        }),
{
    let region_count: usize = regions.len();
    let sorted = sort(regions);
    let mut tiles: Vec<GpuExactRasterRecoveryTile> = Vec::new();
    let mut i: usize = 0;
    assert(sorted@.subrange(0, 0) =~= Seq::<GpuMirrorPatchRegion>::empty());
    assert(tile_models(tiles@) =~= Seq::<ExactTileModel>::empty());
    while i < sorted.len()
        invariant
            i <= sorted@.len(),
            tile_models(tiles@) == grouped(sorted@.subrange(0, i as int)),
        decreases sorted@.len() - i,
    {
        let region = &sorted[i];
        let ghost before = tile_models(tiles@);
        proof {
            let prefix = sorted@.subrange(0, i as int + 1);
            assert(prefix.drop_last() =~= sorted@.subrange(0, i as int));
            assert(prefix.last() == sorted@[i as int]);
        }
        let piece = GpuExactRasterRecoveryRegion {
            local_bounds: region.local_bounds,
            pixels: share(&region.pixels),
        };
        let joins = tiles.len() > 0 && tiles[tiles.len() - 1].coord.same(region.key.tile);
        assert(joins == (before.len() > 0 && before.last().coord == region.key.tile));
        if joins {
            let mut last = tiles.pop().unwrap();
            let ghost old_last = last@;
            if last.initialized {
                last.regions.push(piece);
                assert(last@.regions =~= old_last.regions.push(piece@));
            }
            tiles.push(last);
        } else {
            let mut pieces: Vec<GpuExactRasterRecoveryRegion> = Vec::new();
            if region.initialized {
                pieces.push(piece);
            }
            let tile = GpuExactRasterRecoveryTile {
                coord: region.key.tile,
                initialized: region.initialized,
                regions: pieces,
            };
            assert(tile@.regions =~= if region.initialized {
                seq![piece@]
            } else {
                Seq::empty()
            });
            tiles.push(tile);
        }
        assert(tile_models(tiles@) =~= group_region(before, *region));
        i += 1;
    }
    assert(sorted@.subrange(0, i as int) =~= sorted@);
    GpuExactRasterRecoveryCommand {
        layer: metrics.layer,
        tile_size,
        tiles,
        region_count,
        pixel_count: metrics.pixel_count,
        retained_byte_len: metrics.retained_byte_len,
    }
}

/// Regions that make no command, and why.
#[derive(Debug)]
pub struct GpuExactRasterRecoveryBuildFailure {
    pub error: GpuExactRasterRecoveryBuildError,
    pub regions: Vec<GpuMirrorPatchRegion>,
}

/// Batches that make no command, and why.
#[derive(Debug)]
pub struct GpuExactRasterRecoveryMirrorFailure {
    pub error: GpuExactRasterRecoveryMirrorError,
    pub batches: Vec<GpuMirrorPatchBatch>,
}

#[derive(Clone, Copy, Debug, PartialEq, Eq, Structural)]
#[allow(inconsistent_fields)]
pub enum GpuExactRasterRecoveryMirrorError {
    BatchCountMismatch { expected: usize, actual: usize },
    RevisionMismatch { expected: DocumentRevision, actual: DocumentRevision },
    BatchIndexOutOfRange { index: u32, count: usize },
    DuplicateBatch(u32),
    BatchByteMismatch { index: u32, expected: u64, actual: u64 },
    BatchShapeMismatch(u32),
    Command(GpuExactRasterRecoveryBuildError),
}

fn borrow_all(regions: &Vec<GpuMirrorPatchRegion>) -> (borrows: Vec<&GpuMirrorPatchRegion>)
    ensures
        borrowed(borrows@) == regions@,
{
    let mut borrows: Vec<&GpuMirrorPatchRegion> = Vec::new();
    let mut i: usize = 0;
    while i < regions.len()
        invariant
            i <= regions@.len(),
            borrows@.len() == i,
            forall|j: int| 0 <= j < i ==> *(#[trigger] borrows@[j]) == regions@[j],
        decreases regions@.len() - i,
    {
        borrows.push(&regions[i]);
        i += 1;
    }
    assert(borrowed(borrows@) =~= regions@);
    borrows
}

/// The regions of all batches, batch by batch.
pub open(crate) spec fn flat_regions(batches: Seq<GpuMirrorPatchBatch>) -> Seq<
    GpuMirrorPatchRegion,
>
    decreases batches.len(),
{
    if batches.len() == 0 {
        Seq::empty()
    } else {
        flat_regions(batches.drop_last()) + batches.last().regions@
    }
}

/// What is wrong with the `b`th batch, held against the plan, if anything.
pub open(crate) spec fn batch_fault(
    plan: ReadbackPlanModel,
    batches: Seq<GpuMirrorPatchBatch>,
    b: int,
) -> Option<GpuExactRasterRecoveryMirrorError> {
    let batch = batches[b];
    let index = batch.index as int;
    if batch.revision != plan.revision {
        Some(
            GpuExactRasterRecoveryMirrorError::RevisionMismatch {
                expected: plan.revision,
                actual: batch.revision,
            },
        )
    } else if index >= plan.batches.len() {
        Some(
            GpuExactRasterRecoveryMirrorError::BatchIndexOutOfRange {
                index: batch.index,
                count: plan.batches.len() as usize,
            },
        )
    } else if exists|a: int| 0 <= a < b && (#[trigger] batches[a]).index == batch.index {
        Some(GpuExactRasterRecoveryMirrorError::DuplicateBatch(batch.index))
    } else if batch.byte_len != plan.batches[index].byte_len {
        Some(
            GpuExactRasterRecoveryMirrorError::BatchByteMismatch {
                index: batch.index,
                expected: plan.batches[index].byte_len as u64,
                actual: batch.byte_len,
            },
        )
    } else if copy_shapes(plan.batches[index].regions) != patch_shapes(batch.regions@) {
        Some(GpuExactRasterRecoveryMirrorError::BatchShapeMismatch(batch.index))
    } else {
        None
    }
}

/// What is wrong with the first of the first `n` batches that is wrong.
pub open(crate) spec fn batches_fault(
    plan: ReadbackPlanModel,
    batches: Seq<GpuMirrorPatchBatch>,
    n: int,
) -> Option<GpuExactRasterRecoveryMirrorError>
    decreases n,
{
    if n <= 0 {
        None
    } else {
        match batches_fault(plan, batches, n - 1) {
            Some(error) => Some(error),
            None => batch_fault(plan, batches, n - 1),
        }
    }
}

/// Why the batches are not those of the plan, if they are not.
pub open(crate) spec fn mirror_fault(plan: ReadbackPlanModel, batches: Seq<GpuMirrorPatchBatch>) -> Option<
    GpuExactRasterRecoveryMirrorError,
> {
    if batches.len() != plan.batches.len() {
        Some(
            GpuExactRasterRecoveryMirrorError::BatchCountMismatch {
                expected: plan.batches.len() as usize,
                actual: batches.len() as usize,
            },
        )
    } else {
        batches_fault(plan, batches, batches.len() as int)
    }
}

proof fn lemma_batches_fail(
    plan: ReadbackPlanModel,
    batches: Seq<GpuMirrorPatchBatch>,
    at: int,
    n: int,
)
    requires
        0 <= at <= n,
        batches_fault(plan, batches, at) is Some,
    ensures
        batches_fault(plan, batches, n) == batches_fault(plan, batches, at),
    decreases n - at,
{
    if at < n {
        lemma_batches_fail(plan, batches, at + 1, n);
    }
}

/// Checks that the batches are those of the plan, in any order.
fn validate_mirror_batches(plan: &GpuMirrorReadbackPlan, batches: &Vec<GpuMirrorPatchBatch>) -> (
checked: Result<(), GpuExactRasterRecoveryMirrorError>)
    ensures
        match checked {
            Ok(_) => mirror_fault(plan@, batches@) is None,
            Err(error) => mirror_fault(plan@, batches@) == Some(error),
        },
{
    let expected_batches = plan.batches();
    if batches.len() != expected_batches.len() {
        return Err(
            GpuExactRasterRecoveryMirrorError::BatchCountMismatch {
                expected: expected_batches.len(),
                actual: batches.len(),
            },
        );
    }
    let ghost model = plan@;
    let mut seen: Vec<bool> = Vec::new();
    while seen.len() < batches.len()
        invariant
            seen@.len() <= batches@.len(),
            forall|k: int| 0 <= k < seen@.len() ==> !(#[trigger] seen@[k]),
        decreases batches@.len() - seen@.len(),
    {
        seen.push(false);
    }
    let mut b: usize = 0;
    while b < batches.len()
        invariant
            model == plan@,
            batch_models(expected_batches@) == model.batches,
            batches@.len() == model.batches.len(),
            seen@.len() == batches@.len(),
            b <= batches@.len(),
            batches_fault(model, batches@, b as int) is None,
            forall|k: int|
                0 <= k < seen@.len() ==> (#[trigger] seen@[k] <==> exists|a: int|
                    0 <= a < b && (#[trigger] batches@[a]).index == k),
        decreases batches@.len() - b,
    {
        let batch = &batches[b];
        let ghost fault = batch_fault(model, batches@, b as int);
        proof {
            if fault is Some {
                lemma_batches_fail(model, batches@, b as int + 1, batches@.len() as int);
            }
        }
        if batch.revision.get() != plan.revision().get() {
            return Err(
                GpuExactRasterRecoveryMirrorError::RevisionMismatch {
                    expected: plan.revision(),
                    actual: batch.revision,
                },
            );
        }
        let index: usize = batch.index as usize;
        if index >= expected_batches.len() {
            return Err(
                GpuExactRasterRecoveryMirrorError::BatchIndexOutOfRange {
                    index: batch.index,
                    count: expected_batches.len(),
                },
            );
        }
        let expected = &expected_batches[index];
        assert(expected@ == model.batches[index as int]);
        if seen[index] {
            return Err(GpuExactRasterRecoveryMirrorError::DuplicateBatch(batch.index));
        }
        let ghost marked = seen@;
        seen.set(index, true);
        if batch.byte_len != expected.byte_len() {
            return Err(
                GpuExactRasterRecoveryMirrorError::BatchByteMismatch {
                    index: batch.index,
                    expected: expected.byte_len(),
                    actual: batch.byte_len,
                },
            );
        }
        if !shapes_match(&expected.regions, &batch.regions) {
            return Err(GpuExactRasterRecoveryMirrorError::BatchShapeMismatch(batch.index));
        }
        proof {
            assert forall|k: int| 0 <= k < seen@.len() implies (#[trigger] seen@[k] <==> exists|a:
                int| 0 <= a < b + 1 && (#[trigger] batches@[a]).index == k) by {
                if k == index {
                    assert(batches@[b as int].index == k);
                } else {
                    assert(seen@[k] == marked[k]);
                }
            }
        }
        b += 1;
    }
    Ok(())
}

/// The regions of all batches, by reference.
pub(crate) fn borrow_regions(batches: &Vec<GpuMirrorPatchBatch>) -> (borrows: Vec<&GpuMirrorPatchRegion>)
    ensures
        borrowed(borrows@) == flat_regions(batches@),
{
    let mut borrows: Vec<&GpuMirrorPatchRegion> = Vec::new();
    let mut b: usize = 0;
    assert(batches@.subrange(0, 0) =~= Seq::<GpuMirrorPatchBatch>::empty());
    assert(borrowed(borrows@) =~= Seq::<GpuMirrorPatchRegion>::empty());
    while b < batches.len()
        invariant
            b <= batches@.len(),
            borrowed(borrows@) == flat_regions(batches@.subrange(0, b as int)),
        decreases batches@.len() - b,
    {
        let ghost before = borrowed(borrows@);
        let ghost added = batches@[b as int].regions@;
        let mut r: usize = 0;
        assert(before + added.subrange(0, 0) =~= before);
        while r < batches[b].regions.len()
            invariant
                b < batches@.len(),
                added == batches@[b as int].regions@,
                r <= added.len(),
                borrowed(borrows@) == before + added.subrange(0, r as int),
            decreases added.len() - r,
        {
            let ghost so_far = borrows@;
            let region = &batches[b].regions[r];
            borrows.push(region);
            proof {
                assert(*region == added[r as int]);
                assert(borrowed(borrows@) =~= borrowed(so_far).push(added[r as int]));
                assert(added.subrange(0, r as int + 1) =~= added.subrange(0, r as int).push(
                    added[r as int],
                ));
                assert((before + added.subrange(0, r as int)).push(added[r as int]) =~= before
                    + added.subrange(0, r as int + 1));
            }
            r += 1;
        }
        proof {
            assert(added.subrange(0, r as int) =~= added);
            let prefix = batches@.subrange(0, b as int + 1);
            assert(prefix.drop_last() =~= batches@.subrange(0, b as int));
            assert(prefix.last() == batches@[b as int]);
        }
        b += 1;
    }
    assert(batches@.subrange(0, b as int) =~= batches@);
    borrows
}

pub(crate) fn copy_regions(regions: &Vec<&GpuMirrorPatchRegion>) -> (copy: Vec<GpuMirrorPatchRegion>)
    ensures
        copy@ == borrowed(regions@),
{
    let mut copy: Vec<GpuMirrorPatchRegion> = Vec::new();
    let mut i: usize = 0;
    while i < regions.len()
        invariant
            i <= regions@.len(),
            copy@.len() == i,
            forall|j: int| 0 <= j < i ==> #[trigger] copy@[j] == *regions@[j],
        decreases regions@.len() - i,
    {
        copy.push(regions[i].duplicate());
        i += 1;
    }
    assert(copy@ =~= borrowed(regions@));
    copy
}

pub(crate) proof fn lemma_flat_contains(batches: Seq<GpuMirrorPatchBatch>, region: GpuMirrorPatchRegion)
    ensures
        flat_regions(batches).contains(region) <==> exists|b: int|
            0 <= b < batches.len() && (#[trigger] batches[b]).regions@.contains(region),
    decreases batches.len(),
{
    if batches.len() > 0 {
        let rest = batches.drop_last();
        let last = batches.last();
        lemma_flat_contains(rest, region);
        let flat = flat_regions(batches);
        let head = flat_regions(rest);
        if flat.contains(region) {
            let k = choose|k: int| 0 <= k < flat.len() && flat[k] == region;
            if k < head.len() {
                assert(head[k] == region);
                let b = choose|b: int|
                    0 <= b < rest.len() && (#[trigger] rest[b]).regions@.contains(region);
                assert(batches[b].regions@.contains(region));
            } else {
                assert(last.regions@[k - head.len()] == region);
                assert(batches[batches.len() - 1].regions@.contains(region));
            }
        }
        if exists|b: int|
            0 <= b < batches.len() && (#[trigger] batches[b]).regions@.contains(region) {
            let b = choose|b: int|
                0 <= b < batches.len() && (#[trigger] batches[b]).regions@.contains(region);
            if b < rest.len() {
                assert(rest[b].regions@.contains(region));
                let k = choose|k: int| 0 <= k < head.len() && head[k] == region;
                assert(flat[k] == region);
            } else {
                let k = choose|k: int| 0 <= k < last.regions@.len() && last.regions@[k] == region;
                assert(flat[head.len() + k] == region);
            }
        }
    }
}

/// Sorting batches neither adds a region nor loses one.
pub(crate) proof fn lemma_sorted_flat(batches: Seq<GpuMirrorPatchBatch>)
    ensures
        forall|region: GpuMirrorPatchRegion|
            #![trigger flat_regions(stable_sorted(batches)).contains(region)]
            flat_regions(stable_sorted(batches)).contains(region) ==> flat_regions(
                batches,
            ).contains(region),
{
    let sorted = stable_sorted(batches);
    assert forall|region: GpuMirrorPatchRegion|
        #![trigger flat_regions(sorted).contains(region)]
        flat_regions(sorted).contains(region) implies flat_regions(batches).contains(region) by {
        lemma_flat_contains(sorted, region);
        lemma_flat_contains(batches, region);
        let b = choose|b: int|
            0 <= b < sorted.len() && (#[trigger] sorted[b]).regions@.contains(region);
        lemma_sorted_contains(batches, sorted[b]);
        assert(sorted.contains(sorted[b]));
        let k = choose|k: int| 0 <= k < batches.len() && batches[k] == sorted[b];
        assert(batches[k].regions@.contains(region));
    }
}

impl GpuExactRasterRecoveryCommand {
    pub open spec fn wf(self) -> bool {
        self@.valid()
    }

    /// A command that writes the given regions. Regions that make no command come
    /// back as they were.
    pub fn from_regions(tile_size: u32, regions: Vec<GpuMirrorPatchRegion>) -> (command: Result<
        GpuExactRasterRecoveryCommand,
        Box<GpuExactRasterRecoveryBuildFailure>,
    >)
        ensures
            match command {
                Ok(command) => {
                    &&& build_succeeds(tile_size, regions@)
                    &&& command.wf()
                    &&& command@ == exact_command(tile_size, regions@, regions@)
                },
                Err(failure) => {
                    &&& build_fails_with(tile_size, regions@, failure.error)
                    &&& failure.regions == regions
                },
            },
    {
        let borrows = borrow_all(&regions);
        match validate_regions(tile_size, &borrows) {
            Ok(metrics) => {
                proof {
                    lemma_checked_sorted(tile_size, regions@, regions@);
                    lemma_grouped_valid(tile_size, stable_sorted(regions@));
                    lemma_header_counted(
                        named_tiles(regions@).len() as int,
                        regions@.len() as int,
                        total_pixels(regions@),
                    );
                    lemma_total_pixels_grow(regions@, 0);
                }
                Ok(build_validated_command(tile_size, regions, metrics))
            },
            Err(error) => Err(Box::new(GpuExactRasterRecoveryBuildFailure { error, regions })),
        }
    }

    /// A command that writes what a revision read back. The batches may come in any
    /// order. Batches that make no command come back as they were.
    pub fn from_mirror_revision(
        plan: &GpuMirrorReadbackPlan,
        batches: Vec<GpuMirrorPatchBatch>,
    ) -> (command: Result<GpuExactRasterRecoveryCommand, Box<GpuExactRasterRecoveryMirrorFailure>>)
        ensures
            ({
                let tile_size = plan@.layout@.tile_size as u32;
                let arrived = flat_regions(batches@);
                let ordered = flat_regions(stable_sorted(batches@));
                match command {
                    Ok(command) => {
                        &&& mirror_fault(plan@, batches@) is None
                        &&& build_succeeds(tile_size, arrived)
                        &&& command.wf()
                        &&& command@ == exact_command(tile_size, arrived, ordered)
                    },
                    Err(failure) => {
                        &&& failure.batches == batches
                        &&& match mirror_fault(plan@, batches@) {
                            Some(error) => failure.error == error,
                            None => {
                                &&& failure.error matches GpuExactRasterRecoveryMirrorError::Command(
                                    error,
                                )
                                &&& build_fails_with(tile_size, arrived, error)
                            },
                        }
                    },
                }
            }),
    {
        match validate_mirror_batches(plan, &batches) {
            Ok(_) => {},
            Err(error) => {
                return Err(Box::new(GpuExactRasterRecoveryMirrorFailure { error, batches }));
            },
        }
        let tile_size: u32 = plan.layout().tile_size();
        let borrows = borrow_regions(&batches);
        let ghost arrived = flat_regions(batches@);
        let metrics = match validate_regions(tile_size, &borrows) {
            Ok(metrics) => metrics,
            Err(error) => {
                return Err(
                    Box::new(
                        GpuExactRasterRecoveryMirrorFailure {
                            error: GpuExactRasterRecoveryMirrorError::Command(error),
                            batches,
                        },
                    ),
                );
            },
        };
        let ordered = sort(batches);
        let ordered_borrows = borrow_regions(&ordered);
        let regions = copy_regions(&ordered_borrows);
        proof {
            lemma_sorted_flat(batches@);
            lemma_checked_sorted(tile_size, arrived, regions@);
            lemma_grouped_valid(tile_size, stable_sorted(regions@));
            lemma_header_counted(
                named_tiles(arrived).len() as int,
                arrived.len() as int,
                total_pixels(arrived),
            );
            lemma_total_pixels_grow(arrived, 0);
        }
        Ok(build_validated_command(tile_size, regions, metrics))
    }

    pub fn layer(&self) -> (layer: LayerId)
        ensures
            layer == self@.layer,
    {
        self.layer
    }

    pub fn tile_size(&self) -> (tile_size: u32)
        ensures
            tile_size == self@.tile_size,
    {
        self.tile_size
    }

    pub fn tile_count(&self) -> (count: usize)
        ensures
            count == self@.tiles.len(),
    {
        self.tiles.len()
    }

    pub fn region_count(&self) -> (count: usize)
        ensures
            count == self@.region_count,
    {
        self.region_count
    }

    pub fn pixel_count(&self) -> (count: usize)
        ensures
            count == self@.pixel_count,
    {
        self.pixel_count
    }

    pub fn retained_byte_len(&self) -> (len: u64)
        ensures
            len == self@.retained_byte_len,
    {
        self.retained_byte_len
    }

    /// The pixels that one region of one tile holds.
    pub fn region_pixels(&self, tile: usize, region: usize) -> (pixels: Option<&TilePixels>)
        ensures
            match pixels {
                Some(pixels) => tile < self@.tiles.len() && region < self@.tiles[tile as int].regions.len()
                    && pixels@ == self@.tiles[tile as int].regions[region as int].pixels,
                None => tile >= self@.tiles.len() || region >= self@.tiles[tile as int].regions.len(),
            },
    {
        if tile < self.tiles.len() && region < self.tiles[tile].regions.len() {
            Some(&self.tiles[tile].regions[region].pixels)
        } else {
            None
        }
    }

    /// A second command that shares the pixels.
    pub fn duplicate(&self) -> (copy: GpuExactRasterRecoveryCommand)
        ensures
            copy@ == self@,
    {
        let mut tiles: Vec<GpuExactRasterRecoveryTile> = Vec::new();
        let mut t: usize = 0;
        while t < self.tiles.len()
            invariant
                t <= self.tiles@.len(),
                tiles@.len() == t,
                forall|k: int| 0 <= k < t ==> (#[trigger] tiles@[k])@ == self.tiles@[k]@,
            decreases self.tiles@.len() - t,
        {
            let source = &self.tiles[t];
            let mut regions: Vec<GpuExactRasterRecoveryRegion> = Vec::new();
            let mut r: usize = 0;
            while r < source.regions.len()
                invariant
                    r <= source.regions@.len(),
                    regions@.len() == r,
                    forall|k: int|
                        0 <= k < r ==> (#[trigger] regions@[k])@ == source.regions@[k]@,
                decreases source.regions@.len() - r,
            {
                regions.push(
                    GpuExactRasterRecoveryRegion {
                        local_bounds: source.regions[r].local_bounds,
                        pixels: share(&source.regions[r].pixels),
                    },
                );
                r += 1;
            }
            let tile = GpuExactRasterRecoveryTile {
                coord: source.coord,
                initialized: source.initialized,
                regions,
            };
            assert(tile@.regions =~= source@.regions);
            tiles.push(tile);
            t += 1;
        }
        assert(tile_models(tiles@) =~= tile_models(self.tiles@));
        GpuExactRasterRecoveryCommand {
            layer: self.layer,
            tile_size: self.tile_size,
            tiles,
            region_count: self.region_count,
            pixel_count: self.pixel_count,
            retained_byte_len: self.retained_byte_len,
        }
    }
}

proof fn lemma_header_counted(tiles: int, regions: int, pixels: int)
    requires
        tiles >= 0,
        regions >= 0,
        pixels >= 0,
    ensures
        exact_byte_len(tiles, regions, pixels) >= size_of::<ExactCommandHeader>(),
        tiles * size_of::<ExactTileHeader>() >= 0,
        regions * size_of::<ExactRegionHeader>() >= 0,
{
    let tile_size = size_of::<ExactTileHeader>() as int;
    let region_size = size_of::<ExactRegionHeader>() as int;
    assert(tiles * tile_size >= 0) by (nonlinear_arith)
        requires
            tiles >= 0,
            tile_size >= 0,
    ;
    assert(regions * region_size >= 0) by (nonlinear_arith)
        requires
            regions >= 0,
            region_size >= 0,
    ;
}

} // verus!
