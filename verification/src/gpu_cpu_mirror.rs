//! The pixels of the document in main memory, one revision at a time.

use crate::document::{DocumentRevision, LayerId};
use crate::gpu_atlas::LayerTileKey;
use crate::gpu_document_mirror::{BatchPlanModel, GpuMirrorCopyRegion, GpuMirrorReadbackPlan};
use crate::gpu_raster_recovery::flat_regions;
use crate::keyed_map::{Key, KeyedMap};
use crate::pixel_grid::{patch_pixels, patched};
use crate::raster::{transparent, LinearRgba, Rect, RectU32, TileCoord};
use crate::raster_layer::{
    copy_pixels, pixel_map, share_tiles, uniform, uniform_pixels, RasterError, RasterGeometry,
    RasterLayer, RasterModel, TilePixels,
};
use crate::shared::share;
use std::sync::Arc;
use vstd::prelude::*;

verus! {

/// Pixels that were read back for one rectangle of a tile.
#[derive(Clone, Debug, PartialEq)]
pub struct GpuMirrorPatchRegion {
    pub key: LayerTileKey,
    pub local_bounds: RectU32,
    pub initialized: bool,
    pub pixels: TilePixels,
}

impl crate::ordering::Ranked for GpuMirrorPatchRegion {
    /// By tile row by row, then by the corners of the rectangle.
    open(crate) spec fn le(self, other: Self) -> bool {
        let a = self.local_bounds@;
        let b = other.local_bounds@;
        if self.key.tile.y != other.key.tile.y {
            self.key.tile.y < other.key.tile.y
        } else if self.key.tile.x != other.key.tile.x {
            self.key.tile.x < other.key.tile.x
        } else if a.min_y != b.min_y {
            a.min_y < b.min_y
        } else if a.min_x != b.min_x {
            a.min_x < b.min_x
        } else if a.max_y != b.max_y {
            a.max_y < b.max_y
        } else {
            a.max_x <= b.max_x
        }
    }

    proof fn le_total(first: Self, second: Self) {
    }

    proof fn le_transitive(first: Self, second: Self, third: Self) {
    }

    fn not_after(&self, other: &Self) -> (le: bool) {
        let a = self.local_bounds;
        let b = other.local_bounds;
        if self.key.tile.y != other.key.tile.y {
            self.key.tile.y < other.key.tile.y
        } else if self.key.tile.x != other.key.tile.x {
            self.key.tile.x < other.key.tile.x
        } else if a.min_y() != b.min_y() {
            a.min_y() < b.min_y()
        } else if a.min_x() != b.min_x() {
            a.min_x() < b.min_x()
        } else if a.max_y() != b.max_y() {
            a.max_y() < b.max_y()
        } else {
            a.max_x() <= b.max_x()
        }
    }
}

pub struct PatchRegionModel {
    pub key: LayerTileKey,
    pub bounds: Rect,
    pub initialized: bool,
    pub pixels: Seq<LinearRgba>,
}

impl View for GpuMirrorPatchRegion {
    type V = PatchRegionModel;

    open spec fn view(&self) -> PatchRegionModel {
        PatchRegionModel {
            key: self.key,
            bounds: self.local_bounds@,
            initialized: self.initialized,
            pixels: self.pixels@,
        }
    }
}

impl GpuMirrorPatchRegion {
    /// A second region that shares the pixels.
    pub fn duplicate(&self) -> (copy: GpuMirrorPatchRegion)
        ensures
            copy == *self,
    {
        GpuMirrorPatchRegion {
            key: self.key,
            local_bounds: self.local_bounds,
            initialized: self.initialized,
            pixels: share(&self.pixels),
        }
    }
}

pub open spec fn region_models(regions: Seq<GpuMirrorPatchRegion>) -> Seq<PatchRegionModel> {
    Seq::new(regions.len(), |i: int| regions[i]@)
}

/// The pixels that were read back for one batch.
#[derive(Clone, Debug, PartialEq)]
pub struct GpuMirrorPatchBatch {
    pub(crate) revision: DocumentRevision,
    pub(crate) index: u32,
    pub(crate) regions: Vec<GpuMirrorPatchRegion>,
    pub(crate) byte_len: u64,
}

impl crate::ordering::Ranked for GpuMirrorPatchBatch {
    open(crate) spec fn le(self, other: Self) -> bool {
        self.index <= other.index
    }

    proof fn le_total(first: Self, second: Self) {
    }

    proof fn le_transitive(first: Self, second: Self, third: Self) {
    }

    fn not_after(&self, other: &Self) -> (le: bool) {
        self.index <= other.index
    }
}

pub struct PatchBatchModel {
    pub revision: DocumentRevision,
    pub index: int,
    pub regions: Seq<PatchRegionModel>,
    pub byte_len: int,
}

impl View for GpuMirrorPatchBatch {
    type V = PatchBatchModel;

    open(crate) spec fn view(&self) -> PatchBatchModel {
        PatchBatchModel {
            revision: self.revision,
            index: self.index as int,
            regions: region_models(self.regions@),
            byte_len: self.byte_len as int,
        }
    }
}

impl GpuMirrorPatchBatch {
    pub fn from_parts(
        revision: DocumentRevision,
        index: u32,
        regions: Vec<GpuMirrorPatchRegion>,
        byte_len: u64,
    ) -> (batch: GpuMirrorPatchBatch)
        ensures
            batch@ == (PatchBatchModel {
                revision,
                index: index as int,
                regions: region_models(regions@),
                byte_len: byte_len as int,
            }),
    {
        GpuMirrorPatchBatch { revision, index, regions, byte_len }
    }

    pub fn revision(&self) -> (revision: DocumentRevision)
        ensures
            revision == self@.revision,
    {
        self.revision
    }

    pub fn index(&self) -> (index: u32)
        ensures
            index == self@.index,
    {
        self.index
    }

    pub fn regions(&self) -> (regions: &Vec<GpuMirrorPatchRegion>)
        ensures
            region_models(regions@) == self@.regions,
    {
        &self.regions
    }

    pub fn byte_len(&self) -> (len: u64)
        ensures
            len == self@.byte_len,
    {
        self.byte_len
    }

    /// A second batch that shares the pixels.
    pub fn duplicate(&self) -> (copy: GpuMirrorPatchBatch)
        ensures
            copy@ == self@,
    {
        let mut regions: Vec<GpuMirrorPatchRegion> = Vec::new();
        let mut i: usize = 0;
        while i < self.regions.len()
            invariant
                i <= self.regions@.len(),
                regions@.len() == i,
                forall|k: int| 0 <= k < i ==> (#[trigger] regions@[k])@ == self.regions@[k]@,
            decreases self.regions@.len() - i,
        {
            regions.push(self.regions[i].duplicate());
            i += 1;
        }
        assert(region_models(regions@) =~= region_models(self.regions@));
        GpuMirrorPatchBatch {
            revision: self.revision,
            index: self.index,
            regions,
            byte_len: self.byte_len,
        }
    }

    pub fn into_regions(self) -> (regions: Vec<GpuMirrorPatchRegion>)
        ensures
            region_models(regions@) == self@.regions,
    {
        self.regions
    }
}

#[derive(Clone, Copy, Debug, PartialEq, Eq)]
#[allow(inconsistent_fields)]
pub enum GpuMirrorReconcileError {
    EmptyCanvas,
    InvalidTileSize,
    TileStorageOverflow,
    TileSizeMismatch { expected: u32, actual: u32 },
    RevisionNotNewer { latest: DocumentRevision, requested: DocumentRevision },
    EmptyRevisionPlan,
    MalformedRevisionPlan,
    UnknownRevision(DocumentRevision),
    BatchIndexOutOfRange { revision: DocumentRevision, index: u32, count: usize },
    DuplicateBatch { revision: DocumentRevision, index: u32 },
    BatchByteMismatch { revision: DocumentRevision, index: u32, expected: u64, actual: u64 },
    BatchShapeMismatch { revision: DocumentRevision, index: u32 },
    PatchRevisionMismatch { expected: DocumentRevision, actual: DocumentRevision },
    TileCoordinateOverflow(LayerTileKey),
    TileOutOfBounds(LayerTileKey),
    RegionOutsideTile { key: LayerTileKey, bounds: RectU32, valid_extent: [u32; 2] },
    ConflictingResidentState(LayerTileKey),
    PixelCountOverflow,
    InvalidPixelCount { key: LayerTileKey, expected: usize, actual: usize },
}

/// The document's pixels at one revision.
pub struct MirrorModel {
    pub revision: DocumentRevision,
    pub geometry: RasterGeometry,
    pub tiles: Map<LayerTileKey, Seq<LinearRgba>>,
}

pub open spec fn mirror_tiles_valid(
    geometry: RasterGeometry,
    tiles: Map<LayerTileKey, Seq<LinearRgba>>,
) -> bool {
    forall|key: LayerTileKey| #[trigger]
        tiles.contains_key(key) ==> geometry.has_tile(key.tile) && tiles[key].len()
            == geometry.tile_len()
}

/// An immutable copy of the document's pixels that shares its tiles.
#[derive(Debug)]
pub struct GpuCpuMirrorSnapshot {
    pub(crate) revision: DocumentRevision,
    pub(crate) width: u32,
    pub(crate) height: u32,
    pub(crate) tile_size: u32,
    pub(crate) tiles: KeyedMap<LayerTileKey, TilePixels>,
}

impl View for GpuCpuMirrorSnapshot {
    type V = MirrorModel;

    open(crate) spec fn view(&self) -> MirrorModel {
        MirrorModel {
            revision: self.revision,
            geometry: RasterGeometry {
                width: self.width as int,
                height: self.height as int,
                tile_size: self.tile_size as int,
            },
            tiles: pixel_map(self.tiles@),
        }
    }
}

/// The tiles of one layer.
pub open spec fn layer_tiles(
    tiles: Map<LayerTileKey, Seq<LinearRgba>>,
    layer: LayerId,
) -> Map<TileCoord, Seq<LinearRgba>> {
    Map::new(
        |tile: TileCoord| tiles.contains_key(LayerTileKey { layer, tile }),
        |tile: TileCoord| tiles[LayerTileKey { layer, tile }],
    )
}

impl GpuCpuMirrorSnapshot {
    pub open(crate) spec fn wf(self) -> bool {
        &&& self@.geometry.valid()
        &&& self.tiles.wf()
        &&& mirror_tiles_valid(self@.geometry, self@.tiles)
    }

    pub fn revision(&self) -> (revision: DocumentRevision)
        ensures
            revision == self@.revision,
    {
        self.revision
    }

    pub fn dimensions(&self) -> (dimensions: [u32; 2])
        ensures
            dimensions[0] == self@.geometry.width,
            dimensions[1] == self@.geometry.height,
            dimensions == [self@.geometry.width as u32, self@.geometry.height as u32],
    {
        [self.width, self.height]
    }

    pub fn tile_size(&self) -> (tile_size: u32)
        ensures
            tile_size == self@.geometry.tile_size,
    {
        self.tile_size
    }

    pub fn tile_pixels(&self, key: LayerTileKey) -> (pixels: Option<&Vec<LinearRgba>>)
        requires
            self.wf(),
        ensures
            match pixels {
                Some(pixels) => self@.tiles.contains_key(key) && pixels@ == self@.tiles[key],
                None => !self@.tiles.contains_key(key),
            },
    {
        match self.tiles.get(key) {
            Some(pixels) => Some(&**pixels),
            None => None,
        }
    }

    pub fn tile_count(&self) -> (count: usize)
        requires
            self.wf(),
        ensures
            self@.tiles.dom().finite(),
            count == self@.tiles.dom().len(),
    {
        assert(self@.tiles.dom() =~= self.tiles@.dom());
        self.tiles.len()
    }

    /// A second snapshot of the same pixels.
    pub fn duplicate(&self) -> (copy: GpuCpuMirrorSnapshot)
        requires
            self.wf(),
        ensures
            copy.wf(),
            copy@ == self@,
    {
        GpuCpuMirrorSnapshot {
            revision: self.revision,
            width: self.width,
            height: self.height,
            tile_size: self.tile_size,
            tiles: share_tiles(&self.tiles),
        }
    }

    /// The raster of one layer. Tiles without color are left out.
    pub fn raster_layer(&self, layer: LayerId) -> (raster: Result<RasterLayer, RasterError>)
        requires
            self.wf(),
        ensures
            raster matches Ok(raster) && {
                &&& raster.wf()
                &&& raster@ == (RasterModel {
                    geometry: self@.geometry,
                    tiles: colored_tiles(layer_tiles(self@.tiles, layer)),
                    gesture: None,
                    next_gesture: 1,
                    undo_depth: 0,
                })
            },
    {
        let ghost geometry = self@.geometry;
        let mut raster = match RasterLayer::new(self.width, self.height, self.tile_size) {
            Ok(raster) => raster,
            Err(error) => {
                return Err(error);
            },
        };
        let ghost order = self.tiles.entries@;
        let mut i: usize = 0;
        proof {
            assert(raster@.tiles =~= colored_tiles(seen_tiles(order, layer, 0)));
        }
        while i < self.tiles.entries.len()
            invariant
                self.wf(),
                order == self.tiles.entries@,
                geometry == self@.geometry,
                i <= order.len(),
                raster.wf(),
                raster@ == (RasterModel {
                    geometry,
                    tiles: colored_tiles(seen_tiles(order, layer, i as int)),
                    gesture: None,
                    next_gesture: 1,
                    undo_depth: 0,
                }),
            decreases order.len() - i,
        {
            let key = self.tiles.entries[i].0;
            let ghost before = seen_tiles(order, layer, i as int);
            let ghost after = seen_tiles(order, layer, i as int + 1);
            proof {
                crate::keyed_map::lemma_entry_in_map(order, i as int);
                assert(self@.tiles.contains_key(key));
                lemma_seen_step(order, layer, i as int);
            }
            if key.layer.0 == layer.0 {
                let shared = share(&self.tiles.entries[i].1);
                let ghost content = shared@;
                match raster.restore_shared_tile(key.tile, shared) {
                    Ok(_) => {},
                    Err(error) => {
                        return Err(error);
                    },
                }
                proof {
                    assert(after == before.insert(key.tile, content));
                    assert(raster@.tiles =~= colored_tiles(after));
                }
            }
            i += 1;
        }
        proof {
            lemma_seen_all(order, layer);
        }
        Ok(raster)
    }
}

/// The tiles that hold some color.
pub open spec fn colored_tiles(tiles: Map<TileCoord, Seq<LinearRgba>>) -> Map<
    TileCoord,
    Seq<LinearRgba>,
> {
    Map::new(
        |tile: TileCoord|
            tiles.contains_key(tile) && !crate::raster_layer::all_transparent(tiles[tile]),
        |tile: TileCoord| tiles[tile],
    )
}

pub(crate) open(crate) spec fn seen_at(order: Seq<(LayerTileKey, TilePixels)>, layer: LayerId, n: int, tile: TileCoord) -> bool {
    exists|i: int|
        0 <= i < n && (#[trigger] order[i]).0 == (LayerTileKey { layer, tile })
}

pub(crate) open(crate) spec fn seen_tiles(order: Seq<(LayerTileKey, TilePixels)>, layer: LayerId, n: int) -> Map<
    TileCoord,
    Seq<LinearRgba>,
> {
    Map::new(
        |tile: TileCoord| seen_at(order, layer, n, tile),
        |tile: TileCoord|
            order[choose|i: int|
                0 <= i < n && (#[trigger] order[i]).0 == (LayerTileKey { layer, tile })].1@,
    )
}

proof fn lemma_seen_value(
    order: Seq<(LayerTileKey, TilePixels)>,
    layer: LayerId,
    n: int,
    i: int,
)
    requires
        crate::keyed_map::keys_unique(order),
        0 <= i < n <= order.len(),
        order[i].0.layer == layer,
    ensures
        seen_tiles(order, layer, n).contains_key(order[i].0.tile),
        seen_tiles(order, layer, n)[order[i].0.tile] == order[i].1@,
{
    let tile = order[i].0.tile;
    assert(order[i].0 == (LayerTileKey { layer, tile }));
    assert(seen_at(order, layer, n, tile));
    let j = choose|j: int|
        0 <= j < n && (#[trigger] order[j]).0 == (LayerTileKey { layer, tile });
    if i < j {
        assert(order[i].0 != order[j].0);
    } else if j < i {
        assert(order[j].0 != order[i].0);
    }
}

pub(crate) proof fn lemma_seen_step(order: Seq<(LayerTileKey, TilePixels)>, layer: LayerId, i: int)
    requires
        crate::keyed_map::keys_unique(order),
        0 <= i < order.len(),
    ensures
        seen_tiles(order, layer, i + 1) == (if order[i].0.layer == layer {
            seen_tiles(order, layer, i).insert(order[i].0.tile, order[i].1@)
        } else {
            seen_tiles(order, layer, i)
        }),
{
    let before = seen_tiles(order, layer, i);
    let after = seen_tiles(order, layer, i + 1);
    let expected = if order[i].0.layer == layer {
        before.insert(order[i].0.tile, order[i].1@)
    } else {
        before
    };
    assert forall|tile: TileCoord| after.contains_key(tile) == expected.contains_key(tile) by {
        if seen_at(order, layer, i + 1, tile) {
            let j = choose|j: int|
                0 <= j < i + 1 && (#[trigger] order[j]).0 == (LayerTileKey { layer, tile });
            if j < i {
                assert(seen_at(order, layer, i, tile));
            }
        }
        if seen_at(order, layer, i, tile) {
            let j = choose|j: int|
                0 <= j < i && (#[trigger] order[j]).0 == (LayerTileKey { layer, tile });
            assert(order[j].0 == (LayerTileKey { layer, tile }));
        }
        if order[i].0 == (LayerTileKey { layer, tile }) {
            assert(seen_at(order, layer, i + 1, tile));
        }
    }
    assert forall|tile: TileCoord| after.contains_key(tile) implies after[tile]
        == expected[tile] by {
        let j = choose|j: int|
            0 <= j < i + 1 && (#[trigger] order[j]).0 == (LayerTileKey { layer, tile });
        lemma_seen_value(order, layer, i + 1, j);
        if j < i {
            lemma_seen_value(order, layer, i, j);
            assert(order[j].0 != order[i].0);
        }
    }
    assert(after =~= expected);
}

pub(crate) proof fn lemma_seen_all(order: Seq<(LayerTileKey, TilePixels)>, layer: LayerId)
    requires
        crate::keyed_map::keys_unique(order),
    ensures
        seen_tiles(order, layer, order.len() as int) == layer_tiles(
            pixel_map(crate::keyed_map::entries_map(order)),
            layer,
        ),
{
    let n = order.len() as int;
    let seen = seen_tiles(order, layer, n);
    let all = layer_tiles(pixel_map(crate::keyed_map::entries_map(order)), layer);
    assert forall|tile: TileCoord| seen.contains_key(tile) == all.contains_key(tile) by {
        let key = LayerTileKey { layer, tile };
        if seen_at(order, layer, n, tile) {
            let j = choose|j: int| 0 <= j < n && (#[trigger] order[j]).0 == key;
            assert(crate::keyed_map::has_key(order, key));
        }
        if crate::keyed_map::has_key(order, key) {
            let j = choose|j: int| 0 <= j < order.len() && (#[trigger] order[j]).0 == key;
            assert(seen_at(order, layer, n, tile));
        }
    }
    assert forall|tile: TileCoord| seen.contains_key(tile) implies seen[tile] == all[tile] by {
        let key = LayerTileKey { layer, tile };
        let j = choose|j: int| 0 <= j < n && (#[trigger] order[j]).0 == key;
        lemma_seen_value(order, layer, n, j);
        crate::keyed_map::lemma_entry_in_map(order, j);
    }
    assert(seen =~= all);
}

/// What a region of a readback is about: which part of which tile, and whether
/// that tile holds pixels.
pub struct RegionShape {
    pub key: LayerTileKey,
    pub bounds: RectU32,
    pub initialized: bool,
}

pub open spec fn copy_shapes(regions: Seq<GpuMirrorCopyRegion>) -> Seq<RegionShape> {
    Seq::new(
        regions.len(),
        |i: int|
            RegionShape {
                key: regions[i].key,
                bounds: regions[i].local_bounds,
                initialized: regions[i].initialized,
            },
    )
}

pub open spec fn plan_shapes(batches: Seq<BatchPlanModel>) -> Seq<RegionShape>
    decreases batches.len(),
{
    if batches.len() == 0 {
        Seq::empty()
    } else {
        plan_shapes(batches.drop_last()) + copy_shapes(batches.last().regions)
    }
}

/// Why the rectangle does not lie in its tile's part of the canvas, if it does not.
pub open spec fn bounds_error(
    geometry: RasterGeometry,
    key: LayerTileKey,
    bounds: RectU32,
) -> Option<GpuMirrorReconcileError> {
    let valid = geometry.tile_bounds(key.tile);
    if key.tile.x * geometry.tile_size > u32::MAX || key.tile.y * geometry.tile_size > u32::MAX {
        Some(GpuMirrorReconcileError::TileCoordinateOverflow(key))
    } else if !geometry.has_tile(key.tile) {
        Some(GpuMirrorReconcileError::TileOutOfBounds(key))
    } else if bounds@.max_x > valid.width() || bounds@.max_y > valid.height() {
        Some(
            GpuMirrorReconcileError::RegionOutsideTile {
                key,
                bounds,
                valid_extent: [valid.width() as u32, valid.height() as u32],
            },
        )
    } else {
        None
    }
}

pub open spec fn states_conflict(shapes: Seq<RegionShape>, i: int) -> bool {
    exists|j: int|
        0 <= j < i && (#[trigger] shapes[j]).key == shapes[i].key && shapes[j].initialized
            != shapes[i].initialized
}

/// What is wrong with the `i`th shape, if anything.
pub open spec fn shape_error(
    geometry: RasterGeometry,
    shapes: Seq<RegionShape>,
    i: int,
) -> Option<GpuMirrorReconcileError> {
    match bounds_error(geometry, shapes[i].key, shapes[i].bounds) {
        Some(error) => Some(error),
        None => if states_conflict(shapes, i) {
            Some(GpuMirrorReconcileError::ConflictingResidentState(shapes[i].key))
        } else {
            None
        },
    }
}

/// What is wrong with the first of the first `n` shapes that is wrong.
pub open spec fn shapes_error(
    geometry: RasterGeometry,
    shapes: Seq<RegionShape>,
    n: int,
) -> Option<GpuMirrorReconcileError>
    decreases n,
{
    if n <= 0 {
        None
    } else {
        match shapes_error(geometry, shapes, n - 1) {
            Some(error) => Some(error),
            None => shape_error(geometry, shapes, n - 1),
        }
    }
}

pub open spec fn pixel_error(region: PatchRegionModel) -> Option<GpuMirrorReconcileError> {
    let expected = if region.initialized {
        region.bounds.area()
    } else {
        0
    };
    if region.pixels.len() != expected {
        Some(
            GpuMirrorReconcileError::InvalidPixelCount {
                key: region.key,
                expected: expected as usize,
                actual: region.pixels.len() as usize,
            },
        )
    } else {
        None
    }
}

pub open spec fn patch_shapes(regions: Seq<GpuMirrorPatchRegion>) -> Seq<RegionShape> {
    Seq::new(
        regions.len(),
        |i: int|
            RegionShape {
                key: regions[i].key,
                bounds: regions[i].local_bounds,
                initialized: regions[i].initialized,
            },
    )
}

/// What is wrong with the first of the first `n` patches that is wrong.
pub open spec fn patches_error(
    geometry: RasterGeometry,
    regions: Seq<GpuMirrorPatchRegion>,
    n: int,
) -> Option<GpuMirrorReconcileError>
    decreases n,
{
    if n <= 0 {
        None
    } else {
        match patches_error(geometry, regions, n - 1) {
            Some(error) => Some(error),
            None => match shape_error(geometry, patch_shapes(regions), n - 1) {
                Some(error) => Some(error),
                None => pixel_error(regions[n - 1]@),
            },
        }
    }
}

pub open spec fn borrowed_batches(batches: Seq<&GpuMirrorPatchBatch>) -> Seq<GpuMirrorPatchBatch> {
    Seq::new(batches.len(), |i: int| *batches[i])
}

/// What is wrong with the first of the first `n` batches that is wrong: it belongs to another
/// revision, or one of its patches is wrong in itself or beside the patches before it.
pub open(crate) spec fn revision_error(
    geometry: RasterGeometry,
    revision: DocumentRevision,
    batches: Seq<GpuMirrorPatchBatch>,
    n: int,
) -> Option<GpuMirrorReconcileError>
    decreases n,
{
    if n <= 0 {
        None
    } else {
        match revision_error(geometry, revision, batches, n - 1) {
            Some(error) => Some(error),
            None => if batches[n - 1].revision != revision {
                Some(
                    GpuMirrorReconcileError::PatchRevisionMismatch {
                        expected: revision,
                        actual: batches[n - 1].revision,
                    },
                )
            } else {
                patches_error(
                    geometry,
                    flat_regions(batches),
                    flat_regions(batches.subrange(0, n)).len() as int,
                )
            },
        }
    }
}

/// Patches that can be written: each lies on the canvas and brings a pixel for each of its places,
/// and those of one tile agree on whether it holds pixels.
pub open(crate) spec fn patches_fit(
    geometry: RasterGeometry,
    regions: Seq<GpuMirrorPatchRegion>,
    n: int,
) -> bool {
    &&& forall|i: int|
        #![trigger regions[i]]
        0 <= i < n ==> {
            &&& bounds_error(geometry, regions[i].key, regions[i].local_bounds) is None
            &&& regions[i].pixels@.len() == if regions[i].initialized {
                regions[i].local_bounds@.area()
            } else {
                0
            }
        }
    &&& forall|i: int, j: int|
        #![trigger regions[i], regions[j]]
        0 <= i < n && 0 <= j < n && regions[i].key == regions[j].key ==> regions[i].initialized
            == regions[j].initialized
}

proof fn lemma_patches_fit(
    geometry: RasterGeometry,
    regions: Seq<GpuMirrorPatchRegion>,
    n: int,
)
    requires
        0 <= n <= regions.len(),
    ensures
        patches_error(geometry, regions, n) is None <==> patches_fit(geometry, regions, n),
    decreases n,
{
    if n > 0 {
        lemma_patches_fit(geometry, regions, n - 1);
        let shapes = patch_shapes(regions);
        let last = n - 1;
        assert(shapes[last].key == regions[last].key);
        if patches_fit(geometry, regions, n) {
            assert(regions[last] == regions[n - 1]);
            assert(!states_conflict(shapes, last)) by {
                if states_conflict(shapes, last) {
                    let j = choose|j: int|
                        0 <= j < last && (#[trigger] shapes[j]).key == shapes[last].key
                            && shapes[j].initialized != shapes[last].initialized;
                    assert(regions[j].key == regions[last].key);
                }
            }
        }
        if patches_error(geometry, regions, n) is None {
            assert forall|i: int, j: int|
                #![trigger regions[i], regions[j]]
                0 <= i < n && 0 <= j < n && regions[i].key
                    == regions[j].key implies regions[i].initialized == regions[j].initialized by {
                assert(shapes[i].key == regions[i].key);
                assert(shapes[j].key == regions[j].key);
            }
        }
    }
}

/// A revision is refused exactly where one of its batches belongs to another revision or where
/// its patches, over all batches, do not fit.
pub proof fn law_revision_is_checked_as_a_whole(
    geometry: RasterGeometry,
    revision: DocumentRevision,
    batches: Seq<GpuMirrorPatchBatch>,
)
    ensures
        revision_error(geometry, revision, batches, batches.len() as int) is None <==> {
            &&& forall|b: int|
                0 <= b < batches.len() ==> (#[trigger] batches[b])@.revision == revision
            &&& patches_fit(geometry, flat_regions(batches), flat_regions(batches).len() as int)
        },
{
    let count = batches.len() as int;
    let all = flat_regions(batches);
    lemma_patches_fit(geometry, all, all.len() as int);
    lemma_revision_checked(geometry, revision, batches, count);
    assert(batches.subrange(0, count) =~= batches);
}

proof fn lemma_revision_checked(
    geometry: RasterGeometry,
    revision: DocumentRevision,
    batches: Seq<GpuMirrorPatchBatch>,
    n: int,
)
    requires
        0 <= n <= batches.len(),
    ensures
        revision_error(geometry, revision, batches, n) is None <==> {
            &&& forall|b: int| 0 <= b < n ==> (#[trigger] batches[b]).revision == revision
            &&& patches_error(
                geometry,
                flat_regions(batches),
                flat_regions(batches.subrange(0, n)).len() as int,
            ) is None
        },
    decreases n,
{
    let all = flat_regions(batches);
    if n > 0 {
        lemma_revision_checked(geometry, revision, batches, n - 1);
        lemma_flat_prefix(batches, n);
        lemma_flat_prefix(batches, n - 1);
        let before = flat_regions(batches.subrange(0, n - 1)).len() as int;
        let now = flat_regions(batches.subrange(0, n)).len() as int;
        assert(batches.subrange(0, n).drop_last() =~= batches.subrange(0, n - 1));
        if patches_error(geometry, all, before) is Some {
            lemma_patches_fail(geometry, all, before, now);
        }
        if forall|b: int| 0 <= b < n ==> (#[trigger] batches[b]).revision == revision {
            assert(batches[n - 1].revision == revision);
        }
    } else {
        assert(batches.subrange(0, 0) =~= Seq::<GpuMirrorPatchBatch>::empty());
    }
}

/// The patches of the first batches are the first patches.
proof fn lemma_flat_prefix(batches: Seq<GpuMirrorPatchBatch>, n: int)
    requires
        0 <= n <= batches.len(),
    ensures
        flat_regions(batches.subrange(0, n)).len() <= flat_regions(batches).len(),
        flat_regions(batches.subrange(0, n)) == flat_regions(batches).subrange(
            0,
            flat_regions(batches.subrange(0, n)).len() as int,
        ),
    decreases batches.len() - n,
{
    let prefix = batches.subrange(0, n);
    let all = flat_regions(batches);
    if n == batches.len() {
        assert(prefix =~= batches);
        assert(all.subrange(0, all.len() as int) =~= all);
    } else {
        lemma_flat_prefix(batches, n + 1);
        let longer = batches.subrange(0, n + 1);
        assert(longer.drop_last() =~= prefix);
        let head = flat_regions(prefix);
        assert(head =~= flat_regions(longer).subrange(0, head.len() as int));
        assert(head =~= all.subrange(0, head.len() as int));
    }
}

proof fn lemma_revision_fails(
    geometry: RasterGeometry,
    revision: DocumentRevision,
    batches: Seq<GpuMirrorPatchBatch>,
    at: int,
    n: int,
)
    requires
        0 <= at <= n,
        revision_error(geometry, revision, batches, at) is Some,
    ensures
        revision_error(geometry, revision, batches, n) == revision_error(
            geometry,
            revision,
            batches,
            at,
        ),
    decreases n - at,
{
    if at < n {
        lemma_revision_fails(geometry, revision, batches, at + 1, n);
    }
}

/// The tiles after one patch. A patch of a tile without pixels removes it.
pub open spec fn apply_region(
    geometry: RasterGeometry,
    tiles: Map<LayerTileKey, Seq<LinearRgba>>,
    region: PatchRegionModel,
) -> Map<LayerTileKey, Seq<LinearRgba>> {
    if region.initialized {
        let base = if tiles.contains_key(region.key) {
            tiles[region.key]
        } else {
            uniform(transparent(), geometry.tile_len())
        };
        tiles.insert(
            region.key,
            patched(
                base,
                geometry.tile_size,
                region.bounds,
                geometry.tile_size,
                geometry.tile_size,
                region.pixels,
            ),
        )
    } else {
        tiles.remove(region.key)
    }
}

pub open spec fn apply_regions(
    geometry: RasterGeometry,
    tiles: Map<LayerTileKey, Seq<LinearRgba>>,
    regions: Seq<PatchRegionModel>,
) -> Map<LayerTileKey, Seq<LinearRgba>>
    decreases regions.len(),
{
    if regions.len() == 0 {
        tiles
    } else {
        apply_region(geometry, apply_regions(geometry, tiles, regions.drop_last()), regions.last())
    }
}

/// The tiles after all patches of a revision.
pub open spec fn apply_batches(
    geometry: RasterGeometry,
    tiles: Map<LayerTileKey, Seq<LinearRgba>>,
    batches: Seq<PatchBatchModel>,
) -> Map<LayerTileKey, Seq<LinearRgba>>
    decreases batches.len(),
{
    if batches.len() == 0 {
        tiles
    } else {
        apply_regions(
            geometry,
            apply_batches(geometry, tiles, batches.drop_last()),
            batches.last().regions,
        )
    }
}

/// A patch that can be written: inside its tile, with as many pixels as it has room for.
pub open spec fn patch_applies(geometry: RasterGeometry, region: PatchRegionModel) -> bool {
    &&& geometry.has_tile(region.key.tile)
    &&& region.initialized ==> {
        &&& region.bounds.nonempty()
        &&& region.bounds.max_x <= geometry.tile_size
        &&& region.bounds.max_y <= geometry.tile_size
        &&& region.pixels.len() == region.bounds.area()
    }
}

/// The document's pixels in main memory.
#[derive(Debug)]
pub struct GpuCpuMirror {
    pub(crate) revision: DocumentRevision,
    pub(crate) width: u32,
    pub(crate) height: u32,
    pub(crate) tile_size: u32,
    pub(crate) tile_pixel_count: usize,
    pub(crate) tiles: KeyedMap<LayerTileKey, TilePixels>,
}

impl View for GpuCpuMirror {
    type V = MirrorModel;

    open(crate) spec fn view(&self) -> MirrorModel {
        MirrorModel {
            revision: self.revision,
            geometry: RasterGeometry {
                width: self.width as int,
                height: self.height as int,
                tile_size: self.tile_size as int,
            },
            tiles: pixel_map(self.tiles@),
        }
    }
}

pub open spec fn mirror_geometry(width: u32, height: u32, tile_size: u32) -> RasterGeometry {
    RasterGeometry {
        width: width as int,
        height: height as int,
        tile_size: tile_size as int,
    }
}

impl GpuCpuMirror {
    pub open(crate) spec fn wf(self) -> bool {
        &&& self@.geometry.valid()
        &&& self.tile_pixel_count == self@.geometry.tile_len()
        &&& self.tiles.wf()
        &&& mirror_tiles_valid(self@.geometry, self@.tiles)
    }

    pub fn new(width: u32, height: u32, tile_size: u32, revision: DocumentRevision) -> (mirror:
        Result<GpuCpuMirror, GpuMirrorReconcileError>)
        ensures
            match mirror {
                Ok(mirror) => {
                    &&& mirror.wf()
                    &&& mirror@ == (MirrorModel {
                        revision,
                        geometry: mirror_geometry(width, height, tile_size),
                        tiles: Map::empty(),
                    })
                },
                Err(GpuMirrorReconcileError::EmptyCanvas) => width == 0 || height == 0,
                Err(GpuMirrorReconcileError::InvalidTileSize) => width > 0 && height > 0
                    && tile_size == 0,
                Err(GpuMirrorReconcileError::TileStorageOverflow) => width > 0 && height > 0
                    && tile_size > 0 && (tile_size * tile_size > u32::MAX || tile_size * tile_size
                    > usize::MAX),
                Err(_) => false,
            },
            mirror is Ok <==> mirror_geometry(width, height, tile_size).valid(),
    {
        if width == 0 || height == 0 {
            return Err(GpuMirrorReconcileError::EmptyCanvas);
        }
        if tile_size == 0 {
            return Err(GpuMirrorReconcileError::InvalidTileSize);
        }
        let tile_pixel_count = match tile_size.checked_mul(tile_size) {
            Some(count) => {
                if count as u64 > usize::MAX as u64 {
                    return Err(GpuMirrorReconcileError::TileStorageOverflow);
                }
                count as usize
            },
            None => {
                return Err(GpuMirrorReconcileError::TileStorageOverflow);
            },
        };
        let mirror = GpuCpuMirror {
            revision,
            width,
            height,
            tile_size,
            tile_pixel_count,
            tiles: KeyedMap::new(),
        };
        assert(mirror@.tiles =~= Map::<LayerTileKey, Seq<LinearRgba>>::empty());
        Ok(mirror)
    }

    pub fn revision(&self) -> (revision: DocumentRevision)
        ensures
            revision == self@.revision,
    {
        self.revision
    }

    pub fn tile_count(&self) -> (count: usize)
        requires
            self.wf(),
        ensures
            self@.tiles.dom().finite(),
            count == self@.tiles.dom().len(),
    {
        assert(self@.tiles.dom() =~= self.tiles@.dom());
        self.tiles.len()
    }

    pub fn tile_pixels(&self, key: LayerTileKey) -> (pixels: Option<&Vec<LinearRgba>>)
        requires
            self.wf(),
        ensures
            match pixels {
                Some(pixels) => self@.tiles.contains_key(key) && pixels@ == self@.tiles[key],
                None => !self@.tiles.contains_key(key),
            },
    {
        match self.tiles.get(key) {
            Some(pixels) => Some(&**pixels),
            None => None,
        }
    }

    /// The pixels as they are now. Later changes of the mirror do not reach it.
    pub fn snapshot(&self) -> (snapshot: GpuCpuMirrorSnapshot)
        requires
            self.wf(),
        ensures
            snapshot.wf(),
            snapshot@ == self@,
    {
        GpuCpuMirrorSnapshot {
            revision: self.revision,
            width: self.width,
            height: self.height,
            tile_size: self.tile_size,
            tiles: share_tiles(&self.tiles),
        }
    }

    fn validate_region_bounds(&self, key: LayerTileKey, bounds: RectU32) -> (valid: Result<
        (),
        GpuMirrorReconcileError,
    >)
        requires
            self.wf(),
        ensures
            match valid {
                Ok(_) => bounds_error(self@.geometry, key, bounds) is None,
                Err(error) => bounds_error(self@.geometry, key, bounds) == Some(error),
            },
    {
        let (origin_x, origin_y) = match (
            key.tile.x.checked_mul(self.tile_size),
            key.tile.y.checked_mul(self.tile_size),
        ) {
            (Some(x), Some(y)) => (x, y),
            _ => {
                return Err(GpuMirrorReconcileError::TileCoordinateOverflow(key));
            },
        };
        if origin_x >= self.width || origin_y >= self.height {
            return Err(GpuMirrorReconcileError::TileOutOfBounds(key));
        }
        let valid_width: u32 = if self.tile_size <= self.width - origin_x {
            self.tile_size
        } else {
            self.width - origin_x
        };
        let valid_height: u32 = if self.tile_size <= self.height - origin_y {
            self.tile_size
        } else {
            self.height - origin_y
        };
        if bounds.max_x() > valid_width || bounds.max_y() > valid_height {
            return Err(
                GpuMirrorReconcileError::RegionOutsideTile {
                    key,
                    bounds,
                    valid_extent: [valid_width, valid_height],
                },
            );
        }
        Ok(())
    }

    /// Checks one shape against those before it, which `residents` remembers.
    fn validate_shape(
        &self,
        residents: &mut KeyedMap<LayerTileKey, bool>,
        key: LayerTileKey,
        bounds: RectU32,
        initialized: bool,
        Ghost(shapes): Ghost<Seq<RegionShape>>,
        Ghost(i): Ghost<int>,
    ) -> (valid: Result<(), GpuMirrorReconcileError>)
        requires
            self.wf(),
            0 <= i < shapes.len(),
            shapes[i] == (RegionShape { key, bounds, initialized }),
            residents_of(old(residents), shapes, i),
        ensures
            match valid {
                Ok(_) => shape_error(self@.geometry, shapes, i) is None && residents_of(
                    final(residents),
                    shapes,
                    i + 1,
                ),
                Err(error) => shape_error(self@.geometry, shapes, i) == Some(error),
            },
    {
        match self.validate_region_bounds(key, bounds) {
            Ok(_) => {},
            Err(error) => {
                return Err(error);
            },
        }
        match residents.insert(key, initialized) {
            Some(previous) => {
                if previous != initialized {
                    assert(states_conflict(shapes, i)) by {
                        let j = choose|j: int| 0 <= j < i && (#[trigger] shapes[j]).key == key;
                        assert(shapes[j].key == key);
                    }
                    return Err(GpuMirrorReconcileError::ConflictingResidentState(key));
                }
            },
            None => {},
        }
        Ok(())
    }

    pub(crate) fn validate_plan(&self, plan: &GpuMirrorReadbackPlan) -> (valid: Result<
        (),
        GpuMirrorReconcileError,
    >)
        requires
            self.wf(),
        ensures
            ({
                let shapes = plan_shapes(plan@.batches);
                let error = shapes_error(self@.geometry, shapes, shapes.len() as int);
                match valid {
                    Ok(_) => error is None,
                    Err(found) => error == Some(found),
                }
            }),
    {
        let batches = plan.batches();
        let ghost models = plan@.batches;
        let ghost shapes = plan_shapes(models);
        let mut residents: KeyedMap<LayerTileKey, bool> = KeyedMap::new();
        let mut b: usize = 0;
        proof {
            assert(models.subrange(0, 0) =~= Seq::<BatchPlanModel>::empty());
            lemma_shapes_prefix(models, 0);
        }
        while b < batches.len()
            invariant
                self.wf(),
                models == plan@.batches,
                models == crate::gpu_document_mirror::batch_models(batches@),
                shapes == plan_shapes(models),
                b <= batches@.len(),
                plan_shapes(models.subrange(0, b as int)).len() <= shapes.len(),
                residents_of(
                    &residents,
                    shapes,
                    plan_shapes(models.subrange(0, b as int)).len() as int,
                ),
                shapes_error(
                    self@.geometry,
                    shapes,
                    plan_shapes(models.subrange(0, b as int)).len() as int,
                ) is None,
            decreases batches@.len() - b,
        {
            let regions = batches[b].regions();
            let ghost start = plan_shapes(models.subrange(0, b as int)).len() as int;
            proof {
                lemma_shapes_prefix(models, b as int + 1);
                let prefix = models.subrange(0, b as int + 1);
                assert(prefix.drop_last() =~= models.subrange(0, b as int));
                assert(prefix.last() == batches@[b as int]@);
                let added = copy_shapes(regions@);
                assert forall|k: int| 0 <= k < regions@.len() implies #[trigger] shapes[start + k]
                    == added[k] by {
                    assert(plan_shapes(prefix)[start + k] == added[k]);
                }
            }
            let mut r: usize = 0;
            while r < regions.len()
                invariant
                    self.wf(),
                    b < models.len(),
                    models == plan@.batches,
                    shapes == plan_shapes(models),
                    regions@ == models[b as int].regions,
                    0 <= start,
                    start + regions@.len() <= shapes.len(),
                    forall|k: int|
                        0 <= k < regions@.len() ==> #[trigger] shapes[start + k] == copy_shapes(
                            regions@,
                        )[k],
                    r <= regions@.len(),
                    residents_of(&residents, shapes, start + r),
                    shapes_error(self@.geometry, shapes, start + r) is None,
                decreases regions@.len() - r,
            {
                let region = regions[r];
                assert(shapes[start + r] == copy_shapes(regions@)[r as int]);
                match self.validate_shape(
                    &mut residents,
                    region.key,
                    region.local_bounds,
                    region.initialized,
                    Ghost(shapes),
                    Ghost(start + r),
                ) {
                    Ok(_) => {},
                    Err(error) => {
                        proof {
                            lemma_shapes_fail(
                                self@.geometry,
                                shapes,
                                start + r + 1,
                                shapes.len() as int,
                            );
                        }
                        return Err(error);
                    },
                }
                r += 1;
            }
            b += 1;
        }
        assert(models.subrange(0, b as int) =~= models);
        Ok(())
    }

    /// Checks the batches of a revision: that they belong to it, where their patches go, that
    /// they agree on which tiles hold pixels, and how many pixels they bring.
    pub(crate) fn validate_revision(
        &self,
        revision: DocumentRevision,
        batches: &Vec<&GpuMirrorPatchBatch>,
    ) -> (valid: Result<(), GpuMirrorReconcileError>)
        requires
            self.wf(),
        ensures
            ({
                let error = revision_error(
                    self@.geometry,
                    revision,
                    borrowed_batches(batches@),
                    batches@.len() as int,
                );
                match valid {
                    Ok(_) => error is None,
                    Err(found) => error == Some(found),
                }
            }),
            valid is Ok ==> forall|b: int, r: int|
                #![trigger batches@[b].regions@[r]]
                0 <= b < batches@.len() && 0 <= r < batches@[b].regions@.len()
                    && batches@[b].regions@[r].initialized
                    ==> batches@[b].regions@[r].local_bounds@.nonempty(),
    {
        let ghost geometry = self@.geometry;
        let ghost all = borrowed_batches(batches@);
        let ghost patches = flat_regions(all);
        let ghost shapes = patch_shapes(patches);
        let mut residents: KeyedMap<LayerTileKey, bool> = KeyedMap::new();
        let mut b: usize = 0;
        assert(all.subrange(0, 0) =~= Seq::<GpuMirrorPatchBatch>::empty());
        while b < batches.len()
            invariant
                self.wf(),
                geometry == self@.geometry,
                all == borrowed_batches(batches@),
                patches == flat_regions(all),
                shapes == patch_shapes(patches),
                b <= batches@.len(),
                residents_of(
                    &residents,
                    shapes,
                    flat_regions(all.subrange(0, b as int)).len() as int,
                ),
                patches_error(
                    geometry,
                    patches,
                    flat_regions(all.subrange(0, b as int)).len() as int,
                ) is None,
                revision_error(geometry, revision, all, b as int) is None,
                forall|c: int, r: int|
                    #![trigger batches@[c].regions@[r]]
                    0 <= c < b && 0 <= r < batches@[c].regions@.len()
                        && batches@[c].regions@[r].initialized
                        ==> batches@[c].regions@[r].local_bounds@.nonempty(),
            decreases batches@.len() - b,
        {
            let batch = batches[b];
            assert(all[b as int] == *batch);
            if batch.revision.0 != revision.0 {
                proof {
                    lemma_revision_fails(
                        geometry,
                        revision,
                        all,
                        b as int + 1,
                        all.len() as int,
                    );
                }
                return Err(
                    GpuMirrorReconcileError::PatchRevisionMismatch {
                        expected: revision,
                        actual: batch.revision,
                    },
                );
            }
            let ghost start = flat_regions(all.subrange(0, b as int)).len() as int;
            let ghost end = flat_regions(all.subrange(0, b as int + 1)).len() as int;
            proof {
                let longer = all.subrange(0, b as int + 1);
                assert(longer.drop_last() =~= all.subrange(0, b as int));
                assert(longer.last() == *batch);
                lemma_flat_prefix(all, b as int + 1);
                assert forall|k: int|
                    #![trigger patches[start + k]]
                    0 <= k < batch.regions@.len() implies patches[start + k]
                    == batch.regions@[k] by {
                    assert(flat_regions(longer)[start + k] == batch.regions@[k]);
                }
            }
            let mut i: usize = 0;
            while i < batch.regions.len()
                invariant
                    self.wf(),
                    geometry == self@.geometry,
                    all == borrowed_batches(batches@),
                    patches == flat_regions(all),
                    shapes == patch_shapes(patches),
                    b < all.len(),
                    all[b as int].revision == revision,
                    revision_error(geometry, revision, all, b as int) is None,
                    0 <= start,
                    end == flat_regions(all.subrange(0, b as int + 1)).len(),
                    end == start + batch.regions@.len(),
                    end <= patches.len(),
                    forall|k: int|
                        #![trigger patches[start + k]]
                        0 <= k < batch.regions@.len() ==> patches[start + k] == batch.regions@[k],
                    i <= batch.regions@.len(),
                    residents_of(&residents, shapes, start + i),
                    patches_error(geometry, patches, start + i) is None,
                    forall|r: int|
                        #![trigger batch.regions@[r]]
                        0 <= r < i && batch.regions@[r].initialized
                            ==> batch.regions@[r].local_bounds@.nonempty(),
                decreases batch.regions@.len() - i,
            {
                let region = &batch.regions[i];
                assert(patches[start + i] == *region);
                match self.validate_shape(
                    &mut residents,
                    region.key,
                    region.local_bounds,
                    region.initialized,
                    Ghost(shapes),
                    Ghost(start + i),
                ) {
                    Ok(_) => {},
                    Err(error) => {
                        proof {
                            lemma_patches_fail(geometry, patches, start + i + 1, end);
                            lemma_revision_fails(
                                geometry,
                                revision,
                                all,
                                b as int + 1,
                                all.len() as int,
                            );
                        }
                        return Err(error);
                    },
                }
                let expected: usize = if region.initialized {
                    let area: u64 = region.local_bounds.area();
                    proof {
                        lemma_area_in_tile(geometry, region.key, region.local_bounds);
                    }
                    area as usize
                } else {
                    0
                };
                if region.pixels.len() != expected {
                    proof {
                        lemma_patches_fail(geometry, patches, start + i + 1, end);
                        lemma_revision_fails(
                            geometry,
                            revision,
                            all,
                            b as int + 1,
                            all.len() as int,
                        );
                    }
                    return Err(
                        GpuMirrorReconcileError::InvalidPixelCount {
                            key: region.key,
                            expected,
                            actual: region.pixels.len(),
                        },
                    );
                }
                i += 1;
            }
            b += 1;
        }
        Ok(())
    }

    /// Writes one patch.
    fn apply_patch(&mut self, region: &GpuMirrorPatchRegion)
        requires
            old(self).wf(),
            patch_applies(old(self)@.geometry, region@),
        ensures
            final(self).wf(),
            final(self)@ == (MirrorModel {
                tiles: apply_region(old(self)@.geometry, old(self)@.tiles, region@),
                ..old(self)@
            }),
    {
        let ghost before = self@;
        if !region.initialized {
            self.tiles.remove(region.key);
            proof {
                assert(self@.tiles =~= before.tiles.remove(region.key));
                assert forall|key: LayerTileKey| #[trigger]
                    self@.tiles.contains_key(key) implies before.geometry.has_tile(key.tile)
                    && self@.tiles[key].len() == before.geometry.tile_len() by {
                    assert(before.tiles.contains_key(key));
                }
            }
            return ;
        }
        let mut pixels = match self.tiles.get(region.key) {
            Some(pixels) => {
                assert(before.tiles.contains_key(region.key));
                copy_pixels(pixels)
            },
            None => uniform_pixels(LinearRgba::transparent(), self.tile_pixel_count),
        };
        patch_pixels(
            &mut pixels,
            self.tile_size,
            region.local_bounds,
            self.tile_size,
            self.tile_size,
            &region.pixels,
        );
        self.tiles.insert(region.key, Arc::new(pixels));
        proof {
            assert(self@.tiles =~= apply_region(before.geometry, before.tiles, region@));
            assert forall|key: LayerTileKey| #[trigger] self@.tiles.contains_key(key) implies
                before.geometry.has_tile(key.tile) && self@.tiles[key].len()
                == before.geometry.tile_len() by {
                if key != region.key {
                    assert(before.tiles.contains_key(key));
                }
            }
        }
    }

    /// Writes all patches of a revision that has been checked.
    pub(crate) fn apply_validated_revision(
        &mut self,
        revision: DocumentRevision,
        batches: &Vec<GpuMirrorPatchBatch>,
    )
        requires
            old(self).wf(),
            forall|b: int, r: int|
                #![trigger batches@[b].regions@[r]]
                0 <= b < batches@.len() && 0 <= r < batches@[b].regions@.len() ==> patch_applies(
                    old(self)@.geometry,
                    batches@[b].regions@[r]@,
                ),
        ensures
            final(self).wf(),
            final(self)@ == (MirrorModel {
                revision,
                geometry: old(self)@.geometry,
                tiles: apply_batches(
                    old(self)@.geometry,
                    old(self)@.tiles,
                    patch_batch_models(batches@),
                ),
            }),
    {
        let ghost before = self@;
        let ghost models = patch_batch_models(batches@);
        let mut b: usize = 0;
        assert(models.subrange(0, 0) =~= Seq::<PatchBatchModel>::empty());
        while b < batches.len()
            invariant
                self.wf(),
                before == old(self)@,
                models == patch_batch_models(batches@),
                b <= batches@.len(),
                forall|b: int, r: int|
                    #![trigger batches@[b].regions@[r]]
                    0 <= b < batches@.len() && 0 <= r < batches@[b].regions@.len()
                        ==> patch_applies(before.geometry, batches@[b].regions@[r]@),
                self@ == (MirrorModel {
                    tiles: apply_batches(
                        before.geometry,
                        before.tiles,
                        models.subrange(0, b as int),
                    ),
                    ..before
                }),
            decreases batches@.len() - b,
        {
            let ghost start = self@.tiles;
            let ghost region_seq = models[b as int].regions;
            let mut r: usize = 0;
            assert(region_seq.subrange(0, 0) =~= Seq::<PatchRegionModel>::empty());
            while r < batches[b as usize].regions.len()
                invariant
                    self.wf(),
                    b < batches@.len(),
                    models == patch_batch_models(batches@),
                    region_seq == models[b as int].regions,
                    forall|b: int, r: int|
                        #![trigger batches@[b].regions@[r]]
                        0 <= b < batches@.len() && 0 <= r < batches@[b].regions@.len()
                            ==> patch_applies(before.geometry, batches@[b].regions@[r]@),
                    r <= batches@[b as int].regions@.len(),
                    self@ == (MirrorModel {
                        tiles: apply_regions(
                            before.geometry,
                            start,
                            region_seq.subrange(0, r as int),
                        ),
                        ..before
                    }),
                decreases batches@[b as int].regions@.len() - r,
            {
                proof {
                    let prefix = region_seq.subrange(0, r as int + 1);
                    assert(prefix.drop_last() =~= region_seq.subrange(0, r as int));
                    assert(prefix.last() == batches@[b as int].regions@[r as int]@);
                }
                self.apply_patch(&batches[b].regions[r]);
                r += 1;
            }
            proof {
                assert(region_seq.subrange(0, r as int) =~= region_seq);
                let prefix = models.subrange(0, b as int + 1);
                assert(prefix.drop_last() =~= models.subrange(0, b as int));
                assert(prefix.last() == models[b as int]);
            }
            b += 1;
        }
        assert(models.subrange(0, b as int) =~= models);
        self.revision = revision;
    }
}

pub open(crate) spec fn patch_batch_models(batches: Seq<GpuMirrorPatchBatch>) -> Seq<
    PatchBatchModel,
> {
    Seq::new(batches.len(), |i: int| batches[i]@)
}

/// `residents` holds the state of every tile that the first `n` shapes name.
pub open spec fn residents_of(
    residents: &KeyedMap<LayerTileKey, bool>,
    shapes: Seq<RegionShape>,
    n: int,
) -> bool {
    &&& residents.wf()
    &&& forall|j: int|
        0 <= j < n ==> residents@.contains_key((#[trigger] shapes[j]).key)
            && residents@[shapes[j].key] == shapes[j].initialized
    &&& forall|key: LayerTileKey| #[trigger]
        residents@.contains_key(key) ==> exists|j: int|
            0 <= j < n && (#[trigger] shapes[j]).key == key
}

pub proof fn lemma_shapes_fail(
    geometry: RasterGeometry,
    shapes: Seq<RegionShape>,
    at: int,
    n: int,
)
    requires
        0 <= at <= n,
        shapes_error(geometry, shapes, at) is Some,
    ensures
        shapes_error(geometry, shapes, n) == shapes_error(geometry, shapes, at),
    decreases n - at,
{
    if at < n {
        lemma_shapes_fail(geometry, shapes, at + 1, n);
    }
}

proof fn lemma_patches_fail(
    geometry: RasterGeometry,
    regions: Seq<GpuMirrorPatchRegion>,
    at: int,
    n: int,
)
    requires
        0 <= at <= n,
        patches_error(geometry, regions, at) is Some,
    ensures
        patches_error(geometry, regions, n) == patches_error(geometry, regions, at),
    decreases n - at,
{
    if at < n {
        lemma_patches_fail(geometry, regions, at + 1, n);
    }
}

/// The shapes of the first batches are the first shapes.
pub proof fn lemma_shapes_prefix(batches: Seq<BatchPlanModel>, b: int)
    requires
        0 <= b <= batches.len(),
    ensures
        plan_shapes(batches.subrange(0, b)).len() <= plan_shapes(batches).len(),
        forall|k: int|
            0 <= k < plan_shapes(batches.subrange(0, b)).len() ==> plan_shapes(batches)[k]
                == #[trigger] plan_shapes(batches.subrange(0, b))[k],
    decreases batches.len(),
{
    if b == batches.len() {
        assert(batches.subrange(0, b) =~= batches);
    } else {
        let rest = batches.drop_last();
        lemma_shapes_prefix(rest, b);
        assert(rest.subrange(0, b) =~= batches.subrange(0, b));
    }
}

proof fn lemma_area_in_tile(geometry: RasterGeometry, key: LayerTileKey, bounds: RectU32)
    requires
        geometry.valid(),
        bounds_error(geometry, key, bounds) is None,
        bounds@.nonempty(),
    ensures
        0 < bounds@.area() <= geometry.tile_len(),
{
    let w = bounds@.width();
    let h = bounds@.height();
    let size = geometry.tile_size;
    assert(0 < w * h <= size * size) by (nonlinear_arith)
        requires
            0 < w <= size,
            0 < h <= size,
    ;
}

} // verus!
