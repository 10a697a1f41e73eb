//! Continuous strokes, and what a stroke read back from the device does to a layer.

use crate::pixel_grid::lemma_grid_row;
use crate::raster::{damage_add, Damage, LinearRgba, Rect, RectU32, TileCoord};
use crate::raster_layer::{
    copy_pixels, edit_error, tile_or_blank, uniform_pixels, GestureId, GestureModel,
    RasterError, RasterGeometry, RasterLayer, RasterModel,
};
use crate::stroke::{equal_numbers, is_finite, is_positive, magnitude, numbers_equal};
use vstd::prelude::*;

pub use crate::gpu_blade_stroke::{ContinuousBladeError, ContinuousBladeStroke, GpuStrokeBatch};

verus! {

/// A corner of a triangle, as the bits of its coordinates.
#[derive(Clone, Copy, Debug, PartialEq, Eq)]
pub struct GpuStrokeVertex {
    pub position: [u32; 2],
}

/// What a stroke has touched of a tile.
#[derive(Clone, Copy, Debug, PartialEq, Eq, Structural)]
pub struct StrokeTileDamage {
    pub coord: TileCoord,
    pub local_damage: RectU32,
}

/// A tile of a stroke that is laid over a layer.
#[derive(Clone, Debug, PartialEq)]
pub struct SourceOverTile {
    pub(crate) coord: TileCoord,
    pub(crate) local_damage: RectU32,
    pub(crate) pixels: Vec<LinearRgba>,
}

pub struct SourceOverModel {
    pub coord: TileCoord,
    pub local_damage: RectU32,
    pub pixels: Seq<LinearRgba>,
}

impl View for SourceOverTile {
    type V = SourceOverModel;

    open(crate) spec fn view(&self) -> SourceOverModel {
        SourceOverModel {
            coord: self.coord,
            local_damage: self.local_damage,
            pixels: self.pixels@,
        }
    }
}

impl SourceOverTile {
    pub fn new(coord: TileCoord, local_damage: RectU32, pixels: Vec<LinearRgba>) -> (tile:
        SourceOverTile)
        ensures
            tile@ == (SourceOverModel { coord, local_damage, pixels: pixels@ }),
    {
        SourceOverTile { coord, local_damage, pixels }
    }

    pub fn coord(&self) -> (coord: TileCoord)
        ensures
            coord == self@.coord,
    {
        self.coord
    }

    pub fn local_damage(&self) -> (damage: RectU32)
        ensures
            damage == self@.local_damage,
    {
        self.local_damage
    }

    pub fn pixels(&self) -> (pixels: &Vec<LinearRgba>)
        ensures
            pixels@ == self@.pixels,
    {
        &self.pixels
    }
}

pub open spec fn source_over_models(tiles: Seq<SourceOverTile>) -> Seq<SourceOverModel> {
    Seq::new(tiles.len(), |i: int| tiles[i]@)
}

/// Why a stroke cannot be laid over a layer.
#[derive(Clone, Copy, Debug, PartialEq, Eq)]
pub enum GpuStrokeCommitError {
    InvalidBrushDiameter(u32),
    TilePixelCountOverflow,
    DuplicateTile(TileCoord),
    InvalidTilePixelCount { tile: TileCoord, expected: usize, actual: usize },
    InvalidPixel { tile: TileCoord, index: usize, pixel: LinearRgba },
    Raster(RasterError),
}

impl From<RasterError> for GpuStrokeCommitError {
    fn from(error: RasterError) -> (converted: GpuStrokeCommitError) {
        GpuStrokeCommitError::Raster(error)
    }
}

impl vstd::std_specs::convert::FromSpecImpl<RasterError> for GpuStrokeCommitError {
    open spec fn obeys_from_spec() -> bool {
        true
    }

    open spec fn from_spec(error: RasterError) -> GpuStrokeCommitError {
        GpuStrokeCommitError::Raster(error)
    }
}

/// A finite number that is not less than zero. Both zeros count.
pub open spec fn not_negative(bits: u32) -> bool {
    is_finite(bits) && (bits < 0x8000_0000 || magnitude(bits) == 0)
}

/// Whether a pixel is a premultiplied color: no channel is negative, the coverage is at
/// most one, and where it is zero so are the others.
pub open spec fn pixel_premultiplied(pixel: LinearRgba) -> bool {
    &&& not_negative(pixel.r)
    &&& not_negative(pixel.g)
    &&& not_negative(pixel.b)
    &&& not_negative(pixel.a)
    &&& magnitude(pixel.a) <= 0x3f80_0000
    &&& magnitude(pixel.a) != 0 || (magnitude(pixel.r) == 0 && magnitude(pixel.g) == 0
        && magnitude(pixel.b) == 0)
}

/// Whether two colors compare equal, channel by channel.
pub open spec fn colors_equal(first: LinearRgba, second: LinearRgba) -> bool {
    &&& numbers_equal(first.r, second.r)
    &&& numbers_equal(first.g, second.g)
    &&& numbers_equal(first.b, second.b)
    &&& numbers_equal(first.a, second.a)
}

/// The first of the first `n` pixels that is no premultiplied color.
pub open spec fn pixel_error(tile: SourceOverModel, n: int) -> Option<GpuStrokeCommitError>
    decreases n,
{
    if n <= 0 {
        None
    } else if pixel_error(tile, n - 1) is Some {
        pixel_error(tile, n - 1)
    } else if !pixel_premultiplied(tile.pixels[n - 1]) {
        Some(
            GpuStrokeCommitError::InvalidPixel {
                tile: tile.coord,
                index: (n - 1) as usize,
                pixel: tile.pixels[n - 1],
            },
        )
    } else {
        None
    }
}

pub open spec fn names_tile(tiles: Seq<SourceOverModel>, coord: TileCoord) -> bool {
    exists|i: int| 0 <= i < tiles.len() && (#[trigger] tiles[i]).coord == coord
}

/// Why one tile cannot be laid over a layer of this geometry after the `earlier` ones.
pub open spec fn overlay_error(
    geometry: RasterGeometry,
    earlier: Seq<SourceOverModel>,
    tile: SourceOverModel,
) -> Option<GpuStrokeCommitError> {
    if names_tile(earlier, tile.coord) {
        Some(GpuStrokeCommitError::DuplicateTile(tile.coord))
    } else {
        match edit_error(geometry, tile.coord, tile.local_damage, tile.pixels.len()) {
            Some(RasterError::InvalidTilePixelCount { tile: at, expected, actual }) => Some(
                GpuStrokeCommitError::InvalidTilePixelCount { tile: at, expected, actual },
            ),
            Some(error) => Some(GpuStrokeCommitError::Raster(error)),
            None => pixel_error(tile, tile.pixels.len() as int),
        }
    }
}

/// Why the tiles cannot be laid over a layer: what is wrong with the first bad one.
pub open spec fn overlays_error(geometry: RasterGeometry, tiles: Seq<SourceOverModel>) -> Option<
    GpuStrokeCommitError,
>
    decreases tiles.len(),
{
    if tiles.len() == 0 {
        None
    } else if overlays_error(geometry, tiles.drop_last()) is Some {
        overlays_error(geometry, tiles.drop_last())
    } else {
        overlay_error(geometry, tiles.drop_last(), tiles.last())
    }
}

/// Whether the stroke puts color on this pixel of the tile.
pub open spec fn covered(tile: SourceOverModel, stride: int, index: int) -> bool {
    &&& tile.local_damage@.contains(index % stride, index / stride)
    &&& magnitude(tile.pixels[index].a) != 0
}

/// Whether `blended` holds, for each pixel that the stroke covers, what `blend` gave for it.
pub open spec fn blended_by<F: Fn(LinearRgba, LinearRgba) -> LinearRgba>(
    blend: F,
    tile: SourceOverModel,
    stride: int,
    before: Seq<LinearRgba>,
    blended: Seq<LinearRgba>,
) -> bool {
    &&& blended.len() == before.len()
    &&& forall|k: int|
        0 <= k < before.len() && covered(tile, stride, k) ==> call_ensures(
            blend,
            (tile.pixels[k], before[k]),
            #[trigger] blended[k],
        )
}

/// The smallest rectangle round the pixels that change, among the first `n`.
pub open spec fn changed_area(
    tile: SourceOverModel,
    stride: int,
    before: Seq<LinearRgba>,
    blended: Seq<LinearRgba>,
    n: int,
) -> Option<Rect>
    decreases n,
{
    if n <= 0 {
        None
    } else {
        let rest = changed_area(tile, stride, before, blended, n - 1);
        let k = n - 1;
        if covered(tile, stride, k) && !colors_equal(blended[k], before[k]) {
            let pixel = Rect {
                min_x: k % stride,
                min_y: k / stride,
                max_x: k % stride + 1,
                max_y: k / stride + 1,
            };
            match rest {
                Some(area) => Some(area.union(pixel)),
                None => Some(pixel),
            }
        } else {
            rest
        }
    }
}

/// The tile with what the stroke covers inside `area` blended into it.
pub open spec fn overlaid(
    tile: SourceOverModel,
    stride: int,
    before: Seq<LinearRgba>,
    blended: Seq<LinearRgba>,
    area: Rect,
) -> Seq<LinearRgba> {
    Seq::new(
        before.len(),
        |k: int|
            if area.contains(k % stride, k / stride) && covered(tile, stride, k) {
                blended[k]
            } else {
                before[k]
            },
    )
}

/// The layer's tiles once all of the stroke's are laid over them.
pub open spec fn overlaid_tiles(
    geometry: RasterGeometry,
    before: Map<TileCoord, Seq<LinearRgba>>,
    tiles: Seq<SourceOverModel>,
    blended: Seq<Seq<LinearRgba>>,
) -> Map<TileCoord, Seq<LinearRgba>>
    decreases tiles.len(),
{
    if tiles.len() == 0 {
        before
    } else {
        let rest = overlaid_tiles(geometry, before, tiles.drop_last(), blended);
        let tile = tiles.last();
        let pixels = tile_or_blank(geometry, before, tile.coord);
        let result = blended[tiles.len() - 1];
        match changed_area(tile, geometry.tile_size, pixels, result, geometry.tile_len()) {
            Some(area) => rest.insert(
                tile.coord,
                overlaid(tile, geometry.tile_size, pixels, result, area),
            ),
            None => rest,
        }
    }
}

/// What of the layer changes as all of the stroke's tiles are laid over it.
pub open spec fn overlaid_damage(
    geometry: RasterGeometry,
    before: Map<TileCoord, Seq<LinearRgba>>,
    tiles: Seq<SourceOverModel>,
    blended: Seq<Seq<LinearRgba>>,
) -> Map<TileCoord, Rect>
    decreases tiles.len(),
{
    if tiles.len() == 0 {
        Map::empty()
    } else {
        let rest = overlaid_damage(geometry, before, tiles.drop_last(), blended);
        let tile = tiles.last();
        let pixels = tile_or_blank(geometry, before, tile.coord);
        let result = blended[tiles.len() - 1];
        match changed_area(tile, geometry.tile_size, pixels, result, geometry.tile_len()) {
            Some(area) => damage_add(
                rest,
                tile.coord,
                area.translated(
                    tile.coord.x * geometry.tile_size,
                    tile.coord.y * geometry.tile_size,
                ),
            ),
            None => rest,
        }
    }
}

/// Whether `blended` holds what `blend` gave for every covered pixel of every tile.
pub open spec fn all_blended<F: Fn(LinearRgba, LinearRgba) -> LinearRgba>(
    blend: F,
    geometry: RasterGeometry,
    before: Map<TileCoord, Seq<LinearRgba>>,
    tiles: Seq<SourceOverModel>,
    blended: Seq<Seq<LinearRgba>>,
) -> bool {
    &&& blended.len() == tiles.len()
    &&& forall|i: int|
        #![trigger blended[i]]
        0 <= i < tiles.len() ==> blended_by(
            blend,
            tiles[i],
            geometry.tile_size,
            tile_or_blank(geometry, before, tiles[i].coord),
            blended[i],
        )
}

/// Whether a stroke of these tiles, blended so, leaves the layer and the caller with this.
pub open spec fn overlay_reported(
    before: RasterModel,
    tiles: Seq<SourceOverModel>,
    blended: Seq<Seq<LinearRgba>>,
    damage: Option<Map<TileCoord, Rect>>,
    after: RasterModel,
) -> bool {
    let expected = overlaid_damage(before.geometry, before.tiles, tiles, blended);
    match damage {
        Some(damage) => {
            &&& damage == expected
            &&& damage != Map::<TileCoord, Rect>::empty()
            &&& before.gesture is None
            &&& after == (RasterModel {
                tiles: overlaid_tiles(before.geometry, before.tiles, tiles, blended),
                next_gesture: (before.next_gesture + 1) as u64,
                undo_depth: before.undo_depth + 1,
                ..before
            })
        },
        None => expected == Map::<TileCoord, Rect>::empty() && after == before,
    }
}

fn is_not_negative(bits: u32) -> (holds: bool)
    ensures
        holds == not_negative(bits),
{
    bits < 0x7f80_0000 || bits == 0x8000_0000
}

fn is_nonzero(bits: u32) -> (nonzero: bool)
    ensures
        nonzero == (magnitude(bits) != 0),
{
    bits != 0 && bits != 0x8000_0000
}

fn valid_premultiplied_pixel(pixel: LinearRgba) -> (valid: bool)
    ensures
        valid == pixel_premultiplied(pixel),
{
    is_not_negative(pixel.r) && is_not_negative(pixel.g) && is_not_negative(pixel.b)
        && is_not_negative(pixel.a) && (pixel.a <= 0x3f80_0000 || pixel.a == 0x8000_0000) && (
    is_nonzero(pixel.a) || !(is_nonzero(pixel.r) || is_nonzero(pixel.g) || is_nonzero(pixel.b)))
}

fn same_color(first: LinearRgba, second: LinearRgba) -> (same: bool)
    ensures
        same == colors_equal(first, second),
{
    equal_numbers(first.r, second.r) && equal_numbers(first.g, second.g) && equal_numbers(
        first.b,
        second.b,
    ) && equal_numbers(first.a, second.a)
}

fn is_named(tiles: &Vec<SourceOverTile>, count: usize, coord: TileCoord) -> (named: bool)
    requires
        count <= tiles@.len(),
    ensures
        named == names_tile(source_over_models(tiles@).subrange(0, count as int), coord),
{
    let ghost earlier = source_over_models(tiles@).subrange(0, count as int);
    let mut i: usize = 0;
    while i < count
        invariant
            i <= count <= tiles@.len(),
            earlier == source_over_models(tiles@).subrange(0, count as int),
            forall|j: int| 0 <= j < i ==> (#[trigger] earlier[j]).coord != coord,
        decreases count - i,
    {
        if tiles[i].coord.x == coord.x && tiles[i].coord.y == coord.y {
            assert(earlier[i as int].coord == coord);
            return true;
        }
        i += 1;
    }
    false
}

proof fn lemma_pixel_error_stays(tile: SourceOverModel, n: int, m: int)
    requires
        n <= m,
        pixel_error(tile, n) is Some,
    ensures
        pixel_error(tile, m) == pixel_error(tile, n),
    decreases m,
{
    if n < m && m > 0 {
        lemma_pixel_error_stays(tile, n, m - 1);
    }
}

#[verifier::loop_isolation(false)]
fn check_overlay(layer: &RasterLayer, tiles: &Vec<SourceOverTile>, index: usize) -> (checked:
    Result<(), GpuStrokeCommitError>)
    requires
        layer.wf(),
        index < tiles@.len(),
    ensures
        match checked {
            Ok(_) => overlay_error(
                layer@.geometry,
                source_over_models(tiles@).subrange(0, index as int),
                tiles@[index as int]@,
            ) is None,
            Err(error) => overlay_error(
                layer@.geometry,
                source_over_models(tiles@).subrange(0, index as int),
                tiles@[index as int]@,
            ) == Some(error),
        },
{
    let tile = &tiles[index];
    if is_named(tiles, index, tile.coord) {
        return Err(GpuStrokeCommitError::DuplicateTile(tile.coord));
    }
    let bounds = match layer.tile_bounds(tile.coord) {
        Some(bounds) => bounds,
        None => {
            return Err(GpuStrokeCommitError::Raster(RasterError::TileOutOfBounds(tile.coord)));
        },
    };
    if tile.local_damage.max_x() > bounds.width() || tile.local_damage.max_y() > bounds.height() {
        return Err(
            GpuStrokeCommitError::Raster(
                RasterError::DamageOutsideTile {
                    tile: tile.coord,
                    damage: tile.local_damage,
                    valid_width: bounds.width(),
                    valid_height: bounds.height(),
                },
            ),
        );
    }
    let tile_size: u32 = layer.tile_size();
    let expected: usize = tile_size as usize * tile_size as usize;
    if tile.pixels.len() != expected {
        return Err(
            GpuStrokeCommitError::InvalidTilePixelCount {
                tile: tile.coord,
                expected,
                actual: tile.pixels.len(),
            },
        );
    }
    let mut i: usize = 0;
    while i < tile.pixels.len()
        invariant
            i <= tile.pixels@.len(),
            pixel_error(tile@, i as int) is None,
        decreases tile.pixels@.len() - i,
    {
        if !valid_premultiplied_pixel(tile.pixels[i]) {
            proof {
                lemma_pixel_error_stays(tile@, i + 1, tile.pixels@.len() as int);
            }
            return Err(
                GpuStrokeCommitError::InvalidPixel {
                    tile: tile.coord,
                    index: i,
                    pixel: tile.pixels[i],
                },
            );
        }
        i += 1;
    }
    Ok(())
}

/// A changed area lies inside what the stroke says it touched, and is not empty.
proof fn lemma_changed_area(
    tile: SourceOverModel,
    stride: int,
    before: Seq<LinearRgba>,
    blended: Seq<LinearRgba>,
    n: int,
)
    ensures
        changed_area(tile, stride, before, blended, n) matches Some(area) ==> area.nonempty()
            && tile.local_damage@.covers(area),
    decreases n,
{
    if n > 0 {
        lemma_changed_area(tile, stride, before, blended, n - 1);
    }
}

/// What a changed area is made of depends only on the pixels up to `n`.
proof fn lemma_changed_area_prefix(
    tile: SourceOverModel,
    stride: int,
    before: Seq<LinearRgba>,
    first: Seq<LinearRgba>,
    second: Seq<LinearRgba>,
    n: int,
)
    requires
        forall|k: int| 0 <= k < n ==> first[k] == second[k],
    ensures
        changed_area(tile, stride, before, first, n) == changed_area(
            tile,
            stride,
            before,
            second,
            n,
        ),
    decreases n,
{
    if n > 0 {
        lemma_changed_area_prefix(tile, stride, before, first, second, n - 1);
    }
}

/// Lays one tile of a stroke over the pixels of the layer's tile. Gives the changed area and the
/// pixels that the tile then holds, or nothing where no pixel changes.
fn overlay_tile<F: Fn(LinearRgba, LinearRgba) -> LinearRgba>(
    tile: &SourceOverTile,
    stride: u32,
    before: &Vec<LinearRgba>,
    blend: &F,
) -> (result: (Option<(RectU32, Vec<LinearRgba>)>, Ghost<Seq<LinearRgba>>))
    requires
        stride > 0,
        tile.pixels@.len() == before@.len(),
        before@.len() == stride * stride,
        stride * stride <= u32::MAX,
        forall|a: LinearRgba, b: LinearRgba| call_requires(*blend, (a, b)),
    ensures
        blended_by(*blend, tile@, stride as int, before@, result.1@),
        match result.0 {
            Some((area, pixels)) => {
                &&& changed_area(
                    tile@,
                    stride as int,
                    before@,
                    result.1@,
                    before@.len() as int,
                ) == Some(area@)
                &&& pixels@ == overlaid(tile@, stride as int, before@, result.1@, area@)
            },
            None => changed_area(
                tile@,
                stride as int,
                before@,
                result.1@,
                before@.len() as int,
            ) is None,
        },
{
    let ghost model = tile@;
    let ghost width = stride as int;
    let mut blended: Vec<LinearRgba> = Vec::new();
    let mut area: Option<RectU32> = None;
    let damage = tile.local_damage;
    let mut k: usize = 0;
    while k < before.len()
        invariant
            k <= before@.len(),
            model == tile@,
            damage == tile.local_damage,
            stride > 0,
            width == stride,
            tile.pixels@.len() == before@.len(),
            before@.len() == stride * stride,
            stride * stride <= u32::MAX,
            forall|a: LinearRgba, b: LinearRgba| call_requires(*blend, (a, b)),
            blended@.len() == k,
            forall|j: int|
                0 <= j < k && covered(model, width, j) ==> call_ensures(
                    *blend,
                    (model.pixels[j], before@[j]),
                    #[trigger] blended@[j],
                ),
            forall|j: int|
                0 <= j < k && !covered(model, width, j) ==> #[trigger] blended@[j] == before@[j],
            match area {
                Some(area) => changed_area(model, width, before@, blended@, k as int) == Some(area@),
                None => changed_area(model, width, before@, blended@, k as int) is None,
            },
        decreases before@.len() - k,
    {
        let ghost earlier = blended@;
        let x: u32 = (k % stride as usize) as u32;
        let y: u32 = (k / stride as usize) as u32;
        proof {
            lemma_grid_row(width, width, k as int);
        }
        let source = tile.pixels[k];
        let inside = damage.min_x() <= x && x < damage.max_x() && damage.min_y() <= y && y
            < damage.max_y();
        if inside && is_nonzero(source.a) {
            let result = blend(source, before[k]);
            blended.push(result);
            if !same_color(result, before[k]) {
                match RectU32::from_min_max(x, y, x + 1, y + 1) {
                    Some(pixel) => {
                        area = match area {
                            Some(area) => Some(area.union(pixel)),
                            None => Some(pixel),
                        };
                    },
                    None => {},
                }
            }
        } else {
            blended.push(before[k]);
        }
        proof {
            assert forall|j: int| 0 <= j < k implies earlier[j] == blended@[j] by {}
            lemma_changed_area_prefix(model, width, before@, earlier, blended@, k as int);
        }
        k += 1;
    }
    let ghost answers = blended@;
    match area {
        Some(area) => {
            let mut i: usize = 0;
            while i < before.len()
                invariant
                    i <= before@.len(),
                    stride > 0,
                    width == stride,
                    before@.len() == stride * stride,
                    stride * stride <= u32::MAX,
                    answers.len() == before@.len(),
                    blended@.len() == before@.len(),
                    forall|j: int|
                        0 <= j < before@.len() && !covered(model, width, j)
                            ==> #[trigger] answers[j] == before@[j],
                    forall|j: int| i <= j < before@.len() ==> #[trigger] blended@[j] == answers[j],
                    forall|j: int|
                        0 <= j < i ==> #[trigger] blended@[j] == overlaid(
                            model,
                            width,
                            before@,
                            answers,
                            area@,
                        )[j],
                decreases before@.len() - i,
            {
                let x: u32 = (i % stride as usize) as u32;
                let y: u32 = (i / stride as usize) as u32;
                proof {
                    lemma_grid_row(width, width, i as int);
                    assert(answers[i as int] == blended@[i as int]);
                }
                if !(area.min_x() <= x && x < area.max_x() && area.min_y() <= y && y
                    < area.max_y()) {
                    blended.set(i, before[i]);
                }
                i += 1;
            }
            assert(blended@ =~= overlaid(model, width, before@, answers, area@));
            (Some((area, blended)), Ghost(answers))
        },
        None => (None, Ghost(answers)),
    }
}

/// What stands in a tile that no overlay names is what stood there before.
proof fn lemma_overlay_elsewhere(
    geometry: RasterGeometry,
    before: Map<TileCoord, Seq<LinearRgba>>,
    tiles: Seq<SourceOverModel>,
    blended: Seq<Seq<LinearRgba>>,
    coord: TileCoord,
)
    requires
        !names_tile(tiles, coord),
    ensures
        overlaid_tiles(geometry, before, tiles, blended).contains_key(coord)
            == before.contains_key(coord),
        before.contains_key(coord) ==> overlaid_tiles(geometry, before, tiles, blended)[coord]
            == before[coord],
    decreases tiles.len(),
{
    if tiles.len() > 0 {
        let rest = tiles.drop_last();
        assert(tiles[tiles.len() - 1].coord != coord);
        assert(!names_tile(rest, coord)) by {
            if names_tile(rest, coord) {
                let i = choose|i: int| 0 <= i < rest.len() && (#[trigger] rest[i]).coord == coord;
                assert(tiles[i].coord == coord);
            }
        }
        lemma_overlay_elsewhere(geometry, before, rest, blended, coord);
    }
}

proof fn lemma_overlay_prefix(
    geometry: RasterGeometry,
    before: Map<TileCoord, Seq<LinearRgba>>,
    tiles: Seq<SourceOverModel>,
    first: Seq<Seq<LinearRgba>>,
    second: Seq<Seq<LinearRgba>>,
)
    requires
        forall|i: int| 0 <= i < tiles.len() ==> first[i] == second[i],
    ensures
        overlaid_tiles(geometry, before, tiles, first) == overlaid_tiles(
            geometry,
            before,
            tiles,
            second,
        ),
        overlaid_damage(geometry, before, tiles, first) == overlaid_damage(
            geometry,
            before,
            tiles,
            second,
        ),
    decreases tiles.len(),
{
    if tiles.len() > 0 {
        lemma_overlay_prefix(geometry, before, tiles.drop_last(), first, second);
    }
}

proof fn lemma_overlays_error_stays(
    geometry: RasterGeometry,
    tiles: Seq<SourceOverModel>,
    n: int,
)
    requires
        0 <= n <= tiles.len(),
        overlays_error(geometry, tiles.subrange(0, n)) is Some,
    ensures
        overlays_error(geometry, tiles) == overlays_error(geometry, tiles.subrange(0, n)),
    decreases tiles.len(),
{
    if n == tiles.len() {
        assert(tiles.subrange(0, n) =~= tiles);
    } else {
        assert(tiles.drop_last().subrange(0, n) =~= tiles.subrange(0, n));
        lemma_overlays_error_stays(geometry, tiles.drop_last(), n);
    }
}

fn check_overlays(layer: &RasterLayer, tiles: &Vec<SourceOverTile>) -> (checked: Result<
    (),
    GpuStrokeCommitError,
>)
    requires
        layer.wf(),
    ensures
        match checked {
            Ok(_) => forall|i: int|
                #![trigger tiles@[i]]
                0 <= i < tiles@.len() ==> overlay_error(
                    layer@.geometry,
                    source_over_models(tiles@).subrange(0, i),
                    tiles@[i]@,
                ) is None,
            Err(_) => true,
        },
        match checked {
            Ok(_) => overlays_error(layer@.geometry, source_over_models(tiles@)) is None,
            Err(error) => overlays_error(layer@.geometry, source_over_models(tiles@)) == Some(
                error,
            ),
        },
{
    let ghost models = source_over_models(tiles@);
    let mut i: usize = 0;
    while i < tiles.len()
        invariant
            layer.wf(),
            models == source_over_models(tiles@),
            i <= tiles@.len(),
            overlays_error(layer@.geometry, models.subrange(0, i as int)) is None,
            forall|j: int|
                #![trigger tiles@[j]]
                0 <= j < i ==> overlay_error(
                    layer@.geometry,
                    models.subrange(0, j),
                    tiles@[j]@,
                ) is None,
        decreases tiles@.len() - i,
    {
        proof {
            assert(models.subrange(0, i + 1).drop_last() =~= models.subrange(0, i as int));
            assert(models.subrange(0, i + 1).last() == tiles@[i as int]@);
        }
        match check_overlay(layer, tiles, i) {
            Ok(_) => {},
            Err(error) => {
                proof {
                    lemma_overlays_error_stays(layer@.geometry, models, i + 1);
                }
                return Err(error);
            },
        }
        i += 1;
    }
    assert(models.subrange(0, i as int) =~= models);
    Ok(())
}

/// Lays a stroke over a layer as one edit that can be undone. `blend` gives the color of a pixel
/// from the stroke's color and the layer's.
#[verifier::loop_isolation(false)]
pub fn commit_source_over_tiles<F: Fn(LinearRgba, LinearRgba) -> LinearRgba>(
    layer: &mut RasterLayer,
    brush_diameter: u32,
    tiles: &Vec<SourceOverTile>,
    blend: &F,
) -> (committed: Result<Option<Damage>, GpuStrokeCommitError>)
    requires
        old(layer).wf(),
        forall|a: LinearRgba, b: LinearRgba| call_requires(*blend, (a, b)),
    ensures
        final(layer).wf(),
        !is_positive(brush_diameter) ==> committed == Err::<Option<Damage>, GpuStrokeCommitError>(
            GpuStrokeCommitError::InvalidBrushDiameter(brush_diameter),
        ),
        is_positive(brush_diameter) ==> (overlays_error(
            old(layer)@.geometry,
            source_over_models(tiles@),
        ) matches Some(error) ==> committed == Err::<Option<Damage>, GpuStrokeCommitError>(error)),
        committed is Err ==> *final(layer) == *old(layer),
        is_positive(brush_diameter) && overlays_error(
            old(layer)@.geometry,
            source_over_models(tiles@),
        ) is None ==> match committed {
            Ok(damage) => exists|blended: Seq<Seq<LinearRgba>>|
                #![trigger all_blended(
                    *blend,
                    old(layer)@.geometry,
                    old(layer)@.tiles,
                    source_over_models(tiles@),
                    blended,
                )]
                all_blended(
                    *blend,
                    old(layer)@.geometry,
                    old(layer)@.tiles,
                    source_over_models(tiles@),
                    blended,
                ) && overlay_reported(
                    old(layer)@,
                    source_over_models(tiles@),
                    blended,
                    match damage {
                        Some(damage) => Some(damage@),
                        None => None,
                    },
                    final(layer)@,
                ),
            Err(error) => {
                &&& old(layer)@.gesture is Some ==> error == GpuStrokeCommitError::Raster(
                    RasterError::GestureActive,
                )
                &&& old(layer)@.gesture is None ==> old(layer)@.next_gesture == u64::MAX && error
                    == GpuStrokeCommitError::Raster(RasterError::GestureIdsExhausted)
                &&& exists|n: int, blended: Seq<Seq<LinearRgba>>|
                    #![trigger all_blended(
                        *blend,
                        old(layer)@.geometry,
                        old(layer)@.tiles,
                        source_over_models(tiles@).subrange(0, n),
                        blended,
                    )]
                    0 <= n <= tiles@.len() && all_blended(
                        *blend,
                        old(layer)@.geometry,
                        old(layer)@.tiles,
                        source_over_models(tiles@).subrange(0, n),
                        blended,
                    ) && overlaid_damage(
                        old(layer)@.geometry,
                        old(layer)@.tiles,
                        source_over_models(tiles@).subrange(0, n),
                        blended,
                    ) != Map::<TileCoord, Rect>::empty()
            },
        },
        committed matches Ok(Some(damage)) ==> damage.wf() && final(layer).past() == old(
            layer,
        ).past().push(old(layer)@.tiles),
        committed matches Ok(None) ==> *final(layer) == *old(layer),
{
    if brush_diameter == 0 || brush_diameter >= 0x7f80_0000 {
        return Err(GpuStrokeCommitError::InvalidBrushDiameter(brush_diameter));
    }
    match check_overlays(layer, tiles) {
        Ok(_) => {},
        Err(error) => {
            return Err(error);
        },
    }
    let ghost before = layer@;
    let ghost geometry = before.geometry;
    let ghost models = source_over_models(tiles@);
    let ghost mut blended: Seq<Seq<LinearRgba>> = Seq::empty();
    let tile_size: u32 = layer.tile_size();
    let mut gesture: Option<GestureId> = None;
    let mut i: usize = 0;
    while i < tiles.len()
        invariant
            i <= tiles@.len(),
            layer.wf(),
            geometry.valid(),
            geometry.tile_size == tile_size,
            layer@.geometry == geometry,
            all_blended(*blend, geometry, before.tiles, models.subrange(0, i as int), blended),
            match gesture {
                None => {
                    &&& *layer == *old(layer)
                    &&& overlaid_damage(
                        geometry,
                        before.tiles,
                        models.subrange(0, i as int),
                        blended,
                    ) == Map::<TileCoord, Rect>::empty()
                    &&& overlaid_tiles(
                        geometry,
                        before.tiles,
                        models.subrange(0, i as int),
                        blended,
                    ) == before.tiles
                },
                Some(id) => {
                    &&& before.gesture is None
                    &&& overlaid_damage(
                        geometry,
                        before.tiles,
                        models.subrange(0, i as int),
                        blended,
                    ) != Map::<TileCoord, Rect>::empty()
                    &&& layer@ == (RasterModel {
                        tiles: overlaid_tiles(
                            geometry,
                            before.tiles,
                            models.subrange(0, i as int),
                            blended,
                        ),
                        gesture: Some(
                            GestureModel {
                                id,
                                before: before.tiles,
                                damage: overlaid_damage(
                                    geometry,
                                    before.tiles,
                                    models.subrange(0, i as int),
                                    blended,
                                ),
                            },
                        ),
                        next_gesture: (before.next_gesture + 1) as u64,
                        ..before
                    })
                    &&& layer.past() == old(layer).past()
                },
            },
        decreases tiles@.len() - i,
    {
        let tile = &tiles[i];
        let ghost earlier = models.subrange(0, i as int);
        let ghost now = models.subrange(0, i + 1);
        proof {
            assert(overlay_error(geometry, earlier, tiles@[i as int]@) is None);
            lemma_overlay_elsewhere(geometry, before.tiles, earlier, blended, tile.coord);
            assert(now.drop_last() =~= earlier);
            assert(now.last() == tile@);
        }
        let current = match layer.tile(tile.coord) {
            Some(pixels) => copy_pixels(pixels),
            None => uniform_pixels(
                LinearRgba::transparent(),
                tile_size as usize * tile_size as usize,
            ),
        };
        assert(current@ == tile_or_blank(geometry, before.tiles, tile.coord));
        let (outcome, Ghost(answers)) = overlay_tile(tile, tile_size, &current, blend);
        let ghost extended = blended.push(answers);
        proof {
            lemma_overlay_prefix(geometry, before.tiles, earlier, blended, extended);
            assert(extended[i as int] == answers);
            assert forall|j: int|
                #![trigger extended[j]]
                0 <= j < now.len() implies blended_by(
                *blend,
                now[j],
                geometry.tile_size,
                tile_or_blank(geometry, before.tiles, now[j].coord),
                extended[j],
            ) by {
                if j < i {
                    assert(blended[j] == extended[j]);
                    assert(earlier[j] == now[j]);
                }
            }
            lemma_changed_area(
                tile@,
                geometry.tile_size,
                current@,
                answers,
                geometry.tile_len(),
            );
        }
        match outcome {
            Some((area, pixels)) => {
                let id = match gesture {
                    Some(id) => id,
                    None => match layer.begin_gesture() {
                        Ok(id) => id,
                        Err(error) => {
                            proof {
                                assert(overlaid_damage(
                                    geometry,
                                    before.tiles,
                                    now,
                                    extended,
                                ).contains_key(tile.coord));
                                assert(all_blended(
                                    *blend,
                                    geometry,
                                    before.tiles,
                                    models.subrange(0, i + 1),
                                    extended,
                                ));
                            }
                            return Err(GpuStrokeCommitError::Raster(error));
                        },
                    },
                };
                gesture = Some(id);
                match layer.edit_tile_additive(id, tile.coord, area, pixels) {
                    Ok(_) => {},
                    Err(_) => {
                        vstd::pervasive::unreached()
                    },
                }
                assert(overlaid_damage(geometry, before.tiles, now, extended).contains_key(
                    tile.coord,
                ));
            },
            None => {},
        }
        proof {
            blended = extended;
        }
        i += 1;
    }
    assert(models.subrange(0, i as int) =~= models);
    match gesture {
        None => Ok(None),
        Some(id) => match layer.commit_gesture(id) {
            Ok(damage) => Ok(damage),
            Err(error) => Err(GpuStrokeCommitError::Raster(error)),
        },
    }
}

} // verus!
