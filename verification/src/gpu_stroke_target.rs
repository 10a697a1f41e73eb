//! The sparse target that a continuous stroke is drawn into.

use crate::device::{grown_capacity, grows_to, growth_fails, BufferGrowthError};
use crate::gpu_document_undo::copy_row_alignment;
use crate::gpu_mirror_capture::{pixel_of, words_of, GpuMirrorMapEvent, MapRangeError};
use crate::gpu_stroke::{
    GpuStrokeVertex, SourceOverModel, SourceOverTile, StrokeTileDamage,
};
use crate::keyed_map::{lemma_entry_in_map, lemma_map_len, value_of, Key, KeyedMap};
use crate::ordering::{in_order, lemma_sorted, lemma_sorted_contains, sort, Ranked};
use crate::raster::{LinearRgba, RectU32, TileCoord};
use crate::stroke::{is_finite, is_fraction, magnitude};
use vstd::prelude::*;

verus! {

pub const STROKE_PIXEL_BYTES: u32 = 16;

pub const STROKE_VERTEX_BYTES: usize = 8;

pub const TILE_UNIFORM_BYTES: u64 = 32;

pub const INITIAL_VERTEX_BYTES: u64 = 4096;

/// The limits of a device that a stroke target depends on.
#[derive(Clone, Copy, Debug, PartialEq, Eq, Structural)]
pub struct StrokeDeviceLimits {
    pub max_texture_array_layers: u32,
    pub max_texture_dimension_2d: u32,
    pub min_uniform_buffer_offset_alignment: u32,
    pub max_buffer_size: u64,
}

#[allow(inconsistent_fields)]
#[derive(Debug)]
pub enum StrokeTargetError {
    EmptyCanvas,
    InvalidTileSize,
    InvalidPageCapacity { requested: u32, maximum: u32 },
    TileExceedsDeviceLimit { tile_size: u32, maximum: u32 },
    TileCountOverflow,
    UniformBufferOverflow,
    UniformBufferTooLarge { requested: u64, maximum: u64 },
    InvalidColor([u32; 4]),
    InvalidVertexCount(usize),
    InvalidVertex,
    NoTouchedTiles,
    DuplicateTouchedTile(TileCoord),
    TileCoordinateOverflow(TileCoord),
    TileOutOfBounds(TileCoord),
    DamageOutsideTile {
        tile: TileCoord,
        damage: RectU32,
        valid_width: u32,
        valid_height: u32,
    },
    VertexBufferOverflow,
    VertexBufferTooLarge { requested: u64, maximum: u64 },
    UniformOffsetOverflow,
    EmptyReadback,
    ReadbackSizeOverflow,
    ReadbackAlreadyStarted,
    ReadbackNotStarted,
    ReadbackAlreadyFinished,
    MapFailed,
    MapChannelDisconnected,
    BufferAccess(MapRangeError),
}

#[derive(Clone, Copy, Debug, PartialEq, Eq, Structural)]
pub struct SparseStrokeStats {
    pub allocated_tiles: u32,
    pub retained_pages: u32,
    pub render_passes: u32,
    pub vertices: u32,
    pub vertex_bytes: u64,
}

/// Where a tile of the stroke lies, and what the stroke has touched of it.
#[derive(Clone, Copy, Debug, PartialEq, Eq, Structural)]
pub struct StrokeSlot {
    pub page: u32,
    pub layer: u32,
    pub uniform_offset: u32,
    pub local_damage: RectU32,
}

/// A tile that is drawn, and whether it is cleared first.
#[derive(Clone, Copy, Debug, PartialEq, Eq, Structural)]
pub struct StrokeDraw {
    pub slot: StrokeSlot,
    pub clear: bool,
}

/// A batch for the device.
#[derive(Debug)]
pub struct StrokeBatchEncoding {
    pub stats: SparseStrokeStats,
    pub draws: Vec<StrokeDraw>,
}

#[derive(Debug)]
pub struct SparseStrokeTarget {
    pub(crate) width: u32,
    pub(crate) height: u32,
    pub(crate) tile_size: u32,
    pub(crate) page_capacity: u32,
    pub(crate) uniform_stride: u64,
    pub(crate) pages: u64,
    pub(crate) slots: KeyedMap<TileCoord, StrokeSlot>,
    pub(crate) color: [u32; 4],
    pub(crate) vertex_capacity: u64,
    pub(crate) max_buffer_size: u64,
}

pub struct StrokeTargetModel {
    pub width: int,
    pub height: int,
    pub tile_size: int,
    pub page_capacity: int,
    pub uniform_stride: int,
    pub pages: int,
    pub slots: Map<TileCoord, StrokeSlot>,
    pub color: [u32; 4],
    pub vertex_capacity: u64,
    pub max_buffer_size: u64,
}

impl View for SparseStrokeTarget {
    type V = StrokeTargetModel;

    open(crate) spec fn view(&self) -> StrokeTargetModel {
        StrokeTargetModel {
            width: self.width as int,
            height: self.height as int,
            tile_size: self.tile_size as int,
            page_capacity: self.page_capacity as int,
            uniform_stride: self.uniform_stride as int,
            pages: self.pages as int,
            slots: self.slots@,
            color: self.color,
            vertex_capacity: self.vertex_capacity,
            max_buffer_size: self.max_buffer_size,
        }
    }
}

/// How many steps of `step` cover `value`.
pub open spec fn steps_over(value: int, step: int) -> int {
    (value + step - 1) / step
}

/// `value`, brought up to a multiple of `step`.
pub open spec fn aligned(value: int, step: int) -> int {
    steps_over(value, step) * step
}

/// How many tiles the canvas has.
pub open spec fn canvas_tiles(width: int, height: int, tile_size: int) -> int {
    steps_over(width, tile_size) * steps_over(height, tile_size)
}

/// Why a target cannot be made, if it cannot.
pub open spec fn creation_error(
    limits: StrokeDeviceLimits,
    width: u32,
    height: u32,
    tile_size: u32,
    page_capacity: u32,
) -> Option<StrokeTargetError> {
    let tiles = canvas_tiles(width as int, height as int, tile_size as int);
    let stride = aligned(
        TILE_UNIFORM_BYTES as int,
        limits.min_uniform_buffer_offset_alignment as int,
    );
    if width == 0 || height == 0 {
        Some(StrokeTargetError::EmptyCanvas)
    } else if tile_size == 0 {
        Some(StrokeTargetError::InvalidTileSize)
    } else if page_capacity == 0 || page_capacity > limits.max_texture_array_layers {
        Some(
            StrokeTargetError::InvalidPageCapacity {
                requested: page_capacity,
                maximum: limits.max_texture_array_layers,
            },
        )
    } else if tile_size > limits.max_texture_dimension_2d {
        Some(
            StrokeTargetError::TileExceedsDeviceLimit {
                tile_size,
                maximum: limits.max_texture_dimension_2d,
            },
        )
    } else if tiles > u32::MAX {
        Some(StrokeTargetError::TileCountOverflow)
    } else if tiles * stride > u64::MAX {
        Some(StrokeTargetError::UniformBufferOverflow)
    } else if tiles * stride > limits.max_buffer_size {
        Some(
            StrokeTargetError::UniformBufferTooLarge {
                requested: (tiles * stride) as u64,
                maximum: limits.max_buffer_size,
            },
        )
    } else {
        None
    }
}

/// How many steps of `step` cover `value`.
fn cover(value: u64, step: u64) -> (steps: u64)
    requires
        step > 0,
        value + step <= u64::MAX,
    ensures
        steps == steps_over(value as int, step as int),
        steps <= value,
        value > 0 ==> steps > 0,
{
    let steps: u64 = (value + step - 1) / step;
    proof {
        let v = value as int;
        let d = step as int;
        if v == 0 {
            vstd::arithmetic::div_mod::lemma_basic_div(d - 1, d);
        } else {
            assert(0 < (v + d - 1) / d <= v) by (nonlinear_arith)
                requires
                    v > 0,
                    d > 0,
            ;
        }
    }
    steps
}

/// Whether a color is one that has its alpha multiplied in.
pub open spec fn valid_color(color: [u32; 4]) -> bool {
    &&& is_finite(color[0]) && not_negative(color[0])
    &&& is_finite(color[1]) && not_negative(color[1])
    &&& is_finite(color[2]) && not_negative(color[2])
    &&& is_fraction(color[3])
    &&& magnitude(color[3]) != 0 || (magnitude(color[0]) == 0 && magnitude(color[1]) == 0
        && magnitude(color[2]) == 0)
}

/// Whether a finite number is zero or more.
pub open spec fn not_negative(bits: u32) -> bool {
    bits <= 0x8000_0000
}

pub fn valid_premultiplied_color(color: [u32; 4]) -> (valid: bool)
    ensures
        valid == valid_color(color),
{
    let finite = is_finite_bits(color[0]) && is_finite_bits(color[1]) && is_finite_bits(color[2]);
    if !finite || color[0] > 0x8000_0000 || color[1] > 0x8000_0000 || color[2] > 0x8000_0000 {
        return false;
    }
    if !crate::stroke::in_unit_range(color[3]) {
        return false;
    }
    strip_sign(color[3]) != 0 || (strip_sign(color[0]) == 0 && strip_sign(color[1]) == 0
        && strip_sign(color[2]) == 0)
}

fn strip_sign(bits: u32) -> (stripped: u32)
    ensures
        stripped == magnitude(bits),
{
    if bits >= 0x8000_0000 {
        bits - 0x8000_0000
    } else {
        bits
    }
}

fn is_finite_bits(bits: u32) -> (finite: bool)
    ensures
        finite == is_finite(bits),
{
    strip_sign(bits) < 0x7f80_0000
}

/// Why vertices cannot be drawn, if they cannot.
pub open spec fn vertices_error(vertices: Seq<GpuStrokeVertex>) -> Option<StrokeTargetError> {
    if vertices.len() == 0 || vertices.len() % 3 != 0 {
        Some(StrokeTargetError::InvalidVertexCount(vertices.len() as usize))
    } else if exists|i: int| 0 <= i < vertices.len() && !vertex_finite(#[trigger] vertices[i]) {
        Some(StrokeTargetError::InvalidVertex)
    } else {
        None
    }
}

pub open spec fn vertex_finite(vertex: GpuStrokeVertex) -> bool {
    is_finite(vertex.position[0]) && is_finite(vertex.position[1])
}

/// Vertices make whole triangles, and every coordinate is finite.
pub fn validate_vertices(vertices: &Vec<GpuStrokeVertex>) -> (checked: Result<
    (),
    StrokeTargetError,
>)
    ensures
        match checked {
            Ok(_) => vertices_error(vertices@) is None,
            Err(error) => vertices_error(vertices@) == Some(error),
        },
{
    if vertices.len() == 0 || vertices.len() % 3 != 0 {
        return Err(StrokeTargetError::InvalidVertexCount(vertices.len()));
    }
    let mut i: usize = 0;
    while i < vertices.len()
        invariant
            i <= vertices@.len(),
            vertices@.len() > 0,
            vertices@.len() % 3 == 0,
            forall|k: int| 0 <= k < i ==> vertex_finite(#[trigger] vertices@[k]),
        decreases vertices@.len() - i,
    {
        let position = vertices[i].position;
        if !is_finite_bits(position[0]) || !is_finite_bits(position[1]) {
            assert(!vertex_finite(vertices@[i as int]));
            return Err(StrokeTargetError::InvalidVertex);
        }
        i += 1;
    }
    Ok(())
}

pub open spec fn smaller(a: int, b: int) -> int {
    if a < b {
        a
    } else {
        b
    }
}

/// Why a touched tile is refused, given those before it.
pub open spec fn touched_error(
    target: StrokeTargetModel,
    touched: Seq<StrokeTileDamage>,
    i: int,
) -> Option<StrokeTargetError> {
    let tile = touched[i].coord;
    let origin_x = tile.x * target.tile_size;
    let origin_y = tile.y * target.tile_size;
    let valid_width = smaller(target.tile_size, target.width - origin_x);
    let valid_height = smaller(target.tile_size, target.height - origin_y);
    if exists|k: int| 0 <= k < i && (#[trigger] touched[k]).coord == tile {
        Some(StrokeTargetError::DuplicateTouchedTile(tile))
    } else if origin_x > u32::MAX || origin_y > u32::MAX {
        Some(StrokeTargetError::TileCoordinateOverflow(tile))
    } else if origin_x >= target.width || origin_y >= target.height {
        Some(StrokeTargetError::TileOutOfBounds(tile))
    } else if touched[i].local_damage@.max_x > valid_width || touched[i].local_damage@.max_y
        > valid_height {
        Some(
            StrokeTargetError::DamageOutsideTile {
                tile,
                damage: touched[i].local_damage,
                valid_width: valid_width as u32,
                valid_height: valid_height as u32,
            },
        )
    } else {
        None
    }
}

/// The first of the touched tiles that is refused.
pub open spec fn all_touched_error(
    target: StrokeTargetModel,
    touched: Seq<StrokeTileDamage>,
    n: int,
) -> Option<StrokeTargetError>
    decreases n,
{
    if n <= 0 {
        None
    } else {
        match all_touched_error(target, touched, n - 1) {
            Some(error) => Some(error),
            None => touched_error(target, touched, n - 1),
        }
    }
}

/// Why a batch is refused, if it is.
pub open spec fn batch_error(
    target: StrokeTargetModel,
    vertices: Seq<GpuStrokeVertex>,
    touched: Seq<StrokeTileDamage>,
) -> Option<StrokeTargetError> {
    if let Some(error) = vertices_error(vertices) {
        Some(error)
    } else if touched.len() == 0 {
        Some(StrokeTargetError::NoTouchedTiles)
    } else {
        all_touched_error(target, touched, touched.len() as int)
    }
}

proof fn lemma_touched_error(
    target: StrokeTargetModel,
    touched: Seq<StrokeTileDamage>,
    at: int,
    n: int,
)
    requires
        0 <= at <= n,
        all_touched_error(target, touched, at) is Some,
    ensures
        all_touched_error(target, touched, n) == all_touched_error(target, touched, at),
    decreases n - at,
{
    if at < n {
        lemma_touched_error(target, touched, at, n - 1);
    }
}

/// The place of the next tile that is touched for the first time.
pub open spec fn next_slot(target: StrokeTargetModel, damage: RectU32) -> StrokeSlot {
    let index = target.slots.dom().len() as u32;
    StrokeSlot {
        page: index / (target.page_capacity as u32),
        layer: index % (target.page_capacity as u32),
        uniform_offset: (index * target.uniform_stride) as u32,
        local_damage: damage,
    }
}

/// The target once a tile has a place, or why it finds none. Its page is there either way.
pub open spec fn slot_ensured(target: StrokeTargetModel, touched: StrokeTileDamage) -> (
    StrokeTargetModel,
    Option<StrokeDraw>,
) {
    match value_of(target.slots, touched.coord) {
        Some(slot) => {
            let grown = StrokeSlot {
                local_damage: slot.local_damage.spec_union(touched.local_damage),
                ..slot
            };
            (
                StrokeTargetModel { slots: target.slots.insert(touched.coord, grown), ..target },
                Some(StrokeDraw { slot: grown, clear: false }),
            )
        },
        None => {
            let slot = next_slot(target, touched.local_damage);
            let opened = StrokeTargetModel {
                pages: if target.pages <= slot.page {
                    slot.page + 1
                } else {
                    target.pages
                },
                ..target
            };
            if (target.slots.dom().len() as u32) * target.uniform_stride > u32::MAX {
                (opened, None)
            } else {
                (
                    StrokeTargetModel { slots: target.slots.insert(touched.coord, slot), ..opened },
                    Some(StrokeDraw { slot, clear: true }),
                )
            }
        },
    }
}

/// The target and the draws once the first tiles have places, as far as they find them.
pub open spec fn slots_ensured(
    target: StrokeTargetModel,
    touched: Seq<StrokeTileDamage>,
    n: int,
) -> (StrokeTargetModel, Option<Seq<StrokeDraw>>)
    decreases n,
{
    if n <= 0 {
        (target, Some(Seq::empty()))
    } else {
        let (before, draws) = slots_ensured(target, touched, n - 1);
        match draws {
            None => (before, None),
            Some(draws) => {
                let (after, draw) = slot_ensured(before, touched[n - 1]);
                match draw {
                    Some(draw) => (after, Some(draws.push(draw))),
                    None => (after, None),
                }
            },
        }
    }
}

proof fn lemma_stuck(target: StrokeTargetModel, touched: Seq<StrokeTileDamage>, at: int, n: int)
    requires
        0 <= at <= n,
        slots_ensured(target, touched, at).1 is None,
    ensures
        slots_ensured(target, touched, n) == slots_ensured(target, touched, at),
    decreases n - at,
{
    if at < n {
        lemma_stuck(target, touched, at, n - 1);
    }
}

impl SparseStrokeTarget {
    pub open(crate) spec fn wf(self) -> bool {
        &&& self.slots.wf()
        &&& self.width > 0 && self.height > 0
        &&& self.tile_size > 0
        &&& self.page_capacity > 0
        &&& forall|coord: TileCoord| #[trigger]
            self@.slots.contains_key(coord) ==> on_canvas(self@, coord)
    }

    /// A target without tiles.
    pub fn new(
        limits: StrokeDeviceLimits,
        width: u32,
        height: u32,
        tile_size: u32,
        page_capacity: u32,
    ) -> (target: Result<SparseStrokeTarget, StrokeTargetError>)
        requires
            limits.min_uniform_buffer_offset_alignment > 0,
        ensures
            match target {
                Ok(target) => {
                    &&& creation_error(limits, width, height, tile_size, page_capacity) is None
                    &&& target.wf()
                    &&& target@ == (StrokeTargetModel {
                        width: width as int,
                        height: height as int,
                        tile_size: tile_size as int,
                        page_capacity: page_capacity as int,
                        uniform_stride: aligned(
                            TILE_UNIFORM_BYTES as int,
                            limits.min_uniform_buffer_offset_alignment as int,
                        ),
                        pages: 0,
                        slots: Map::empty(),
                        color: [0, 0, 0, 0],
                        vertex_capacity: INITIAL_VERTEX_BYTES,
                        max_buffer_size: limits.max_buffer_size,
                    })
                },
                Err(error) => creation_error(limits, width, height, tile_size, page_capacity)
                    == Some(error),
            },
    {
        if width == 0 || height == 0 {
            return Err(StrokeTargetError::EmptyCanvas);
        }
        if tile_size == 0 {
            return Err(StrokeTargetError::InvalidTileSize);
        }
        if page_capacity == 0 || page_capacity > limits.max_texture_array_layers {
            return Err(
                StrokeTargetError::InvalidPageCapacity {
                    requested: page_capacity,
                    maximum: limits.max_texture_array_layers,
                },
            );
        }
        if tile_size > limits.max_texture_dimension_2d {
            return Err(
                StrokeTargetError::TileExceedsDeviceLimit {
                    tile_size,
                    maximum: limits.max_texture_dimension_2d,
                },
            );
        }
        let tiles_wide: u64 = cover(width as u64, tile_size as u64);
        let tiles_high: u64 = cover(height as u64, tile_size as u64);
        assert(tiles_wide * tiles_high <= u32::MAX * u32::MAX) by (nonlinear_arith)
            requires
                tiles_wide <= u32::MAX,
                tiles_high <= u32::MAX,
        ;
        let maximum_tiles: u64 = tiles_wide * tiles_high;
        if maximum_tiles > u32::MAX as u64 {
            return Err(StrokeTargetError::TileCountOverflow);
        }
        let alignment: u64 = limits.min_uniform_buffer_offset_alignment as u64;
        let steps: u64 = cover(TILE_UNIFORM_BYTES, alignment);
        assert(steps * alignment <= 32 * u32::MAX) by (nonlinear_arith)
            requires
                steps <= 32,
                alignment <= u32::MAX,
        ;
        let uniform_stride: u64 = steps * alignment;
        let uniform_bytes: u64 = match maximum_tiles.checked_mul(uniform_stride) {
            Some(bytes) => bytes,
            None => {
                return Err(StrokeTargetError::UniformBufferOverflow);
            },
        };
        if uniform_bytes > limits.max_buffer_size {
            return Err(
                StrokeTargetError::UniformBufferTooLarge {
                    requested: uniform_bytes,
                    maximum: limits.max_buffer_size,
                },
            );
        }
        Ok(
            SparseStrokeTarget {
                width,
                height,
                tile_size,
                page_capacity,
                uniform_stride,
                pages: 0,
                slots: KeyedMap::new(),
                color: [0, 0, 0, 0],
                vertex_capacity: INITIAL_VERTEX_BYTES,
                max_buffer_size: limits.max_buffer_size,
            },
        )
    }

    /// Begins a stroke of one color.
    pub fn begin(&mut self, color: [u32; 4]) -> (begun: Result<(), StrokeTargetError>)
        requires
            old(self).wf(),
        ensures
            final(self).wf(),
            match begun {
                Ok(_) => valid_color(color) && final(self)@ == (StrokeTargetModel {
                    color,
                    slots: Map::empty(),
                    ..old(self)@
                }),
                Err(error) => !valid_color(color) && error == StrokeTargetError::InvalidColor(
                    color,
                ) && *final(self) == *old(self),
            },
    {
        if !valid_premultiplied_color(color) {
            return Err(StrokeTargetError::InvalidColor(color));
        }
        self.color = color;
        self.slots = KeyedMap::new();
        Ok(())
    }

    pub fn touched_tile_count(&self) -> (count: usize)
        requires
            self.wf(),
        ensures
            self@.slots.dom().finite(),
            count == self@.slots.dom().len(),
    {
        self.slots.len()
    }

    pub fn retained_page_count(&self) -> (count: u64)
        ensures
            count == self@.pages,
    {
        self.pages
    }

    fn validate_touched_tiles(&self, touched: &Vec<StrokeTileDamage>) -> (checked: Result<
        (),
        StrokeTargetError,
    >)
        requires
            self.wf(),
        ensures
            match checked {
                Ok(_) => touched@.len() > 0 && all_touched_error(
                    self@,
                    touched@,
                    touched@.len() as int,
                ) is None,
                Err(error) => if touched@.len() == 0 {
                    error == StrokeTargetError::NoTouchedTiles
                } else {
                    all_touched_error(self@, touched@, touched@.len() as int) == Some(error)
                },
            },
    {
        if touched.len() == 0 {
            return Err(StrokeTargetError::NoTouchedTiles);
        }
        let mut i: usize = 0;
        while i < touched.len()
            invariant
                self.wf(),
                touched@.len() > 0,
                i <= touched@.len(),
                all_touched_error(self@, touched@, i as int) is None,
            decreases touched@.len() - i,
        {
            match self.validate_touched_tile(touched, i) {
                Ok(_) => {},
                Err(error) => {
                    proof {
                        lemma_touched_error(
                            self@,
                            touched@,
                            i as int + 1,
                            touched@.len() as int,
                        );
                    }
                    return Err(error);
                },
            }
            i += 1;
        }
        Ok(())
    }

    fn validate_touched_tile(&self, touched: &Vec<StrokeTileDamage>, i: usize) -> (checked: Result<
        (),
        StrokeTargetError,
    >)
        requires
            self.wf(),
            i < touched@.len(),
        ensures
            match checked {
                Ok(_) => touched_error(self@, touched@, i as int) is None,
                Err(error) => touched_error(self@, touched@, i as int) == Some(error),
            },
    {
        let tile = touched[i].coord;
        let mut k: usize = 0;
        while k < i
            invariant
                k <= i < touched@.len(),
                tile == touched@[i as int].coord,
                forall|j: int| 0 <= j < k ==> (#[trigger] touched@[j]).coord != tile,
            decreases i - k,
        {
            if touched[k].coord.same(tile) {
                assert(touched@[k as int].coord == tile);
                return Err(StrokeTargetError::DuplicateTouchedTile(tile));
            }
            k += 1;
        }
        let size: u64 = self.tile_size as u64;
        assert(tile.x * size <= u32::MAX * u32::MAX && tile.y * size <= u32::MAX * u32::MAX)
            by (nonlinear_arith)
            requires
                tile.x <= u32::MAX,
                tile.y <= u32::MAX,
                size <= u32::MAX,
        ;
        let origin_x: u64 = tile.x as u64 * size;
        let origin_y: u64 = tile.y as u64 * size;
        if origin_x > u32::MAX as u64 || origin_y > u32::MAX as u64 {
            return Err(StrokeTargetError::TileCoordinateOverflow(tile));
        }
        if origin_x >= self.width as u64 || origin_y >= self.height as u64 {
            return Err(StrokeTargetError::TileOutOfBounds(tile));
        }
        let left: u32 = self.width - origin_x as u32;
        let below: u32 = self.height - origin_y as u32;
        let valid_width: u32 = if self.tile_size < left {
            self.tile_size
        } else {
            left
        };
        let valid_height: u32 = if self.tile_size < below {
            self.tile_size
        } else {
            below
        };
        let damage = touched[i].local_damage;
        if damage.max_x() > valid_width || damage.max_y() > valid_height {
            return Err(
                StrokeTargetError::DamageOutsideTile { tile, damage, valid_width, valid_height },
            );
        }
        Ok(())
    }

    fn ensure_slot(&mut self, touched: StrokeTileDamage) -> (draw: Result<
        StrokeDraw,
        StrokeTargetError,
    >)
        requires
            old(self).wf(),
            on_canvas(old(self)@, touched.coord),
        ensures
            final(self).wf(),
            final(self)@ == slot_ensured(old(self)@, touched).0,
            match draw {
                Ok(draw) => slot_ensured(old(self)@, touched).1 == Some(draw),
                Err(error) => slot_ensured(old(self)@, touched).1 is None && error
                    == StrokeTargetError::UniformOffsetOverflow,
            },
    {
        let next_index: u32 = self.slots.len() as u32;
        let found = match self.slots.get(touched.coord) {
            Some(slot) => Some(*slot),
            None => None,
        };
        match found {
            Some(slot) => {
                let grown = StrokeSlot {
                    page: slot.page,
                    layer: slot.layer,
                    uniform_offset: slot.uniform_offset,
                    local_damage: slot.local_damage.union(touched.local_damage),
                };
                self.slots.insert(touched.coord, grown);
                Ok(StrokeDraw { slot: grown, clear: false })
            },
            None => {
                let page: u32 = next_index / self.page_capacity;
                let layer: u32 = next_index % self.page_capacity;
                if self.pages <= page as u64 {
                    self.pages = page as u64 + 1;
                }
                let offset: u64 = match (next_index as u64).checked_mul(self.uniform_stride) {
                    Some(offset) => offset,
                    None => {
                        return Err(StrokeTargetError::UniformOffsetOverflow);
                    },
                };
                if offset > u32::MAX as u64 {
                    return Err(StrokeTargetError::UniformOffsetOverflow);
                }
                let slot = StrokeSlot {
                    page,
                    layer,
                    uniform_offset: offset as u32,
                    local_damage: touched.local_damage,
                };
                self.slots.insert(touched.coord, slot);
                Ok(StrokeDraw { slot, clear: true })
            },
        }
    }

    /// Gives every touched tile a place, and lists what is drawn.
    pub fn encode_batch(
        &mut self,
        vertices: &Vec<GpuStrokeVertex>,
        touched: &Vec<StrokeTileDamage>,
    ) -> (encoding: Result<StrokeBatchEncoding, StrokeTargetError>)
        requires
            old(self).wf(),
        ensures
            final(self).wf(),
            encode_reported(old(self)@, vertices@, touched@, encoding, final(self)@),
    {
        match validate_vertices(vertices) {
            Ok(_) => {},
            Err(error) => {
                return Err(error);
            },
        }
        match self.validate_touched_tiles(touched) {
            Ok(_) => {},
            Err(error) => {
                return Err(error);
            },
        }
        let ghost before = self@;
        let required: usize = match vertices.len().checked_mul(STROKE_VERTEX_BYTES) {
            Some(required) => required,
            None => {
                return Err(StrokeTargetError::VertexBufferOverflow);
            },
        };
        match grown_capacity(self.vertex_capacity, required as u64, self.max_buffer_size) {
            Ok(capacity) => {
                self.vertex_capacity = capacity;
            },
            Err(BufferGrowthError::Overflow) => {
                return Err(StrokeTargetError::VertexBufferOverflow);
            },
            Err(BufferGrowthError::TooLarge { requested, maximum }) => {
                return Err(StrokeTargetError::VertexBufferTooLarge { requested, maximum });
            },
        }
        let ghost ready = self@;
        let mut draws: Vec<StrokeDraw> = Vec::new();
        let mut i: usize = 0;
        while i < touched.len()
            invariant
                self.wf(),
                i <= touched@.len(),
                batch_error(before, vertices@, touched@) is None,
                required == vertices@.len() * STROKE_VERTEX_BYTES,
                grows_to(
                    before.vertex_capacity,
                    required as u64,
                    before.max_buffer_size,
                    ready.vertex_capacity,
                ),
                ready == (StrokeTargetModel { vertex_capacity: ready.vertex_capacity, ..before }),
                before == old(self)@,
                slots_ensured(ready, touched@, i as int) == (self@, Some(draws@)),
                self@.vertex_capacity == ready.vertex_capacity,
                self@.width == before.width,
                self@.height == before.height,
                self@.tile_size == before.tile_size,
            decreases touched@.len() - i,
        {
            proof {
                lemma_touched_on_canvas(before, touched@, touched@.len() as int, i as int);
            }
            match self.ensure_slot(touched[i]) {
                Ok(draw) => {
                    draws.push(draw);
                },
                Err(error) => {
                    proof {
                        lemma_stuck(ready, touched@, i as int + 1, touched@.len() as int);
                    }
                    return Err(error);
                },
            }
            i += 1;
        }
        let stats = SparseStrokeStats {
            allocated_tiles: self.slots.len() as u32,
            retained_pages: self.pages as u32,
            render_passes: touched.len() as u32,
            vertices: vertices.len() as u32,
            vertex_bytes: required as u64,
        };
        Ok(StrokeBatchEncoding { stats, draws })
    }
}

/// Tiles that pass validation hold pixels of the canvas.
proof fn lemma_touched_on_canvas(
    target: StrokeTargetModel,
    touched: Seq<StrokeTileDamage>,
    n: int,
    i: int,
)
    requires
        0 <= i < n,
        all_touched_error(target, touched, n) is None,
    ensures
        on_canvas(target, touched[i].coord),
    decreases n,
{
    if i < n - 1 {
        lemma_touched_on_canvas(target, touched, n - 1, i);
    }
}

/// What comes of a batch.
pub open spec fn encode_reported(
    before: StrokeTargetModel,
    vertices: Seq<GpuStrokeVertex>,
    touched: Seq<StrokeTileDamage>,
    encoding: Result<StrokeBatchEncoding, StrokeTargetError>,
    after: StrokeTargetModel,
) -> bool {
    let required = vertices.len() * STROKE_VERTEX_BYTES;
    match batch_error(before, vertices, touched) {
        Some(expected) => {
            &&& encoding matches Err(error) && error == expected
            &&& after == before
        },
        None => {
            ||| {
                &&& after == before
                &&& encoding matches Err(error) && match error {
                    StrokeTargetError::VertexBufferOverflow => required > usize::MAX
                        || growth_fails(
                        before.vertex_capacity,
                        required as u64,
                        before.max_buffer_size,
                        BufferGrowthError::Overflow,
                    ),
                    StrokeTargetError::VertexBufferTooLarge { requested, maximum } => required
                        <= usize::MAX && growth_fails(
                        before.vertex_capacity,
                        required as u64,
                        before.max_buffer_size,
                        BufferGrowthError::TooLarge { requested, maximum },
                    ),
                    _ => false,
                }
            }
            ||| {
                let ready = StrokeTargetModel { vertex_capacity: after.vertex_capacity, ..before };
                let (ensured, draws) = slots_ensured(ready, touched, touched.len() as int);
                &&& required <= usize::MAX
                &&& grows_to(
                    before.vertex_capacity,
                    required as u64,
                    before.max_buffer_size,
                    after.vertex_capacity,
                )
                &&& after == ensured
                &&& match encoding {
                    Ok(encoding) => {
                        &&& draws == Some(encoding.draws@)
                        &&& encoding.stats == (SparseStrokeStats {
                            allocated_tiles: after.slots.dom().len() as u32,
                            retained_pages: after.pages as u32,
                            render_passes: touched.len() as u32,
                            vertices: vertices.len() as u32,
                            vertex_bytes: required as u64,
                        })
                    },
                    Err(error) => draws is None && error
                        == StrokeTargetError::UniformOffsetOverflow,
                }
            }
        },
    }
}

/// A tile of the stroke with its place.
#[derive(Clone, Copy, Debug, PartialEq, Eq, Structural)]
pub struct StrokeTile {
    pub coord: TileCoord,
    pub slot: StrokeSlot,
}

impl Ranked for StrokeTile {
    open spec fn le(self, other: Self) -> bool {
        self.coord.le(other.coord)
    }

    proof fn le_total(first: Self, second: Self) {
        TileCoord::le_total(first.coord, second.coord);
    }

    proof fn le_transitive(first: Self, second: Self, third: Self) {
        TileCoord::le_transitive(first.coord, second.coord, third.coord);
    }

    fn not_after(&self, other: &Self) -> (le: bool) {
        self.coord.not_after(&other.coord)
    }
}

/// The tiles of the stroke, row by row.
pub open spec fn tiles_listed(slots: Map<TileCoord, StrokeSlot>, tiles: Seq<StrokeTile>) -> bool {
    &&& in_order(tiles)
    &&& tiles.len() == slots.dom().len()
    &&& forall|i: int|
        #![trigger tiles[i]]
        0 <= i < tiles.len() ==> slots.contains_key(tiles[i].coord) && slots[tiles[i].coord]
            == tiles[i].slot
    &&& forall|coord: TileCoord| #[trigger]
        slots.contains_key(coord) ==> exists|i: int|
            0 <= i < tiles.len() && (#[trigger] tiles[i]).coord == coord
}

/// Where a tile of the stroke is shown, in pixels of the canvas.
#[derive(Clone, Copy, Debug, PartialEq, Eq)]
pub struct StrokeDisplayTile {
    pub page: u32,
    pub layer: u32,
    pub origin: [u32; 2],
    pub extent: [u32; 2],
}

/// Whether a tile is shown at its place, cut off where the canvas ends.
pub open spec fn display_of(
    target: StrokeTargetModel,
    tile: StrokeTile,
    shown: StrokeDisplayTile,
) -> bool {
    let origin_x = tile.coord.x * target.tile_size;
    let origin_y = tile.coord.y * target.tile_size;
    &&& shown.page == tile.slot.page
    &&& shown.layer == tile.slot.layer
    &&& shown.origin[0] == origin_x
    &&& shown.origin[1] == origin_y
    &&& shown.extent[0] == smaller(target.tile_size, target.width - origin_x)
    &&& shown.extent[1] == smaller(target.tile_size, target.height - origin_y)
}

pub open spec fn tiles_displayed(
    target: StrokeTargetModel,
    tiles: Seq<StrokeTile>,
    shown: Seq<StrokeDisplayTile>,
) -> bool {
    &&& shown.len() == tiles.len()
    &&& forall|k: int|
        #![trigger shown[k]]
        0 <= k < shown.len() ==> display_of(target, tiles[k], shown[k])
}

/// Whether a tile holds a pixel of the canvas.
pub open spec fn on_canvas(target: StrokeTargetModel, coord: TileCoord) -> bool {
    coord.x * target.tile_size < target.width && coord.y * target.tile_size < target.height
}

/// How many bytes a row of a tile takes in a readable buffer.
pub open spec fn row_pitch(tile_size: int) -> int {
    aligned(tile_size * STROKE_PIXEL_BYTES, 256)
}

/// How many bytes a tile takes in a readable buffer.
pub open spec fn tile_pitch(tile_size: int) -> int {
    row_pitch(tile_size) * tile_size
}

/// Why the stroke cannot be read back, if it cannot.
pub open spec fn readback_error(target: StrokeTargetModel) -> Option<StrokeTargetError> {
    if target.slots.dom().len() == 0 {
        Some(StrokeTargetError::EmptyReadback)
    } else if target.tile_size * STROKE_PIXEL_BYTES > u32::MAX {
        Some(StrokeTargetError::ReadbackSizeOverflow)
    } else if tile_pitch(target.tile_size) * target.slots.dom().len() > u64::MAX {
        Some(StrokeTargetError::ReadbackSizeOverflow)
    } else {
        None
    }
}

/// How far a readback has come.
#[derive(Clone, Copy, Debug, PartialEq, Eq, Structural)]
pub enum StrokeReadbackState {
    Encoded,
    Mapping,
    Complete,
}

/// A stroke on its way back from the device.
#[derive(Debug)]
pub struct PendingStrokeReadback {
    pub(crate) tiles: Vec<StrokeTile>,
    pub(crate) tile_size: u32,
    pub(crate) bytes_per_row: u32,
    pub(crate) byte_len: u64,
    pub(crate) state: StrokeReadbackState,
}

pub struct ReadbackModel {
    pub tiles: Seq<StrokeTile>,
    pub tile_size: int,
    pub bytes_per_row: int,
    pub byte_len: int,
    pub state: StrokeReadbackState,
}

impl View for PendingStrokeReadback {
    type V = ReadbackModel;

    open(crate) spec fn view(&self) -> ReadbackModel {
        ReadbackModel {
            tiles: self.tiles@,
            tile_size: self.tile_size as int,
            bytes_per_row: self.bytes_per_row as int,
            byte_len: self.byte_len as int,
            state: self.state,
        }
    }
}

impl SparseStrokeTarget {
    fn list_tiles(&self) -> (tiles: Vec<StrokeTile>)
        requires
            self.wf(),
        ensures
            tiles_listed(self@.slots, tiles@),
    {
        let ghost order = self.slots.entries@;
        let mut tiles: Vec<StrokeTile> = Vec::new();
        let mut i: usize = 0;
        while i < self.slots.entries.len()
            invariant
                order == self.slots.entries@,
                i <= order.len(),
                tiles@.len() == i,
                forall|k: int|
                    0 <= k < i ==> #[trigger] tiles@[k] == (StrokeTile {
                        coord: order[k].0,
                        slot: order[k].1,
                    }),
            decreases order.len() - i,
        {
            tiles.push(
                StrokeTile { coord: self.slots.entries[i].0, slot: self.slots.entries[i].1 },
            );
            i += 1;
        }
        let ghost found = tiles@;
        let ordered = sort(tiles);
        proof {
            lemma_sorted(found);
            lemma_map_len(order);
            assert forall|k: int|
                #![trigger ordered@[k]]
                0 <= k < ordered@.len() implies self@.slots.contains_key(ordered@[k].coord)
                && self@.slots[ordered@[k].coord] == ordered@[k].slot by {
                lemma_sorted_contains(found, ordered@[k]);
                assert(ordered@.contains(ordered@[k]));
                let a = choose|a: int| 0 <= a < found.len() && found[a] == ordered@[k];
                lemma_entry_in_map(order, a);
                assert(order[a].0 == ordered@[k].coord);
            }
            assert forall|coord: TileCoord| #[trigger]
                self@.slots.contains_key(coord) implies exists|k: int|
                0 <= k < ordered@.len() && (#[trigger] ordered@[k]).coord == coord by {
                let a = choose|a: int| 0 <= a < order.len() && (#[trigger] order[a]).0 == coord;
                lemma_sorted_contains(found, found[a]);
                assert(found.contains(found[a]));
                let k = choose|k: int| 0 <= k < ordered@.len() && ordered@[k] == found[a];
                assert(ordered@[k].coord == coord);
            }
        }
        ordered
    }

    /// Where each tile of the stroke is shown, row by row.
    pub fn prepare_presentation(&self) -> (shown: Vec<StrokeDisplayTile>)
        requires
            self.wf(),
        ensures
            exists|tiles: Seq<StrokeTile>| #[trigger]
                tiles_listed(self@.slots, tiles) && tiles_displayed(self@, tiles, shown@),
    {
        let tiles = self.list_tiles();
        let mut shown: Vec<StrokeDisplayTile> = Vec::new();
        let mut i: usize = 0;
        while i < tiles.len()
            invariant
                self.wf(),
                tiles_listed(self@.slots, tiles@),
                i <= tiles@.len(),
                shown@.len() == i,
                forall|k: int|
                    #![trigger shown@[k]]
                    0 <= k < i ==> display_of(self@, tiles@[k], shown@[k]),
            decreases tiles@.len() - i,
        {
            let tile = tiles[i];
            assert(on_canvas(self@, tile.coord));
            assert(tile.coord.x * self.tile_size >= 0 && tile.coord.y * self.tile_size >= 0)
                by (nonlinear_arith)
                requires
                    tile.coord.x >= 0,
                    tile.coord.y >= 0,
                    self.tile_size >= 0,
            ;
            let origin_x: u32 = tile.coord.x * self.tile_size;
            let origin_y: u32 = tile.coord.y * self.tile_size;
            let width: u32 = if self.tile_size <= self.width - origin_x {
                self.tile_size
            } else {
                self.width - origin_x
            };
            let height: u32 = if self.tile_size <= self.height - origin_y {
                self.tile_size
            } else {
                self.height - origin_y
            };
            shown.push(
                StrokeDisplayTile {
                    page: tile.slot.page,
                    layer: tile.slot.layer,
                    origin: [origin_x, origin_y],
                    extent: [width, height],
                },
            );
            i += 1;
        }
        assert(tiles_displayed(self@, tiles@, shown@));
        shown
    }

    /// Lists the tiles that are copied into a readable buffer. The tile at `i` begins at
    /// `i` times the bytes of a tile.
    pub fn encode_readback(&self) -> (readback: Result<PendingStrokeReadback, StrokeTargetError>)
        requires
            self.wf(),
            row_pitch(self@.tile_size) <= u32::MAX || self@.tile_size * STROKE_PIXEL_BYTES
                > u32::MAX,
        ensures
            match readback {
                Ok(readback) => {
                    &&& readback_error(self@) is None
                    &&& readback.wf()
                    &&& tiles_listed(self@.slots, readback@.tiles)
                    &&& readback@ == (ReadbackModel {
                        tiles: readback@.tiles,
                        tile_size: self@.tile_size,
                        bytes_per_row: row_pitch(self@.tile_size),
                        byte_len: tile_pitch(self@.tile_size) * self@.slots.dom().len(),
                        state: StrokeReadbackState::Encoded,
                    })
                },
                Err(error) => readback_error(self@) == Some(error),
            },
    {
        if self.slots.len() == 0 {
            return Err(StrokeTargetError::EmptyReadback);
        }
        let raw_row_bytes: u64 = self.tile_size as u64 * STROKE_PIXEL_BYTES as u64;
        if raw_row_bytes > u32::MAX as u64 {
            return Err(StrokeTargetError::ReadbackSizeOverflow);
        }
        let alignment: u64 = copy_row_alignment() as u64;
        let steps: u64 = cover(raw_row_bytes, alignment);
        let bytes_per_row: u64 = steps * alignment;
        assert(bytes_per_row == row_pitch(self@.tile_size));
        assert(bytes_per_row * self.tile_size <= u32::MAX * u32::MAX) by (nonlinear_arith)
            requires
                bytes_per_row <= u32::MAX,
                self.tile_size <= u32::MAX,
        ;
        let tile_bytes: u64 = bytes_per_row * self.tile_size as u64;
        let byte_len: u64 = match tile_bytes.checked_mul(self.slots.len() as u64) {
            Some(len) => len,
            None => {
                return Err(StrokeTargetError::ReadbackSizeOverflow);
            },
        };
        let tiles = self.list_tiles();
        Ok(
            PendingStrokeReadback {
                tiles,
                tile_size: self.tile_size,
                bytes_per_row: bytes_per_row as u32,
                byte_len,
                state: StrokeReadbackState::Encoded,
            },
        )
    }
}

/// Where the pixel at a place of a tile lies among the pixels of the buffer.
pub open spec fn buffer_index(readback: ReadbackModel, tile: int, index: int) -> int {
    let row = index / readback.tile_size;
    let column = index % readback.tile_size;
    (tile * tile_pitch(readback.tile_size) + row * readback.bytes_per_row) / 16 + column
}

/// The tile that the words of the buffer make.
pub open spec fn tile_read(
    readback: ReadbackModel,
    words: Seq<[u32; 4]>,
    i: int,
    tile: SourceOverModel,
) -> bool {
    &&& tile.coord == readback.tiles[i].coord
    &&& tile.local_damage == readback.tiles[i].slot.local_damage
    &&& tile.pixels == Seq::new(
        (readback.tile_size * readback.tile_size) as nat,
        |index: int| pixel_of(words[buffer_index(readback, i, index)]),
    )
}

/// The tiles that the bytes of the buffer make.
pub open(crate) spec fn stroke_read(
    readback: ReadbackModel,
    bytes: Seq<u8>,
    tiles: Seq<SourceOverTile>,
) -> bool {
    exists|words: Seq<[u32; 4]>|
        {
            &&& #[trigger] words_of(bytes, words)
            &&& tiles.len() == readback.tiles.len()
            &&& forall|i: int|
                0 <= i < tiles.len() ==> tile_read(readback, words, i, (#[trigger] tiles[i])@)
        }
}

/// What the device says of a buffer while nothing can be read from it.
pub open spec fn map_error(event: GpuMirrorMapEvent) -> Option<StrokeTargetError> {
    match event {
        GpuMirrorMapEvent::Disconnected => Some(StrokeTargetError::MapChannelDisconnected),
        GpuMirrorMapEvent::Failed => Some(StrokeTargetError::MapFailed),
        GpuMirrorMapEvent::Unreadable(error) => Some(StrokeTargetError::BufferAccess(*error)),
        _ => None,
    }
}

/// `bytemuck::cast_slice_mut` from groups of four words to bytes. The words are shown as
/// bytes in the byte order of the machine, so that bytes copied over them become the words.
/// It panics where the sizes differ, which the lengths rule out.
#[verifier::external_body]
fn copy_words(words: &mut Vec<[u32; 4]>, bytes: &[u8])
    requires
        bytes@.len() == 16 * old(words)@.len(),
    ensures
        words_of(bytes@, final(words)@),
{
    bytemuck::cast_slice_mut::<[u32; 4], u8>(words).copy_from_slice(bytes);
}

/// Groups of words that are all zero.
fn blank_words(count: usize) -> (words: Vec<[u32; 4]>)
    ensures
        words@.len() == count,
        forall|k: int| #![trigger words@[k]] 0 <= k < count ==> words@[k]@ == seq![0u32, 0u32, 0u32, 0u32],
{
    let mut words: Vec<[u32; 4]> = Vec::new();
    let mut i: usize = 0;
    while i < count
        invariant
            i <= count,
            words@.len() == i,
            forall|k: int| #![trigger words@[k]] 0 <= k < i ==> words@[k]@ == seq![0u32, 0u32, 0u32, 0u32],
        decreases count - i,
    {
        let blank: [u32; 4] = [0, 0, 0, 0];
        assert(blank@ =~= seq![0u32, 0u32, 0u32, 0u32]);
        words.push(blank);
        i += 1;
    }
    words
}

proof fn lemma_pitch(tile_size: int)
    requires
        tile_size > 0,
    ensures
        row_pitch(tile_size) % 16 == 0,
        row_pitch(tile_size) >= tile_size * 16,
        tile_pitch(tile_size) % 16 == 0,
        tile_pitch(tile_size) >= 0,
{
    let raw = tile_size * STROKE_PIXEL_BYTES;
    let steps = steps_over(raw, 256);
    assert(steps * 256 >= raw && steps >= 0) by {
        vstd::arithmetic::div_mod::lemma_fundamental_div_mod(raw + 255, 256);
    }
    assert(row_pitch(tile_size) == steps * 256);
    assert((steps * 256) % 16 == 0);
    assert(tile_pitch(tile_size) == steps * 256 * tile_size);
    assert((steps * 256 * tile_size) == 16 * (steps * 16 * tile_size)) by (nonlinear_arith);
    assert(steps * 16 * tile_size >= 0) by (nonlinear_arith)
        requires
            steps >= 0,
            tile_size > 0,
    ;
    vstd::arithmetic::div_mod::lemma_mod_multiples_basic(steps * 16 * tile_size, 16);
}

/// Every pixel of a tile lies in the buffer.
pub(crate) proof fn lemma_in_buffer(readback: ReadbackModel, tile: int, index: int)
    requires
        readback.tile_size > 0,
        readback.bytes_per_row == row_pitch(readback.tile_size),
        readback.byte_len == tile_pitch(readback.tile_size) * readback.tiles.len(),
        0 <= tile < readback.tiles.len(),
        0 <= index < readback.tile_size * readback.tile_size,
    ensures
        0 <= buffer_index(readback, tile, index) < readback.byte_len / 16,
{
    let size = readback.tile_size;
    let row = index / size;
    let column = index % size;
    lemma_pitch(size);
    vstd::arithmetic::div_mod::lemma_fundamental_div_mod(index, size);
    assert(0 <= row < size && 0 <= column < size) by (nonlinear_arith)
        requires
            0 <= index < size * size,
            size > 0,
            row == index / size,
            column == index % size,
    ;
    let pitch = row_pitch(size);
    let whole = tile_pitch(size);
    let count = readback.tiles.len() as int;
    assert(tile * whole + row * pitch + pitch <= whole * count) by (nonlinear_arith)
        requires
            0 <= tile < count,
            0 <= row < size,
            whole == pitch * size,
            pitch >= 0,
    ;
    let start = tile * whole + row * pitch;
    assert(start >= 0) by (nonlinear_arith)
        requires
            start == tile * whole + row * pitch,
            tile >= 0,
            row >= 0,
            whole >= 0,
            pitch >= 0,
    ;
    assert(start / 16 + column < (whole * count) / 16) by (nonlinear_arith)
        requires
            0 <= start,
            start + pitch <= whole * count,
            pitch >= size * 16,
            0 <= column < size,
    ;
}

impl PendingStrokeReadback {
    pub open(crate) spec fn wf(self) -> bool {
        &&& self.tile_size > 0
        &&& self@.bytes_per_row == row_pitch(self@.tile_size)
        &&& self@.byte_len == tile_pitch(self@.tile_size) * self@.tiles.len()
        &&& self@.tile_size * STROKE_PIXEL_BYTES <= u32::MAX
    }

    pub fn byte_len(&self) -> (len: u64)
        ensures
            len == self@.byte_len,
    {
        self.byte_len
    }

    /// The tiles that are copied, row by row.
    pub fn tiles(&self) -> (tiles: &Vec<StrokeTile>)
        ensures
            tiles@ == self@.tiles,
    {
        &self.tiles
    }

    pub fn bytes_per_row(&self) -> (bytes: u32)
        ensures
            bytes == self@.bytes_per_row,
    {
        self.bytes_per_row
    }

    pub fn begin_map(&mut self) -> (begun: Result<(), StrokeTargetError>)
        requires
            old(self).wf(),
        ensures
            final(self).wf(),
            match begun {
                Ok(_) => old(self)@.state == StrokeReadbackState::Encoded && final(self)@ == (
                ReadbackModel { state: StrokeReadbackState::Mapping, ..old(self)@ }),
                Err(error) => {
                    &&& old(self)@.state != StrokeReadbackState::Encoded
                    &&& error == StrokeTargetError::ReadbackAlreadyStarted
                    &&& *final(self) == *old(self)
                },
            },
    {
        match self.state {
            StrokeReadbackState::Encoded => {
                self.state = StrokeReadbackState::Mapping;
                Ok(())
            },
            _ => Err(StrokeTargetError::ReadbackAlreadyStarted),
        }
    }

    /// Takes what the device says of the buffer. Once its bytes can be read, they become
    /// the tiles of the stroke.
    pub fn try_finish(&mut self, event: GpuMirrorMapEvent) -> (finished: Result<
        Option<Vec<SourceOverTile>>,
        StrokeTargetError,
    >)
        requires
            old(self).wf(),
            event matches GpuMirrorMapEvent::Mapped(bytes) ==> bytes@.len() == old(self)@.byte_len,
        ensures
            final(self).wf(),
            match old(self)@.state {
                StrokeReadbackState::Complete => {
                    &&& finished matches Err(error) && error
                        == StrokeTargetError::ReadbackAlreadyFinished
                    &&& final(self)@ == old(self)@
                },
                StrokeReadbackState::Encoded => {
                    &&& finished matches Err(error) && error
                        == StrokeTargetError::ReadbackNotStarted
                    &&& final(self)@ == old(self)@
                },
                StrokeReadbackState::Mapping => match event {
                    GpuMirrorMapEvent::Pending => {
                        &&& finished matches Ok(tiles) && tiles is None
                        &&& final(self)@ == old(self)@
                    },
                    GpuMirrorMapEvent::Mapped(bytes) => {
                        &&& finished matches Ok(Some(tiles))
                        &&& stroke_read(old(self)@, bytes@, tiles@)
                        &&& final(self)@ == (ReadbackModel {
                            state: StrokeReadbackState::Complete,
                            ..old(self)@
                        })
                    },
                    _ => {
                        &&& finished matches Err(error) && map_error(event) == Some(error)
                        &&& final(self)@ == old(self)@
                    },
                },
            },
    {
        match self.state {
            StrokeReadbackState::Complete => {
                return Err(StrokeTargetError::ReadbackAlreadyFinished);
            },
            StrokeReadbackState::Encoded => {
                return Err(StrokeTargetError::ReadbackNotStarted);
            },
            StrokeReadbackState::Mapping => {},
        }
        let bytes = match event {
            GpuMirrorMapEvent::Pending => {
                return Ok(None);
            },
            GpuMirrorMapEvent::Disconnected => {
                return Err(StrokeTargetError::MapChannelDisconnected);
            },
            GpuMirrorMapEvent::Failed => {
                return Err(StrokeTargetError::MapFailed);
            },
            GpuMirrorMapEvent::Unreadable(error) => {
                return Err(StrokeTargetError::BufferAccess(error.duplicate()));
            },
            GpuMirrorMapEvent::Mapped(bytes) => bytes,
        };
        let ghost model = self@;
        proof {
            lemma_pitch(model.tile_size);
            let whole = tile_pitch(model.tile_size);
            let count = model.tiles.len() as int;
            let groups = whole / 16;
            assert(whole == 16 * groups);
            assert(whole * count == (groups * count) * 16) by (nonlinear_arith)
                requires
                    whole == 16 * groups,
            ;
            vstd::arithmetic::div_mod::lemma_mod_multiples_basic(groups * count, 16);
        }
        let mut words = blank_words(bytes.len() / 16);
        copy_words(&mut words, bytes);
        assert(words_of(bytes@, words@));
        assert(words@.len() == model.byte_len / 16);
        let mut tiles: Vec<SourceOverTile> = Vec::new();
        let mut i: usize = 0;
        while i < self.tiles.len()
            invariant
                self.wf(),
                self@ == model,
                words@.len() == model.byte_len / 16,
                i <= self.tiles@.len(),
                tiles@.len() == i,
                forall|k: int|
                    0 <= k < i ==> tile_read(model, words@, k, (#[trigger] tiles@[k])@),
            decreases self.tiles@.len() - i,
        {
            let pixels = self.read_tile(&words, i);
            let listed = self.tiles[i];
            tiles.push(SourceOverTile::new(listed.coord, listed.slot.local_damage, pixels));
            i += 1;
        }
        self.state = StrokeReadbackState::Complete;
        Ok(Some(tiles))
    }

    fn read_tile(&self, words: &Vec<[u32; 4]>, i: usize) -> (pixels: Vec<LinearRgba>)
        requires
            self.wf(),
            i < self@.tiles.len(),
            words@.len() == self@.byte_len / 16,
        ensures
            pixels@ == Seq::new(
                (self@.tile_size * self@.tile_size) as nat,
                |index: int| pixel_of(words@[buffer_index(self@, i as int, index)]),
            ),
    {
        let ghost model = self@;
        let ghost wanted = Seq::new(
            (model.tile_size * model.tile_size) as nat,
            |index: int| pixel_of(words@[buffer_index(model, i as int, index)]),
        );
        let size: u32 = self.tile_size;
        let total: usize = words.len();
        let mut pixels: Vec<LinearRgba> = Vec::new();
        let mut row: u32 = 0;
        proof {
            assert(0 * size == 0) by (nonlinear_arith);
            assert(wanted.subrange(0, 0) =~= Seq::empty());
        }
        while row < size
            invariant
                self.wf(),
                self@ == model,
                size == model.tile_size,
                i < model.tiles.len(),
                words@.len() == model.byte_len / 16,
                words@.len() == total,
                wanted == Seq::new(
                    (model.tile_size * model.tile_size) as nat,
                    |index: int| pixel_of(words@[buffer_index(model, i as int, index)]),
                ),
                row <= size,
                0 <= row * size <= wanted.len(),
                pixels@ == wanted.subrange(0, row * size),
            decreases size - row,
        {
            let mut column: u32 = 0;
            proof {
                assert(row * size + size == (row + 1) * size && (row + 1) * size <= size * size
                    && row * size >= 0) by (nonlinear_arith)
                    requires
                        0 <= row < size,
                ;
            }
            while column < size
                invariant
                    self.wf(),
                    self@ == model,
                    size == model.tile_size,
                    i < model.tiles.len(),
                    words@.len() == model.byte_len / 16,
                    words@.len() == total,
                    wanted == Seq::new(
                        (model.tile_size * model.tile_size) as nat,
                        |index: int| pixel_of(words@[buffer_index(model, i as int, index)]),
                    ),
                    row < size,
                    column <= size,
                    0 <= row * size,
                    row * size + size <= size * size,
                    wanted.len() == size * size,
                    pixels@ == wanted.subrange(0, row * size + column),
                decreases size - column,
            {
                let ghost index = row * size + column;
                proof {
                    lemma_in_buffer(model, i as int, index);
                    lemma_pitch(model.tile_size);
                    vstd::arithmetic::div_mod::lemma_fundamental_div_mod_converse(
                        index,
                        size as int,
                        row as int,
                        column as int,
                    );
                }
                let at: usize = self.word_index(i, row, column);
                let word = words[at];
                pixels.push(
                    LinearRgba { r: word[0], g: word[1], b: word[2], a: word[3] },
                );
                assert(wanted[index] == pixels@[index]);
                column += 1;
                assert(pixels@ =~= wanted.subrange(0, row * size + column));
            }
            row += 1;
        }
        assert(wanted.subrange(0, row * size) =~= wanted);
        pixels
    }

    /// Where a pixel lies among the pixels of the buffer.
    fn word_index(&self, i: usize, row: u32, column: u32) -> (at: usize)
        requires
            self.wf(),
            i < self@.tiles.len(),
            row < self@.tile_size,
            column < self@.tile_size,
            ({
                let index = row * self@.tile_size + column;
                &&& index / self@.tile_size == row
                &&& index % self@.tile_size == column
                &&& buffer_index(self@, i as int, index) < self@.byte_len / 16
                &&& buffer_index(self@, i as int, index) <= usize::MAX
            }),
        ensures
            at == buffer_index(self@, i as int, row * self@.tile_size + column),
    {
        let pitch: u64 = self.bytes_per_row as u64;
        let size: u64 = self.tile_size as u64;
        proof {
            let whole = tile_pitch(self@.tile_size);
            let count = self@.tiles.len() as int;
            lemma_pitch(self@.tile_size);
            assert(pitch * size <= u64::MAX) by (nonlinear_arith)
                requires
                    pitch <= u32::MAX,
                    size <= u32::MAX,
            ;
            assert(i * whole + row * pitch + pitch <= whole * count && i * whole >= 0 && row
                * pitch >= 0) by (nonlinear_arith)
                requires
                    0 <= i < count,
                    0 <= row < size,
                    whole == pitch * size,
                    pitch >= 0,
            ;
        }
        let tile_bytes: u64 = pitch * size;
        let start: u64 = i as u64 * tile_bytes + row as u64 * pitch;
        (start / 16 + column as u64) as usize
    }
}

} // verus!
