//! What a continuous blade stroke leaves for the device: triangles, and the tiles they touch.

use crate::brush::{
    clamp_to_unit, clamped_to_unit, contact_step, contact_with, sample_finite, BladeContact,
    BrushError, BrushSample, PaletteKnifeBrush,
};
use crate::gpu_stroke::{GpuStrokeVertex, StrokeTileDamage};
use crate::keyed_map::{has_key, keys_unique};
use crate::ordering::{lemma_sorted, lemma_sorted_contains, sort, stable_sorted, Ranked};
use crate::pixel_grid::minimum;
use crate::raster::{damage_add, damage_merge, Damage, Rect, RectU32, TileCoord};
use vstd::prelude::*;

verus! {

/// What a blade covers as it moves from one pose to the next: the corners of a convex polygon,
/// and the pixels of the canvas that its bounds reach, which may be none.
#[derive(Clone, Debug)]
pub struct BladeSweepOutline {
    pub corners: Vec<[u32; 2]>,
    pub min_x: u32,
    pub min_y: u32,
    pub max_x: u32,
    pub max_y: u32,
}

#[derive(Clone, Copy, Debug, PartialEq, Eq, Structural)]
pub enum ContinuousBladeError {
    EmptyCanvas,
    InvalidTileSize,
    InvalidPose,
    Brush(BrushError),
}

impl From<BrushError> for ContinuousBladeError {
    fn from(error: BrushError) -> (converted: Self) {
        ContinuousBladeError::Brush(error)
    }
}

impl vstd::std_specs::convert::FromSpecImpl<BrushError> for ContinuousBladeError {
    open spec fn obeys_from_spec() -> bool {
        true
    }

    open spec fn from_spec(error: BrushError) -> Self {
        ContinuousBladeError::Brush(error)
    }
}

/// How many sweeps a move from one pose to the next is cut into at most.
pub const MAXIMUM_BLADE_SUBDIVISIONS: usize = 24;

/// How a blade lies on the canvas: where, in which direction, and how far it reaches along and
/// across.
#[derive(Clone, Copy, Debug, PartialEq, Eq)]
pub struct BladePose {
    pub center: [u32; 2],
    pub direction: [u32; 2],
    pub half_extents: [u32; 2],
}

/// What is computed with fractions for a blade.
pub struct BladeGeometry<D, P, T, S> {
    /// The direction of the blade at a sample, from the direction and the place that it had.
    pub turn: D,
    /// How the blade lies at a place, with a direction and a pressure between zero and one. There
    /// is none where the numbers make no pose.
    pub place: P,
    /// What the blade covers where it comes down.
    pub touch: T,
    /// What the blade covers as it moves from one pose to another.
    pub sweep: S,
}

impl<
    D: Fn(BrushSample, [u32; 2], [u32; 2]) -> [u32; 2],
    P: Fn([u32; 2], [u32; 2], u32) -> Option<BladePose>,
    T: Fn(BladePose) -> BladeSweepOutline,
    S: Fn(BladePose, BladePose) -> Vec<BladeSweepOutline>,
> BladeGeometry<D, P, T, S> {
    /// Every question is answered, with polygons that have corners, and no more of them than a move
    /// is cut into.
    pub open spec fn fits(self) -> bool {
        &&& forall|sample: BrushSample, direction: [u32; 2], last: [u32; 2]| #[trigger]
            call_requires(self.turn, (sample, direction, last))
        &&& forall|position: [u32; 2], direction: [u32; 2], pressure: u32| #[trigger]
            call_requires(self.place, (position, direction, pressure))
        &&& forall|pose: BladePose| #[trigger] call_requires(self.touch, (pose,))
        &&& forall|pose: BladePose, outline: BladeSweepOutline| #[trigger]
            call_ensures(self.touch, (pose,), outline) ==> outline.corners@.len() > 0
        &&& forall|from: BladePose, to: BladePose| #[trigger] call_requires(self.sweep, (from, to))
        &&& forall|from: BladePose, to: BladePose, outlines: Vec<BladeSweepOutline>| #[trigger]
            call_ensures(self.sweep, (from, to), outlines) ==> outlines@.len()
                <= MAXIMUM_BLADE_SUBDIVISIONS && forall|i: int|
                0 <= i < outlines@.len() ==> (#[trigger] outlines@[i]).corners@.len() > 0
    }

    /// Whether the answers of a reading are those of the geometry.
    pub open spec fn answers(self, stroke: BladeModel, reading: BladeReading) -> bool {
        let sample = reading.sample;
        &&& call_ensures(
            self.turn,
            (sample, stroke.direction, stroke.last_position),
            reading.direction,
        )
        &&& stroke.contact(sample) != BladeContact::Lift ==> call_ensures(
            self.place,
            (sample.position, reading.direction, clamped_to_unit(sample.pressure)),
            reading.pose,
        )
        &&& match (stroke.contact(sample), reading.pose) {
            (BladeContact::Touch, Some(pose)) => {
                &&& reading.sweeps.len() == 1
                &&& call_ensures(self.touch, (pose,), reading.sweeps[0])
            },
            (BladeContact::Sweep, Some(pose)) => exists|outlines: Vec<BladeSweepOutline>|
                {
                    &&& #[trigger] call_ensures(self.sweep, (stroke.previous->0, pose), outlines)
                    &&& reading.sweeps == outlines@
                },
            _ => reading.sweeps.len() == 0,
        }
    }
}

/// A sample, and what is computed with fractions for it.
pub struct BladeReading {
    pub sample: BrushSample,
    pub direction: [u32; 2],
    pub pose: Option<BladePose>,
    pub sweeps: Seq<BladeSweepOutline>,
}

/// A triangle is three corners.
pub open spec fn triangle(corners: Seq<[u32; 2]>, n: int) -> Seq<GpuStrokeVertex> {
    seq![
        GpuStrokeVertex { position: corners[0] },
        GpuStrokeVertex { position: corners[n] },
        GpuStrokeVertex { position: corners[n + 1] },
    ]
}

/// The first `n` triangles of a polygon that is cut from its first corner.
pub open spec fn fan(corners: Seq<[u32; 2]>, n: int) -> Seq<GpuStrokeVertex>
    decreases n,
{
    if n <= 0 {
        Seq::empty()
    } else {
        fan(corners, n - 1) + triangle(corners, n)
    }
}

/// The part of `bounds` that lies in a tile, from the tile's own corner.
pub open spec fn local_part(bounds: Rect, tile_size: int, tile: TileCoord) -> Rect {
    let x = tile.x * tile_size;
    let y = tile.y * tile_size;
    Rect {
        min_x: if bounds.min_x <= x { 0 } else { bounds.min_x - x },
        min_y: if bounds.min_y <= y { 0 } else { bounds.min_y - y },
        max_x: minimum(bounds.max_x - x, tile_size),
        max_y: minimum(bounds.max_y - y, tile_size),
    }
}

/// The tiles that hold a pixel of `bounds`, each with its part of them.
pub open spec fn touched_by(bounds: Rect, tile_size: int) -> Map<TileCoord, Rect> {
    Map::new(
        |tile: TileCoord|
            bounds.nonempty() && bounds.min_x / tile_size <= tile.x <= (bounds.max_x - 1)
                / tile_size && bounds.min_y / tile_size <= tile.y <= (bounds.max_y - 1)
                / tile_size,
        |tile: TileCoord| local_part(bounds, tile_size, tile),
    )
}

impl BladeSweepOutline {
    pub open spec fn bounds(self) -> Rect {
        Rect {
            min_x: self.min_x as int,
            min_y: self.min_y as int,
            max_x: self.max_x as int,
            max_y: self.max_y as int,
        }
    }
}

/// The triangles of some sweeps, one after the other.
pub open spec fn swept_vertices(sweeps: Seq<BladeSweepOutline>) -> Seq<GpuStrokeVertex>
    decreases sweeps.len(),
{
    if sweeps.len() == 0 {
        Seq::empty()
    } else {
        swept_vertices(sweeps.drop_last()) + fan(
            sweeps.last().corners@,
            sweeps.last().corners@.len() - 2,
        )
    }
}

/// What some sweeps touch together.
pub open spec fn swept_damage(sweeps: Seq<BladeSweepOutline>, tile_size: int) -> Map<TileCoord, Rect>
    decreases sweeps.len(),
{
    if sweeps.len() == 0 {
        Map::empty()
    } else {
        damage_merge(
            swept_damage(sweeps.drop_last(), tile_size),
            touched_by(sweeps.last().bounds(), tile_size),
        )
    }
}

/// What a stroke has gathered since its last batch.
pub struct BladeModel {
    pub brush: PaletteKnifeBrush,
    pub canvas: (u32, u32),
    pub tile_size: int,
    pub direction: [u32; 2],
    pub last_position: [u32; 2],
    pub previous: Option<BladePose>,
    pub vertices: Seq<GpuStrokeVertex>,
    pub damage: Map<TileCoord, Rect>,
    pub sweeps: u32,
    pub total_sweeps: u64,
    pub finalized: bool,
}

/// Triangles that have not been drawn yet, with the tiles they touch in row order.
#[derive(Clone, Debug, PartialEq)]
pub struct GpuStrokeBatch {
    pub(crate) vertices: Vec<GpuStrokeVertex>,
    pub(crate) touched_tiles: Vec<StrokeTileDamage>,
    pub(crate) sweeps: u32,
}

pub struct BatchModel {
    pub vertices: Seq<GpuStrokeVertex>,
    pub touched_tiles: Seq<StrokeTileDamage>,
    pub sweeps: u32,
}

impl View for GpuStrokeBatch {
    type V = BatchModel;

    open(crate) spec fn view(&self) -> BatchModel {
        BatchModel {
            vertices: self.vertices@,
            touched_tiles: self.touched_tiles@,
            sweeps: self.sweeps,
        }
    }
}

impl GpuStrokeBatch {
    pub fn vertices(&self) -> (vertices: &Vec<GpuStrokeVertex>)
        ensures
            vertices@ == self@.vertices,
    {
        &self.vertices
    }

    pub fn touched_tiles(&self) -> (tiles: &Vec<StrokeTileDamage>)
        ensures
            tiles@ == self@.touched_tiles,
    {
        &self.touched_tiles
    }

    pub fn sweeps(&self) -> (sweeps: u32)
        ensures
            sweeps == self@.sweeps,
    {
        self.sweeps
    }

    pub fn is_empty(&self) -> (empty: bool)
        ensures
            empty == (self@.vertices.len() == 0),
    {
        self.vertices.len() == 0
    }
}

impl Default for GpuStrokeBatch {
    fn default() -> (batch: GpuStrokeBatch)
        ensures
            batch@ == (BatchModel {
                vertices: Seq::empty(),
                touched_tiles: Seq::empty(),
                sweeps: 0,
            }),
    {
        GpuStrokeBatch { vertices: Vec::new(), touched_tiles: Vec::new(), sweeps: 0 }
    }
}

impl Ranked for StrokeTileDamage {
    /// Row by row.
    open spec fn le(self, other: Self) -> bool {
        self.coord.le(other.coord)
    }

    proof fn le_total(first: Self, second: Self) {
    }

    proof fn le_transitive(first: Self, second: Self, third: Self) {
    }

    fn not_after(&self, other: &Self) -> (le: bool) {
        self.coord.not_after(&other.coord)
    }
}

/// Whether `tiles` lists exactly `damage`, each tile once and row by row.
pub open spec fn lists_damage(tiles: Seq<StrokeTileDamage>, damage: Map<TileCoord, Rect>) -> bool {
    &&& forall|i: int, j: int|
        #![trigger tiles[i], tiles[j]]
        0 <= i < j < tiles.len() ==> tiles[i].coord.le(tiles[j].coord) && tiles[i].coord
            != tiles[j].coord
    &&& forall|i: int|
        #![trigger tiles[i]]
        0 <= i < tiles.len() ==> damage.contains_key(tiles[i].coord) && damage[tiles[i].coord]
            == tiles[i].local_damage@
    &&& forall|tile: TileCoord| #[trigger]
        damage.contains_key(tile) ==> exists|i: int|
            0 <= i < tiles.len() && (#[trigger] tiles[i]).coord == tile
}

impl BladeModel {
    /// The stroke after some sweeps more.
    pub open spec fn swept(self, sweeps: Seq<BladeSweepOutline>) -> BladeModel {
        BladeModel {
            vertices: self.vertices + swept_vertices(sweeps),
            damage: damage_merge(self.damage, swept_damage(sweeps, self.tile_size)),
            sweeps: (self.sweeps + sweeps.len()) as u32,
            total_sweeps: (self.total_sweeps + sweeps.len()) as u64,
            ..self
        }
    }

    /// What the blade does at a sample.
    pub open spec fn contact(self, sample: BrushSample) -> BladeContact {
        contact_with(sample.pressure, self.brush.opacity, self.previous is Some)
    }

    /// How many sweeps a sample can give.
    pub open spec fn sweeps_at_most(self, sample: BrushSample) -> int {
        match self.contact(sample) {
            BladeContact::Lift => 0,
            BladeContact::Touch => 1,
            BladeContact::Sweep => MAXIMUM_BLADE_SUBDIVISIONS as int,
        }
    }

    /// The stroke after a sample. The blade turns at every sample; where its numbers make no pose
    /// it stays where it was.
    pub open spec fn sampled(self, reading: BladeReading) -> BladeModel {
        (BladeModel {
            direction: reading.direction,
            last_position: reading.sample.position,
            previous: match (self.contact(reading.sample), reading.pose) {
                (BladeContact::Lift, _) => None,
                (_, Some(pose)) => Some(pose),
                (_, None) => self.previous,
            },
            ..self
        }).swept(reading.sweeps)
    }

    /// Why a sample is refused after the blade has turned, if it is.
    pub open spec fn sample_error(self, reading: BladeReading) -> Option<ContinuousBladeError> {
        if self.contact(reading.sample) != BladeContact::Lift && reading.pose is None {
            Some(ContinuousBladeError::InvalidPose)
        } else {
            None
        }
    }

    /// The stroke after its batch was taken.
    pub open spec fn emptied(self) -> BladeModel {
        BladeModel { vertices: Seq::empty(), damage: Map::empty(), sweeps: 0, ..self }
    }

    /// `batch` holds what the stroke has gathered.
    pub open spec fn handed_out(self, batch: BatchModel) -> bool {
        &&& batch.vertices == self.vertices
        &&& batch.sweeps == self.sweeps
        &&& lists_damage(batch.touched_tiles, self.damage)
    }
}

/// One thing that is done with a stroke.
pub enum BladeStep {
    Sample(BladeReading),
    Take,
}

/// The stroke before its first sample, on a canvas and with tiles that are not empty.
pub open spec fn blank_stroke(
    brush: PaletteKnifeBrush,
    canvas: [u32; 2],
    tile_size: u32,
    position: [u32; 2],
) -> BladeModel {
    BladeModel {
        brush,
        canvas: (canvas[0], canvas[1]),
        tile_size: tile_size as int,
        direction: [0x3f80_0000, 0],
        last_position: position,
        previous: None,
        vertices: Seq::empty(),
        damage: Map::empty(),
        sweeps: 0,
        total_sweeps: 0,
        finalized: false,
    }
}

/// All sweeps of some steps, in their order.
pub open spec fn all_sweeps(steps: Seq<BladeStep>) -> Seq<BladeSweepOutline>
    decreases steps.len(),
{
    if steps.len() == 0 {
        Seq::empty()
    } else {
        match steps.last() {
            BladeStep::Sample(reading) => all_sweeps(steps.drop_last()) + reading.sweeps,
            BladeStep::Take => all_sweeps(steps.drop_last()),
        }
    }
}

/// The stroke after some steps.
pub open spec fn stepped(stroke: BladeModel, steps: Seq<BladeStep>) -> BladeModel
    decreases steps.len(),
{
    if steps.len() == 0 {
        stroke
    } else {
        let before = stepped(stroke, steps.drop_last());
        match steps.last() {
            BladeStep::Sample(reading) => before.sampled(reading),
            BladeStep::Take => before.emptied(),
        }
    }
}

/// `batches` are what the steps hand out, in their order.
pub open spec fn batches_taken(
    stroke: BladeModel,
    steps: Seq<BladeStep>,
    batches: Seq<BatchModel>,
) -> bool
    decreases steps.len(),
{
    if steps.len() == 0 {
        batches.len() == 0
    } else {
        let earlier = steps.drop_last();
        match steps.last() {
            BladeStep::Sample(_) => batches_taken(stroke, earlier, batches),
            BladeStep::Take => {
                &&& batches.len() > 0
                &&& batches_taken(stroke, earlier, batches.drop_last())
                &&& stepped(stroke, earlier).handed_out(batches.last())
            },
        }
    }
}

/// The triangles of the batches, one batch after the other.
pub open spec fn joined_vertices(batches: Seq<BatchModel>) -> Seq<GpuStrokeVertex>
    decreases batches.len(),
{
    if batches.len() == 0 {
        Seq::empty()
    } else {
        joined_vertices(batches.drop_last()) + batches.last().vertices
    }
}

/// How many sweeps the batches hold together.
pub open spec fn joined_sweeps(batches: Seq<BatchModel>) -> int
    decreases batches.len(),
{
    if batches.len() == 0 {
        0
    } else {
        joined_sweeps(batches.drop_last()) + batches.last().sweeps
    }
}

/// What a list of touched tiles says of each tile.
pub open spec fn listed_damage(tiles: Seq<StrokeTileDamage>) -> Map<TileCoord, Rect>
    decreases tiles.len(),
{
    if tiles.len() == 0 {
        Map::empty()
    } else {
        damage_add(
            listed_damage(tiles.drop_last()),
            tiles.last().coord,
            tiles.last().local_damage@,
        )
    }
}

/// What the batches touch together.
pub open spec fn joined_damage(batches: Seq<BatchModel>) -> Map<TileCoord, Rect>
    decreases batches.len(),
{
    if batches.len() == 0 {
        Map::empty()
    } else {
        damage_merge(
            joined_damage(batches.drop_last()),
            listed_damage(batches.last().touched_tiles),
        )
    }
}

/// A stroke of a blade that stays in contact, as a sequence of sweeps.
pub struct ContinuousBladeStroke {
    pub(crate) brush: PaletteKnifeBrush,
    pub(crate) canvas: [u32; 2],
    pub(crate) tile_size: u32,
    pub(crate) direction: [u32; 2],
    pub(crate) last_position: [u32; 2],
    pub(crate) previous_pose: Option<BladePose>,
    pub(crate) pending_vertices: Vec<GpuStrokeVertex>,
    pub(crate) pending_damage: Damage,
    pub(crate) pending_sweeps: u32,
    pub(crate) total_sweeps: u64,
    pub(crate) finalized: bool,
}

impl View for ContinuousBladeStroke {
    type V = BladeModel;

    open(crate) spec fn view(&self) -> BladeModel {
        BladeModel {
            brush: self.brush,
            canvas: (self.canvas[0], self.canvas[1]),
            tile_size: self.tile_size as int,
            direction: self.direction,
            last_position: self.last_position,
            previous: self.previous_pose,
            vertices: self.pending_vertices@,
            damage: self.pending_damage@,
            sweeps: self.pending_sweeps,
            total_sweeps: self.total_sweeps,
            finalized: self.finalized,
        }
    }
}

/// What comes of taking a sample.
pub open spec fn sample_reported<
    D: Fn(BrushSample, [u32; 2], [u32; 2]) -> [u32; 2],
    P: Fn([u32; 2], [u32; 2], u32) -> Option<BladePose>,
    T: Fn(BladePose) -> BladeSweepOutline,
    S: Fn(BladePose, BladePose) -> Vec<BladeSweepOutline>,
>(
    geometry: BladeGeometry<D, P, T, S>,
    before: BladeModel,
    sample: BrushSample,
    result: Result<(), ContinuousBladeError>,
    after: BladeModel,
) -> bool {
    exists|reading: BladeReading|
        {
            &&& #[trigger] geometry.answers(before, reading)
            &&& reading.sample == sample
            &&& after == before.sampled(reading)
            &&& match result {
                Ok(_) => before.sample_error(reading) is None,
                Err(error) => before.sample_error(reading) == Some(error),
            }
        }
}

/// No sweeps change nothing.
proof fn lemma_no_sweeps(stroke: BladeModel)
    ensures
        stroke.swept(Seq::empty()) == stroke,
{
    assert(stroke.vertices + Seq::<GpuStrokeVertex>::empty() =~= stroke.vertices);
    assert(damage_merge(stroke.damage, Map::empty()) =~= stroke.damage);
}

/// Row by row, whether `tile` comes before the tile at (`x`, `y`).
spec fn comes_before(tile: TileCoord, x: int, y: int) -> bool {
    tile.y < y || (tile.y == y && tile.x < x)
}

/// The part of `touched` that comes before the tile at (`x`, `y`).
spec fn touched_before(touched: Map<TileCoord, Rect>, x: int, y: int) -> Map<TileCoord, Rect> {
    Map::new(
        |tile: TileCoord| touched.contains_key(tile) && comes_before(tile, x, y),
        |tile: TileCoord| touched[tile],
    )
}

proof fn lemma_origin(low: int, high: int, tile_size: int, tile: int)
    requires
        0 <= low < high,
        tile_size > 0,
        low / tile_size <= tile <= (high - 1) / tile_size,
    ensures
        0 <= tile * tile_size < high,
        low < tile * tile_size + tile_size,
{
    vstd::arithmetic::div_mod::lemma_fundamental_div_mod(low, tile_size);
    vstd::arithmetic::div_mod::lemma_fundamental_div_mod(high - 1, tile_size);
    assert(low / tile_size >= 0) by (nonlinear_arith)
        requires
            low >= 0,
            tile_size > 0,
    ;
    assert(0 <= tile * tile_size) by (nonlinear_arith)
        requires
            tile >= 0,
            tile_size > 0,
    ;
    assert(tile * tile_size <= tile_size * ((high - 1) / tile_size)) by (nonlinear_arith)
        requires
            tile <= (high - 1) / tile_size,
            tile_size > 0,
    ;
    assert(tile_size * (low / tile_size) <= tile * tile_size) by (nonlinear_arith)
        requires
            low / tile_size <= tile,
            tile_size > 0,
    ;
}

/// The clipped extent of one axis inside a tile: where it starts and where it ends.
fn clip_axis(low: u32, high: u32, tile_size: u32, tile: u32) -> (part: (u32, u32))
    requires
        low < high,
        tile_size > 0,
        low as int / tile_size as int <= tile <= (high - 1) / tile_size as int,
    ensures
        part.0 == if low <= tile * tile_size {
            0
        } else {
            low - tile * tile_size
        },
        part.1 == minimum(high - tile * tile_size, tile_size as int),
        part.0 < part.1,
{
    proof {
        lemma_origin(low as int, high as int, tile_size as int, tile as int);
    }
    let origin: u32 = tile * tile_size;
    let start: u32 = if low <= origin {
        0
    } else {
        low - origin
    };
    let rest: u32 = high - origin;
    let end: u32 = if rest <= tile_size {
        rest
    } else {
        tile_size
    };
    (start, end)
}

impl ContinuousBladeStroke {
    pub open(crate) spec fn wf(self) -> bool {
        &&& self.canvas[0] > 0
        &&& self.canvas[1] > 0
        &&& self.tile_size > 0
        &&& self.pending_damage.wf()
    }

    /// Starts a stroke with its first sample.
    pub fn begin<
        D: Fn(BrushSample, [u32; 2], [u32; 2]) -> [u32; 2],
        P: Fn([u32; 2], [u32; 2], u32) -> Option<BladePose>,
        T: Fn(BladePose) -> BladeSweepOutline,
        S: Fn(BladePose, BladePose) -> Vec<BladeSweepOutline>,
    >(
        brush: PaletteKnifeBrush,
        canvas: [u32; 2],
        tile_size: u32,
        sample: BrushSample,
        geometry: &BladeGeometry<D, P, T, S>,
    ) -> (stroke: Result<ContinuousBladeStroke, ContinuousBladeError>)
        requires
            geometry.fits(),
        ensures
            if canvas[0] == 0 || canvas[1] == 0 {
                stroke matches Err(error) && error == ContinuousBladeError::EmptyCanvas
            } else if tile_size == 0 {
                stroke matches Err(error) && error == ContinuousBladeError::InvalidTileSize
            } else if !sample_finite(sample) {
                stroke matches Err(error) && error == ContinuousBladeError::Brush(
                    BrushError::InvalidSample,
                )
            } else {
                let blank = blank_stroke(brush, canvas, tile_size, sample.position);
                exists|reading: BladeReading|
                    {
                        &&& #[trigger] geometry.answers(blank, reading)
                        &&& reading.sample == sample
                        &&& match stroke {
                            Ok(stroke) => {
                                &&& blank.sample_error(reading) is None
                                &&& stroke.wf()
                                &&& stroke@ == blank.sampled(reading)
                            },
                            Err(error) => blank.sample_error(reading) == Some(error),
                        }
                    }
            },
    {
        if canvas[0] == 0 || canvas[1] == 0 {
            return Err(ContinuousBladeError::EmptyCanvas);
        }
        if tile_size == 0 {
            return Err(ContinuousBladeError::InvalidTileSize);
        }
        if !sample.is_finite() {
            return Err(ContinuousBladeError::Brush(BrushError::InvalidSample));
        }
        let mut stroke = ContinuousBladeStroke {
            brush,
            canvas,
            tile_size,
            direction: [0x3f80_0000, 0],
            last_position: sample.position,
            previous_pose: None,
            pending_vertices: Vec::new(),
            pending_damage: Damage::new(),
            pending_sweeps: 0,
            total_sweeps: 0,
            finalized: false,
        };
        assert(stroke@ == blank_stroke(brush, canvas, tile_size, sample.position)) by {
            assert(stroke@.vertices =~= Seq::empty());
        }
        match stroke.add_sample(sample, geometry) {
            Ok(_) => Ok(stroke),
            Err(error) => Err(error),
        }
    }

    /// The diameter of the blade.
    pub fn diameter(&self) -> (diameter: u32)
        ensures
            diameter == self@.brush.diameter,
    {
        self.brush.diameter
    }

    pub fn total_sweeps(&self) -> (sweeps: u64)
        ensures
            sweeps == self@.total_sweeps,
    {
        self.total_sweeps
    }

    pub fn is_finalized(&self) -> (finalized: bool)
        ensures
            finalized == self@.finalized,
    {
        self.finalized
    }

    /// How many more sweeps the stroke can count before its next batch.
    pub fn sweep_room(&self) -> (room: u32)
        ensures
            room <= u32::MAX - self@.sweeps,
            room <= u64::MAX - self@.total_sweeps,
            room == u32::MAX - self@.sweeps || room == u64::MAX - self@.total_sweeps,
    {
        let pending: u32 = u32::MAX - self.pending_sweeps;
        let total: u64 = u64::MAX - self.total_sweeps;
        if pending as u64 <= total {
            pending
        } else {
            total as u32
        }
    }

    /// Takes the next sample of the pen.
    pub fn update<
        D: Fn(BrushSample, [u32; 2], [u32; 2]) -> [u32; 2],
        P: Fn([u32; 2], [u32; 2], u32) -> Option<BladePose>,
        T: Fn(BladePose) -> BladeSweepOutline,
        S: Fn(BladePose, BladePose) -> Vec<BladeSweepOutline>,
    >(&mut self, sample: BrushSample, geometry: &BladeGeometry<D, P, T, S>) -> (updated: Result<
        (),
        ContinuousBladeError,
    >)
        requires
            old(self).wf(),
            geometry.fits(),
            old(self)@.sweeps + old(self)@.sweeps_at_most(sample) <= u32::MAX,
            old(self)@.total_sweeps + old(self)@.sweeps_at_most(sample) <= u64::MAX,
        ensures
            final(self).wf(),
            if old(self)@.finalized {
                &&& updated matches Err(error) && error == ContinuousBladeError::Brush(
                    BrushError::StrokeFinalized,
                )
                &&& *final(self) == *old(self)
            } else if !sample_finite(sample) {
                &&& updated matches Err(error) && error == ContinuousBladeError::Brush(
                    BrushError::InvalidSample,
                )
                &&& *final(self) == *old(self)
            } else {
                sample_reported(*geometry, old(self)@, sample, updated, final(self)@)
            },
    {
        if self.finalized {
            return Err(ContinuousBladeError::Brush(BrushError::StrokeFinalized));
        }
        if !sample.is_finite() {
            return Err(ContinuousBladeError::Brush(BrushError::InvalidSample));
        }
        self.add_sample(sample, geometry)
    }

    fn add_sample<
        D: Fn(BrushSample, [u32; 2], [u32; 2]) -> [u32; 2],
        P: Fn([u32; 2], [u32; 2], u32) -> Option<BladePose>,
        T: Fn(BladePose) -> BladeSweepOutline,
        S: Fn(BladePose, BladePose) -> Vec<BladeSweepOutline>,
    >(&mut self, sample: BrushSample, geometry: &BladeGeometry<D, P, T, S>) -> (added: Result<
        (),
        ContinuousBladeError,
    >)
        requires
            old(self).wf(),
            geometry.fits(),
            old(self)@.sweeps + old(self)@.sweeps_at_most(sample) <= u32::MAX,
            old(self)@.total_sweeps + old(self)@.sweeps_at_most(sample) <= u64::MAX,
        ensures
            final(self).wf(),
            sample_reported(*geometry, old(self)@, sample, added, final(self)@),
    {
        let ghost before = self@;
        let ghost none = Seq::<BladeSweepOutline>::empty();
        proof {
            lemma_no_sweeps(before);
        }
        let turn = &geometry.turn;
        self.direction = turn(sample, self.direction, self.last_position);
        self.last_position = sample.position;
        let ghost turned = self@;
        let step = contact_step(sample.pressure, self.brush.opacity, self.previous_pose.is_some());
        if step == BladeContact::Lift {
            self.previous_pose = None;
            proof {
                let reading = BladeReading {
                    sample,
                    direction: turned.direction,
                    pose: None,
                    sweeps: none,
                };
                lemma_no_sweeps(self@);
                assert(geometry.answers(before, reading));
                assert(self@ == before.sampled(reading));
            }
            return Ok(());
        }
        let place = &geometry.place;
        let placed = place(sample.position, self.direction, clamp_to_unit(sample.pressure));
        let current = match placed {
            Some(current) => current,
            None => {
                proof {
                    let reading = BladeReading {
                        sample,
                        direction: turned.direction,
                        pose: None,
                        sweeps: none,
                    };
                    lemma_no_sweeps(self@);
                    assert(geometry.answers(before, reading));
                    assert(self@ == before.sampled(reading));
                }
                return Err(ContinuousBladeError::InvalidPose);
            },
        };
        let outlines: Vec<BladeSweepOutline> = match self.previous_pose {
            Some(previous) => {
                let sweep = &geometry.sweep;
                sweep(previous, current)
            },
            None => {
                let touch = &geometry.touch;
                let outline = touch(current);
                let mut outlines: Vec<BladeSweepOutline> = Vec::new();
                outlines.push(outline);
                outlines
            },
        };
        self.append_sweeps(&outlines);
        self.previous_pose = Some(current);
        proof {
            let reading = BladeReading {
                sample,
                direction: turned.direction,
                pose: Some(current),
                sweeps: outlines@,
            };
            assert(geometry.answers(before, reading));
            assert(self@ == before.sampled(reading));
        }
        Ok(())
    }

    /// Adds some sweeps, one after the other.
    fn append_sweeps(&mut self, sweeps: &Vec<BladeSweepOutline>)
        requires
            old(self).wf(),
            old(self)@.sweeps + sweeps@.len() <= u32::MAX,
            old(self)@.total_sweeps + sweeps@.len() <= u64::MAX,
            forall|i: int| 0 <= i < sweeps@.len() ==> (#[trigger] sweeps@[i]).corners@.len() > 0,
        ensures
            final(self).wf(),
            final(self)@ == old(self)@.swept(sweeps@),
    {
        let ghost before = self@;
        let mut i: usize = 0;
        proof {
            assert(sweeps@.subrange(0, 0) =~= Seq::<BladeSweepOutline>::empty());
            assert(damage_merge(before.damage, Map::empty()) =~= before.damage);
            assert(before.vertices + Seq::<GpuStrokeVertex>::empty() =~= before.vertices);
        }
        while i < sweeps.len()
            invariant
                i <= sweeps@.len(),
                self.wf(),
                before.sweeps + sweeps@.len() <= u32::MAX,
                before.total_sweeps + sweeps@.len() <= u64::MAX,
                forall|i: int|
                    0 <= i < sweeps@.len() ==> (#[trigger] sweeps@[i]).corners@.len() > 0,
                self@ == (BladeModel {
                    vertices: before.vertices + swept_vertices(sweeps@.subrange(0, i as int)),
                    damage: damage_merge(
                        before.damage,
                        swept_damage(sweeps@.subrange(0, i as int), before.tile_size),
                    ),
                    sweeps: (before.sweeps + i) as u32,
                    total_sweeps: (before.total_sweeps + i) as u64,
                    ..before
                }),
            decreases sweeps@.len() - i,
        {
            let ghost earlier = sweeps@.subrange(0, i as int);
            let ghost now = sweeps@.subrange(0, i + 1);
            proof {
                assert(now.drop_last() =~= earlier);
                assert(now.last() == sweeps@[i as int]);
            }
            self.append_sweep(&sweeps[i]);
            proof {
                let part = fan(sweeps@[i as int].corners@, sweeps@[i as int].corners@.len() - 2);
                assert(before.vertices + swept_vertices(now) =~= (before.vertices + swept_vertices(
                    earlier,
                )) + part);
                assert(damage_merge(before.damage, swept_damage(now, before.tile_size))
                    =~= damage_merge(
                    damage_merge(before.damage, swept_damage(earlier, before.tile_size)),
                    touched_by(now.last().bounds(), before.tile_size),
                ));
            }
            i += 1;
        }
        assert(sweeps@.subrange(0, i as int) =~= sweeps@);
    }

    /// Ends the stroke: it takes no more sweeps.
    pub fn finish(&mut self) -> (finished: Result<(), ContinuousBladeError>)
        requires
            old(self).wf(),
        ensures
            final(self).wf(),
            match finished {
                Ok(_) => !old(self)@.finalized && final(self)@ == (BladeModel {
                    finalized: true,
                    ..old(self)@
                }),
                Err(error) => error == ContinuousBladeError::Brush(BrushError::StrokeFinalized)
                    && old(self)@.finalized && *final(self) == *old(self),
            },
    {
        if self.finalized {
            return Err(ContinuousBladeError::Brush(BrushError::StrokeFinalized));
        }
        self.finalized = true;
        Ok(())
    }

    /// Hands out what was gathered since the last batch.
    pub fn take_batch(&mut self) -> (batch: GpuStrokeBatch)
        requires
            old(self).wf(),
        ensures
            final(self).wf(),
            old(self)@.handed_out(batch@),
            final(self)@ == old(self)@.emptied(),
    {
        let mut touched: Vec<StrokeTileDamage> = Vec::new();
        let regions = self.pending_damage.tile_regions();
        let mut i: usize = 0;
        while i < regions.len()
            invariant
                i <= regions@.len(),
                touched@.len() == i,
                forall|j: int|
                    #![trigger touched@[j]]
                    0 <= j < i ==> touched@[j].coord == regions@[j].0 && touched@[j].local_damage
                        == regions@[j].1,
            decreases regions@.len() - i,
        {
            touched.push(StrokeTileDamage { coord: regions[i].0, local_damage: regions[i].1 });
            i += 1;
        }
        proof {
            lemma_listed(touched@, regions@, self.pending_damage@);
        }
        let touched_tiles = sort(touched);
        let mut vertices: Vec<GpuStrokeVertex> = Vec::new();
        std::mem::swap(&mut vertices, &mut self.pending_vertices);
        let sweeps: u32 = self.pending_sweeps;
        self.pending_sweeps = 0;
        self.pending_damage = Damage::new();
        GpuStrokeBatch { vertices, touched_tiles, sweeps }
    }

    /// Adds the triangles of one sweep, and the tiles it touches.
    fn append_sweep(&mut self, sweep: &BladeSweepOutline)
        requires
            old(self).wf(),
            old(self)@.sweeps < u32::MAX,
            old(self)@.total_sweeps < u64::MAX,
            sweep.corners@.len() > 0,
        ensures
            final(self).wf(),
            final(self)@ == (BladeModel {
                vertices: old(self)@.vertices + fan(
                    sweep.corners@,
                    sweep.corners@.len() - 2,
                ),
                damage: damage_merge(
                    old(self)@.damage,
                    touched_by(sweep.bounds(), old(self)@.tile_size),
                ),
                sweeps: (old(self)@.sweeps + 1) as u32,
                total_sweeps: (old(self)@.total_sweeps + 1) as u64,
                ..old(self)@
            }),
    {
        let ghost before = self@;
        let first = sweep.corners[0];
        let mut index: usize = 1;
        assert(before.vertices + fan(sweep.corners@, 0) =~= before.vertices);
        while index < sweep.corners.len() - 1
            invariant
                1 <= index,
                sweep.corners@.len() > 0,
                index <= sweep.corners@.len() - 1 || (index == 1 && sweep.corners@.len() == 1),
                first == sweep.corners@[0],
                self.wf(),
                self@ == (BladeModel {
                    vertices: before.vertices + fan(sweep.corners@, index - 1),
                    ..before
                }),
            decreases sweep.corners@.len() - index,
        {
            let ghost drawn = self.pending_vertices@;
            self.pending_vertices.push(GpuStrokeVertex { position: first });
            self.pending_vertices.push(GpuStrokeVertex { position: sweep.corners[index] });
            self.pending_vertices.push(GpuStrokeVertex { position: sweep.corners[index + 1] });
            assert(self.pending_vertices@ =~= before.vertices + fan(sweep.corners@, index as int));
            index += 1;
        }
        assert(fan(sweep.corners@, index - 1) == fan(sweep.corners@, sweep.corners@.len() - 2));
        self.pending_sweeps = self.pending_sweeps + 1;
        self.total_sweeps = self.total_sweeps + 1;
        self.include_bounds(sweep);
    }

    /// Notes what a sweep touches of each tile.
    #[verifier::loop_isolation(false)]
    fn include_bounds(&mut self, sweep: &BladeSweepOutline)
        requires
            old(self).wf(),
        ensures
            final(self).wf(),
            final(self)@ == (BladeModel {
                damage: damage_merge(
                    old(self)@.damage,
                    touched_by(sweep.bounds(), old(self)@.tile_size),
                ),
                ..old(self)@
            }),
    {
        let ghost before = self@;
        let ghost touched = touched_by(sweep.bounds(), before.tile_size);
        if sweep.min_x >= sweep.max_x || sweep.min_y >= sweep.max_y {
            assert(damage_merge(before.damage, touched) =~= before.damage);
            return ;
        }
        let tile_size: u32 = self.tile_size;
        let min_tile_x: u32 = sweep.min_x / tile_size;
        let min_tile_y: u32 = sweep.min_y / tile_size;
        let max_tile_x: u32 = (sweep.max_x - 1) / tile_size;
        let max_tile_y: u32 = (sweep.max_y - 1) / tile_size;
        let mut tile_y: u64 = min_tile_y as u64;
        assert(damage_merge(before.damage, touched_before(touched, 0, tile_y as int))
            =~= before.damage);
        while tile_y <= max_tile_y as u64
            invariant
                min_tile_y <= tile_y <= max_tile_y + 1 || (tile_y == min_tile_y),
                self.wf(),
                self@ == (BladeModel {
                    damage: damage_merge(
                        before.damage,
                        touched_before(touched, 0, tile_y as int),
                    ),
                    ..before
                }),
            decreases max_tile_y + 1 - tile_y,
        {
            let mut tile_x: u64 = min_tile_x as u64;
            assert(touched_before(touched, tile_x as int, tile_y as int) =~= touched_before(
                touched,
                0,
                tile_y as int,
            ));
            while tile_x <= max_tile_x as u64
                invariant
                    min_tile_y <= tile_y <= max_tile_y,
                    min_tile_x <= tile_x <= max_tile_x + 1 || (tile_x == min_tile_x),
                    self.wf(),
                    self@ == (BladeModel {
                        damage: damage_merge(
                            before.damage,
                            touched_before(touched, tile_x as int, tile_y as int),
                        ),
                        ..before
                    }),
                decreases max_tile_x + 1 - tile_x,
            {
                let tile = TileCoord::new(tile_x as u32, tile_y as u32);
                let (start_x, end_x) = clip_axis(sweep.min_x, sweep.max_x, tile_size, tile.x);
                let (start_y, end_y) = clip_axis(sweep.min_y, sweep.max_y, tile_size, tile.y);
                let ghost earlier = touched_before(touched, tile_x as int, tile_y as int);
                match RectU32::from_min_max(start_x, start_y, end_x, end_y) {
                    Some(local) => {
                        self.pending_damage.add(tile, local);
                        proof {
                            assert(touched.contains_key(tile));
                            assert(local@ == touched[tile]);
                            assert(!earlier.contains_key(tile));
                            assert(touched_before(touched, tile_x + 1, tile_y as int)
                                =~= earlier.insert(tile, local@));
                            assert(damage_merge(before.damage, earlier.insert(tile, local@))
                                =~= damage_add(
                                damage_merge(before.damage, earlier),
                                tile,
                                local@,
                            ));
                        }
                    },
                    None => {},
                }
                tile_x = tile_x + 1;
            }
            proof {
                assert(touched_before(touched, 0, tile_y + 1) =~= touched_before(
                    touched,
                    tile_x as int,
                    tile_y as int,
                ));
            }
            tile_y = tile_y + 1;
        }
        assert(touched_before(touched, 0, tile_y as int) =~= touched);
    }
}

/// Sorting the entries of a damage lists it row by row.
proof fn lemma_listed(
    tiles: Seq<StrokeTileDamage>,
    regions: Seq<(TileCoord, RectU32)>,
    damage: Map<TileCoord, Rect>,
)
    requires
        tiles.len() == regions.len(),
        forall|j: int|
            #![trigger tiles[j]]
            0 <= j < tiles.len() ==> tiles[j].coord == regions[j].0 && tiles[j].local_damage
                == regions[j].1,
        keys_unique(regions),
        forall|i: int|
            0 <= i < regions.len() ==> {
                let entry = #[trigger] regions[i];
                damage.contains_key(entry.0) && damage[entry.0] == entry.1@
            },
        forall|tile: TileCoord| #[trigger]
            damage.contains_key(tile) ==> has_key(regions, tile),
    ensures
        lists_damage(stable_sorted(tiles), damage),
{
    let sorted = stable_sorted(tiles);
    lemma_sorted(tiles);
    assert(tiles.no_duplicates()) by {
        assert forall|i: int, j: int|
            0 <= i < tiles.len() && 0 <= j < tiles.len() && i != j implies tiles[i]
            != tiles[j] by {
            assert(regions[i].0 == tiles[i].coord && regions[j].0 == tiles[j].coord);
        }
    }
    tiles.lemma_multiset_has_no_duplicates();
    sorted.lemma_multiset_has_no_duplicates_conv();
    assert forall|i: int| 0 <= i < sorted.len() implies exists|k: int|
        0 <= k < tiles.len() && tiles[k] == #[trigger] sorted[i] by {
        lemma_sorted_contains(tiles, sorted[i]);
        assert(sorted.contains(sorted[i]));
    }
    assert forall|i: int|
        #![trigger sorted[i]]
        0 <= i < sorted.len() implies damage.contains_key(sorted[i].coord)
        && damage[sorted[i].coord] == sorted[i].local_damage@ by {
        let k = choose|k: int| 0 <= k < tiles.len() && tiles[k] == sorted[i];
        assert(regions[k].0 == tiles[k].coord);
    }
    assert forall|i: int, j: int|
        #![trigger sorted[i], sorted[j]]
        0 <= i < j < sorted.len() implies sorted[i].coord.le(sorted[j].coord)
        && sorted[i].coord != sorted[j].coord by {
        assert(sorted[i].le(sorted[j]));
        let a = choose|a: int| 0 <= a < tiles.len() && tiles[a] == sorted[i];
        let b = choose|b: int| 0 <= b < tiles.len() && tiles[b] == sorted[j];
        assert(regions[a].0 == tiles[a].coord && regions[b].0 == tiles[b].coord);
        if sorted[i].coord == sorted[j].coord {
            assert(a == b);
        }
    }
    assert forall|tile: TileCoord| #[trigger] damage.contains_key(tile) implies exists|i: int|
        0 <= i < sorted.len() && (#[trigger] sorted[i]).coord == tile by {
        let k = choose|k: int| 0 <= k < regions.len() && (#[trigger] regions[k]).0 == tile;
        assert(tiles[k].coord == tile);
        lemma_sorted_contains(tiles, tiles[k]);
        assert(tiles.contains(tiles[k]));
        let i = choose|i: int| 0 <= i < sorted.len() && sorted[i] == tiles[k];
        assert(sorted[i].coord == tile);
    }
}

/// Where a stroke is cut into batches changes nothing of what it draws and touches: what two
/// batches hold together is what one batch of all their sweeps would hold.
pub proof fn law_batches_add_up(
    first: Seq<BladeSweepOutline>,
    second: Seq<BladeSweepOutline>,
    tile_size: int,
)
    ensures
        swept_vertices(first + second) == swept_vertices(first) + swept_vertices(second),
        swept_damage(first + second, tile_size) == damage_merge(
            swept_damage(first, tile_size),
            swept_damage(second, tile_size),
        ),
    decreases second.len(),
{
    if second.len() == 0 {
        assert(first + second =~= first);
        assert(swept_vertices(first) + Seq::<GpuStrokeVertex>::empty() =~= swept_vertices(first));
        assert(damage_merge(swept_damage(first, tile_size), Map::empty()) =~= swept_damage(
            first,
            tile_size,
        ));
    } else {
        let rest = second.drop_last();
        law_batches_add_up(first, rest, tile_size);
        assert((first + second).drop_last() =~= first + rest);
        assert((first + second).last() == second.last());
        assert(swept_vertices(first + second) =~= swept_vertices(first) + swept_vertices(second));
        assert(swept_damage(first + second, tile_size) =~= damage_merge(
            swept_damage(first, tile_size),
            swept_damage(second, tile_size),
        ));
    }
}

/// What a sweep touches of a tile lies in the tile, and only tiles of the canvas are touched.
pub proof fn law_damage_stays_on_the_canvas(
    bounds: Rect,
    canvas: (int, int),
    tile_size: int,
    tile: TileCoord,
)
    requires
        tile_size > 0,
        0 <= bounds.min_x,
        0 <= bounds.min_y,
        bounds.max_x <= canvas.0,
        bounds.max_y <= canvas.1,
        touched_by(bounds, tile_size).contains_key(tile),
    ensures
        touched_by(bounds, tile_size)[tile].nonempty(),
        0 <= touched_by(bounds, tile_size)[tile].min_x,
        0 <= touched_by(bounds, tile_size)[tile].min_y,
        touched_by(bounds, tile_size)[tile].max_x <= minimum(
            tile_size,
            canvas.0 - tile.x * tile_size,
        ),
        touched_by(bounds, tile_size)[tile].max_y <= minimum(
            tile_size,
            canvas.1 - tile.y * tile_size,
        ),
{
    lemma_origin(bounds.min_x, bounds.max_x, tile_size, tile.x as int);
    lemma_origin(bounds.min_y, bounds.max_y, tile_size, tile.y as int);
}

/// A list that names each tile once says of it what it lists.
proof fn lemma_listed_tiles(tiles: Seq<StrokeTileDamage>)
    requires
        forall|i: int, j: int|
            #![trigger tiles[i], tiles[j]]
            0 <= i < j < tiles.len() ==> tiles[i].coord != tiles[j].coord,
    ensures
        forall|i: int|
            #![trigger tiles[i]]
            0 <= i < tiles.len() ==> listed_damage(tiles).contains_key(tiles[i].coord)
                && listed_damage(tiles)[tiles[i].coord] == tiles[i].local_damage@,
        forall|tile: TileCoord| #[trigger]
            listed_damage(tiles).contains_key(tile) ==> exists|i: int|
                0 <= i < tiles.len() && (#[trigger] tiles[i]).coord == tile,
    decreases tiles.len(),
{
    if tiles.len() > 0 {
        let rest = tiles.drop_last();
        assert forall|i: int, j: int|
            #![trigger rest[i], rest[j]]
            0 <= i < j < rest.len() implies rest[i].coord != rest[j].coord by {
            assert(tiles[i].coord != tiles[j].coord);
        }
        lemma_listed_tiles(rest);
        let last = tiles.last();
        assert(!listed_damage(rest).contains_key(last.coord)) by {
            if listed_damage(rest).contains_key(last.coord) {
                let i = choose|i: int|
                    0 <= i < rest.len() && (#[trigger] rest[i]).coord == last.coord;
                assert(tiles[i].coord != tiles[tiles.len() - 1].coord);
            }
        }
        assert forall|i: int|
            #![trigger tiles[i]]
            0 <= i < tiles.len() implies listed_damage(tiles).contains_key(tiles[i].coord)
            && listed_damage(tiles)[tiles[i].coord] == tiles[i].local_damage@ by {
            if i < tiles.len() - 1 {
                assert(rest[i] == tiles[i]);
                assert(tiles[i].coord != tiles[tiles.len() - 1].coord);
            }
        }
        assert forall|tile: TileCoord| #[trigger]
            listed_damage(tiles).contains_key(tile) implies exists|i: int|
            0 <= i < tiles.len() && (#[trigger] tiles[i]).coord == tile by {
            if tile == last.coord {
                assert(tiles[tiles.len() - 1].coord == tile);
            } else {
                let i = choose|i: int| 0 <= i < rest.len() && (#[trigger] rest[i]).coord == tile;
                assert(tiles[i].coord == tile);
            }
        }
    }
}

/// A list of some damage says exactly that damage.
proof fn lemma_list_says_damage(tiles: Seq<StrokeTileDamage>, damage: Map<TileCoord, Rect>)
    requires
        lists_damage(tiles, damage),
    ensures
        listed_damage(tiles) == damage,
{
    lemma_listed_tiles(tiles);
    let said = listed_damage(tiles);
    assert forall|tile: TileCoord| #![trigger said.contains_key(tile)]
        said.contains_key(tile) == damage.contains_key(tile) && (said.contains_key(tile)
            ==> said[tile] == damage[tile]) by {
        if said.contains_key(tile) {
            let i = choose|i: int| 0 <= i < tiles.len() && (#[trigger] tiles[i]).coord == tile;
            assert(damage.contains_key(tiles[i].coord));
        }
        if damage.contains_key(tile) {
            let i = choose|i: int| 0 <= i < tiles.len() && (#[trigger] tiles[i]).coord == tile;
            assert(said.contains_key(tiles[i].coord));
        }
    }
    assert(said =~= damage);
}

/// Whatever is done with a stroke, nothing of it is lost or drawn twice: the batches that were
/// taken, joined in order, and what the stroke still holds are what it held at first and all
/// sweeps since.
pub proof fn law_batches_keep_the_stroke(
    stroke: BladeModel,
    steps: Seq<BladeStep>,
    batches: Seq<BatchModel>,
)
    requires
        batches_taken(stroke, steps, batches),
        stroke.sweeps + all_sweeps(steps).len() <= u32::MAX,
    ensures
        joined_vertices(batches) + stepped(stroke, steps).vertices == stroke.vertices
            + swept_vertices(all_sweeps(steps)),
        damage_merge(joined_damage(batches), stepped(stroke, steps).damage) == damage_merge(
            stroke.damage,
            swept_damage(all_sweeps(steps), stroke.tile_size),
        ),
        joined_sweeps(batches) + stepped(stroke, steps).sweeps == stroke.sweeps + all_sweeps(
            steps,
        ).len(),
        stepped(stroke, steps).tile_size == stroke.tile_size,
        joined_sweeps(batches) >= 0,
    decreases steps.len(),
{
    let now = stepped(stroke, steps);
    if steps.len() == 0 {
        assert(joined_vertices(batches) + now.vertices =~= stroke.vertices + swept_vertices(
            all_sweeps(steps),
        ));
        assert(damage_merge(joined_damage(batches), now.damage) =~= damage_merge(
            stroke.damage,
            swept_damage(all_sweeps(steps), stroke.tile_size),
        ));
    } else {
        let earlier = steps.drop_last();
        let before = stepped(stroke, earlier);
        match steps.last() {
            BladeStep::Sample(reading) => {
                let sweeps = reading.sweeps;
                law_batches_keep_the_stroke(stroke, earlier, batches);
                law_batches_add_up(all_sweeps(earlier), sweeps, stroke.tile_size);
                assert(joined_vertices(batches) + now.vertices =~= (joined_vertices(batches)
                    + before.vertices) + swept_vertices(sweeps));
                assert(stroke.vertices + swept_vertices(all_sweeps(steps)) =~= (stroke.vertices
                    + swept_vertices(all_sweeps(earlier))) + swept_vertices(sweeps));
                let more = swept_damage(sweeps, stroke.tile_size);
                assert(damage_merge(joined_damage(batches), now.damage) =~= damage_merge(
                    damage_merge(joined_damage(batches), before.damage),
                    more,
                ));
                assert(damage_merge(
                    stroke.damage,
                    swept_damage(all_sweeps(steps), stroke.tile_size),
                ) =~= damage_merge(
                    damage_merge(
                        stroke.damage,
                        swept_damage(all_sweeps(earlier), stroke.tile_size),
                    ),
                    more,
                ));
            },
            BladeStep::Take => {
                let rest = batches.drop_last();
                law_batches_keep_the_stroke(stroke, earlier, rest);
                lemma_list_says_damage(batches.last().touched_tiles, before.damage);
                assert(joined_vertices(batches) + now.vertices =~= joined_vertices(rest)
                    + before.vertices);
                assert(damage_merge(joined_damage(batches), now.damage) =~= damage_merge(
                    joined_damage(rest),
                    before.damage,
                ));
            },
        }
    }
}

/// Where a stroke is cut into batches does not matter. Of two strokes that begin alike and take
/// the same samples, let one hand out all at the end, and let the other hand out batches at any
/// time, and at the end. The batches joined in order are the one batch: the same triangles, the
/// same number of sweeps, and the same tiles touched to the same extent.
pub proof fn law_one_batch_holds_what_many_hold(
    stroke: BladeModel,
    samples: Seq<BladeStep>,
    whole: BatchModel,
    steps: Seq<BladeStep>,
    batches: Seq<BatchModel>,
)
    requires
        stroke.emptied() == stroke,
        forall|i: int| 0 <= i < samples.len() ==> (#[trigger] samples[i]) is Sample,
        stepped(stroke, samples).handed_out(whole),
        readings(steps) == readings(samples),
        all_sweeps(samples).len() <= u32::MAX,
        steps.len() > 0,
        steps.last() is Take,
        batches_taken(stroke, steps, batches),
    ensures
        joined_vertices(batches) == whole.vertices,
        joined_sweeps(batches) == whole.sweeps,
        lists_damage(whole.touched_tiles, joined_damage(batches)),
{
    lemma_sweeps_of_readings(steps);
    lemma_sweeps_of_readings(samples);
    lemma_nothing_taken(stroke, samples);
    let sweeps = all_sweeps(samples);
    let held = stepped(stroke, samples);
    law_batches_keep_the_stroke(stroke, samples, Seq::empty());
    law_batches_keep_the_stroke(stroke, steps, batches);
    let none = Seq::<BatchModel>::empty();
    let now = stepped(stroke, steps);
    assert(joined_vertices(none) + held.vertices =~= held.vertices);
    assert(damage_merge(joined_damage(none), held.damage) =~= held.damage);
    assert(joined_vertices(batches) + now.vertices =~= joined_vertices(batches));
    assert(damage_merge(joined_damage(batches), now.damage) =~= joined_damage(batches));
}

/// The samples among some steps.
pub open spec fn readings(steps: Seq<BladeStep>) -> Seq<BladeReading>
    decreases steps.len(),
{
    if steps.len() == 0 {
        Seq::empty()
    } else {
        match steps.last() {
            BladeStep::Sample(reading) => readings(steps.drop_last()).push(reading),
            BladeStep::Take => readings(steps.drop_last()),
        }
    }
}

/// The sweeps of some samples, in their order.
pub open spec fn sweeps_of(readings: Seq<BladeReading>) -> Seq<BladeSweepOutline>
    decreases readings.len(),
{
    if readings.len() == 0 {
        Seq::empty()
    } else {
        sweeps_of(readings.drop_last()) + readings.last().sweeps
    }
}

proof fn lemma_sweeps_of_readings(steps: Seq<BladeStep>)
    ensures
        all_sweeps(steps) == sweeps_of(readings(steps)),
    decreases steps.len(),
{
    if steps.len() > 0 {
        lemma_sweeps_of_readings(steps.drop_last());
        match steps.last() {
            BladeStep::Sample(reading) => {
                assert(readings(steps).drop_last() =~= readings(steps.drop_last()));
            },
            BladeStep::Take => {},
        }
    }
}

proof fn lemma_nothing_taken(stroke: BladeModel, samples: Seq<BladeStep>)
    requires
        forall|i: int| 0 <= i < samples.len() ==> (#[trigger] samples[i]) is Sample,
    ensures
        batches_taken(stroke, samples, Seq::empty()),
    decreases samples.len(),
{
    if samples.len() > 0 {
        let rest = samples.drop_last();
        assert forall|i: int| 0 <= i < rest.len() implies (#[trigger] rest[i]) is Sample by {
            assert(rest[i] == samples[i]);
        }
        lemma_nothing_taken(stroke, rest);
        assert(samples[samples.len() - 1] is Sample);
    }
}

/// Taking a batch changes nothing of where the blade is: a sample does with the canvas what it would
/// do without the batch.
pub proof fn law_taking_a_batch_keeps_the_contact(stroke: BladeModel, sample: BrushSample)
    ensures
        stroke.emptied().contact(sample) == stroke.contact(sample),
        stroke.emptied().previous == stroke.previous,
        stroke.emptied().direction == stroke.direction,
        stroke.emptied().last_position == stroke.last_position,
{
}

/// A blade that is not pressed down leaves the canvas and draws nothing, and comes down anew at the
/// next sample that presses it.
pub proof fn law_lifted_blade_draws_nothing<
    D: Fn(BrushSample, [u32; 2], [u32; 2]) -> [u32; 2],
    P: Fn([u32; 2], [u32; 2], u32) -> Option<BladePose>,
    T: Fn(BladePose) -> BladeSweepOutline,
    S: Fn(BladePose, BladePose) -> Vec<BladeSweepOutline>,
>(
    geometry: BladeGeometry<D, P, T, S>,
    stroke: BladeModel,
    reading: BladeReading,
    next: BrushSample,
)
    requires
        geometry.answers(stroke, reading),
        stroke.contact(reading.sample) == BladeContact::Lift,
    ensures
        stroke.sampled(reading).vertices == stroke.vertices,
        stroke.sampled(reading).damage == stroke.damage,
        stroke.sampled(reading).sweeps == stroke.sweeps,
        stroke.sampled(reading).total_sweeps == stroke.total_sweeps,
        stroke.sampled(reading).contact(next) != BladeContact::Sweep,
{
    assert(reading.sweeps =~= Seq::empty());
    lemma_no_sweeps(
        BladeModel {
            direction: reading.direction,
            last_position: reading.sample.position,
            previous: None,
            ..stroke
        },
    );
}

/// A batch that is taken right after another holds nothing.
pub proof fn law_second_batch_is_empty(stroke: BladeModel, batch: BatchModel)
    requires
        stroke.emptied().handed_out(batch),
    ensures
        batch.vertices.len() == 0,
        batch.touched_tiles.len() == 0,
        batch.sweeps == 0,
{
    if batch.touched_tiles.len() > 0 {
        let tile = batch.touched_tiles[0];
        assert(stroke.emptied().damage.contains_key(tile.coord));
    }
}

/// There is only one list of some damage.
pub proof fn law_damage_has_one_list(
    first: Seq<StrokeTileDamage>,
    second: Seq<StrokeTileDamage>,
    damage: Map<TileCoord, Rect>,
)
    requires
        lists_damage(first, damage),
        lists_damage(second, damage),
    ensures
        first.len() == second.len(),
        forall|i: int|
            #![trigger first[i]]
            0 <= i < first.len() ==> first[i].coord == second[i].coord
                && first[i].local_damage@ == second[i].local_damage@,
    decreases first.len(),
{
    if first.len() == 0 {
        if second.len() > 0 {
            assert(damage.contains_key(second[0].coord));
        }
    } else {
        assert(damage.contains_key(first.last().coord)) by {
            assert(damage.contains_key(first[first.len() - 1].coord));
        }
        let j = choose|j: int|
            0 <= j < second.len() && (#[trigger] second[j]).coord == first.last().coord;
        assert(damage.contains_key(second[second.len() - 1].coord));
        let i = choose|i: int|
            0 <= i < first.len() && (#[trigger] first[i]).coord == second.last().coord;
        assert(second.last().coord == first.last().coord) by {
            if j < second.len() - 1 {
                assert(second[j].coord.le(second[second.len() - 1].coord));
                assert(i < first.len() - 1);
                assert(first[i].coord.le(first[first.len() - 1].coord));
            }
        }
        let tile = first.last().coord;
        let rest = damage.remove(tile);
        lemma_shorter_list(first, damage);
        lemma_shorter_list(second, damage);
        law_damage_has_one_list(first.drop_last(), second.drop_last(), rest);
        assert forall|i: int|
            #![trigger first[i]]
            0 <= i < first.len() implies first[i].coord == second[i].coord
            && first[i].local_damage@ == second[i].local_damage@ by {
            if i < first.len() - 1 {
                assert(first.drop_last()[i] == first[i]);
                assert(second.drop_last()[i] == second[i]);
            } else {
                assert(damage[first[i].coord] == first[i].local_damage@);
                assert(damage[second[second.len() - 1].coord] == second[second.len()
                    - 1].local_damage@);
            }
        }
    }
}

proof fn lemma_shorter_list(tiles: Seq<StrokeTileDamage>, damage: Map<TileCoord, Rect>)
    requires
        lists_damage(tiles, damage),
        tiles.len() > 0,
    ensures
        lists_damage(tiles.drop_last(), damage.remove(tiles.last().coord)),
{
    let rest = tiles.drop_last();
    let last = tiles.len() - 1;
    let left = damage.remove(tiles.last().coord);
    assert forall|i: int, j: int|
        #![trigger rest[i], rest[j]]
        0 <= i < j < rest.len() implies rest[i].coord.le(rest[j].coord) && rest[i].coord
        != rest[j].coord by {
        assert(tiles[i].coord.le(tiles[j].coord));
    }
    assert forall|i: int|
        #![trigger rest[i]]
        0 <= i < rest.len() implies left.contains_key(rest[i].coord) && left[rest[i].coord]
        == rest[i].local_damage@ by {
        assert(tiles[i].coord.le(tiles[last].coord));
        assert(damage.contains_key(tiles[i].coord));
    }
    assert forall|tile: TileCoord| #[trigger] left.contains_key(tile) implies exists|i: int|
        0 <= i < rest.len() && (#[trigger] rest[i]).coord == tile by {
        assert(damage.contains_key(tile));
        let i = choose|i: int| 0 <= i < tiles.len() && (#[trigger] tiles[i]).coord == tile;
        assert(i < last);
        assert(rest[i].coord == tile);
    }
}

} // verus!
