//! Round strokes that can be painted once more.

use crate::document::LayerId;
use crate::gpu_raster_replay::pixel_rect;
use crate::pixel_grid::{grid_index, lemma_grid_index, minimum};
use crate::raster::{damage_add, Damage, LinearRgba, Rect, RectU32, TileCoord};
use crate::raster_layer::{
    pixel_at, with_pixel, GestureId, GestureModel, RasterError, RasterGeometry, RasterLayer,
    RasterModel,
};
use crate::stroke::{
    follow_path, path_run, RoundBrushRecipeV1, RoundPathCommand, StrokeAccumulation, StrokeError,
};
use vstd::layout::size_of;
use vstd::prelude::*;

verus! {

/// What a command holds besides its path: its layer and recipe, where the path lies, and what it
/// counts for.
pub type RoundCommandHeader = (LayerId, RoundBrushRecipeV1, &'static [u8], u64);

#[derive(Clone, Copy, Debug, PartialEq, Eq, Structural)]
pub enum GpuRoundRecoveryBuildError {
    EmptyPath,
    NoEffect,
    UnsupportedFlow(u32),
    IncompletePath,
    TimestampMovedBackward,
    ByteCountOverflow,
    Stroke(StrokeError),
}

impl From<StrokeError> for GpuRoundRecoveryBuildError {
    fn from(error: StrokeError) -> (converted: Self) {
        GpuRoundRecoveryBuildError::Stroke(error)
    }
}

impl vstd::std_specs::convert::FromSpecImpl<StrokeError> for GpuRoundRecoveryBuildError {
    open spec fn obeys_from_spec() -> bool {
        true
    }

    open spec fn from_spec(error: StrokeError) -> Self {
        GpuRoundRecoveryBuildError::Stroke(error)
    }
}

/// Why a command was not built, with the path.
#[derive(Debug)]
pub struct GpuRoundRecoveryBuildFailure {
    pub error: GpuRoundRecoveryBuildError,
    pub commands: Vec<RoundPathCommand>,
}

#[derive(Clone, Copy, Debug, PartialEq, Eq, Structural)]
pub enum GpuRoundRecoveryReplayError {
    Stroke(StrokeError),
    Raster(RasterError),
}

impl From<StrokeError> for GpuRoundRecoveryReplayError {
    fn from(error: StrokeError) -> (converted: Self) {
        GpuRoundRecoveryReplayError::Stroke(error)
    }
}

impl vstd::std_specs::convert::FromSpecImpl<StrokeError> for GpuRoundRecoveryReplayError {
    open spec fn obeys_from_spec() -> bool {
        true
    }

    open spec fn from_spec(error: StrokeError) -> Self {
        GpuRoundRecoveryReplayError::Stroke(error)
    }
}

impl From<RasterError> for GpuRoundRecoveryReplayError {
    fn from(error: RasterError) -> (converted: Self) {
        GpuRoundRecoveryReplayError::Raster(error)
    }
}

impl vstd::std_specs::convert::FromSpecImpl<RasterError> for GpuRoundRecoveryReplayError {
    open spec fn obeys_from_spec() -> bool {
        true
    }

    open spec fn from_spec(error: RasterError) -> Self {
        GpuRoundRecoveryReplayError::Raster(error)
    }
}

/// A complete stroke of a round brush on one layer.
#[derive(Clone, Debug, PartialEq)]
pub struct GpuRoundRecoveryCommand {
    pub(crate) layer: LayerId,
    pub(crate) recipe: RoundBrushRecipeV1,
    pub(crate) commands: Vec<RoundPathCommand>,
    pub(crate) retained_byte_len: u64,
}

pub struct RoundCommandModel {
    pub layer: LayerId,
    pub recipe: RoundBrushRecipeV1,
    pub commands: Seq<RoundPathCommand>,
}

/// When a step of a path begins and when it ends.
pub open spec fn step_times(command: RoundPathCommand) -> (u64, u64) {
    match command {
        RoundPathCommand::Begin(contact) => (contact.elapsed_micros, contact.elapsed_micros),
        RoundPathCommand::Sweep { from, to } => (from.elapsed_micros, to.elapsed_micros),
        RoundPathCommand::End { at, elapsed_micros } => (at.elapsed_micros, elapsed_micros),
    }
}

/// No step ends before it begins, nor begins before the one ahead of it ended.
pub open spec fn times_in_order(commands: Seq<RoundPathCommand>) -> bool {
    &&& forall|i: int|
        #![trigger commands[i]]
        0 <= i < commands.len() ==> step_times(commands[i]).0 <= step_times(commands[i]).1
    &&& forall|i: int|
        #![trigger commands[i]]
        0 < i < commands.len() ==> step_times(commands[i - 1]).1 <= step_times(commands[i]).0
}

/// What the two counters of a shared allocation count for, in bytes.
pub open spec fn shared_allocation_counter_bytes() -> int {
    2 * size_of::<usize>() as int
}

/// The header of a command counts for part of it.
pub(crate) proof fn lemma_header_counted(commands: Seq<RoundPathCommand>)
    ensures
        round_byte_len(commands) >= size_of::<RoundCommandHeader>(),
        commands.len() * size_of::<RoundPathCommand>() >= 0,
{
    let count = commands.len() as int;
    let size = size_of::<RoundPathCommand>() as int;
    assert(count * size >= 0) by (nonlinear_arith)
        requires
            count >= 0,
            size >= 0,
    ;
}

pub open spec fn round_byte_len(commands: Seq<RoundPathCommand>) -> int {
    size_of::<RoundCommandHeader>() + shared_allocation_counter_bytes() + commands.len()
        * size_of::<RoundPathCommand>()
}

/// Why a stroke makes no command, if it makes none.
pub open spec fn round_build_error(
    recipe: RoundBrushRecipeV1,
    commands: Seq<RoundPathCommand>,
) -> Option<GpuRoundRecoveryBuildError> {
    if commands.len() == 0 {
        Some(GpuRoundRecoveryBuildError::EmptyPath)
    } else {
        match recipe@.material.accumulation() {
            StrokeAccumulation::NoEffect => Some(GpuRoundRecoveryBuildError::NoEffect),
            StrokeAccumulation::OpticalDensity { flow } => Some(
                GpuRoundRecoveryBuildError::UnsupportedFlow(flow),
            ),
            StrokeAccumulation::CoverageUnion => match path_run(None, commands) {
                Err(error) => Some(GpuRoundRecoveryBuildError::Stroke(error)),
                Ok(reached) => if reached is Some {
                    Some(GpuRoundRecoveryBuildError::IncompletePath)
                } else if !times_in_order(commands) {
                    Some(GpuRoundRecoveryBuildError::TimestampMovedBackward)
                } else if round_byte_len(commands) > u64::MAX {
                    Some(GpuRoundRecoveryBuildError::ByteCountOverflow)
                } else {
                    None
                },
            },
        }
    }
}

impl View for GpuRoundRecoveryCommand {
    type V = RoundCommandModel;

    open(crate) spec fn view(&self) -> RoundCommandModel {
        RoundCommandModel {
            layer: self.layer,
            recipe: self.recipe,
            commands: self.commands@,
        }
    }
}

fn times_of(command: RoundPathCommand) -> (times: (u64, u64))
    ensures
        times == step_times(command),
{
    match command {
        RoundPathCommand::Begin(contact) => (contact.elapsed_micros, contact.elapsed_micros),
        RoundPathCommand::Sweep { from, to } => (from.elapsed_micros, to.elapsed_micros),
        RoundPathCommand::End { at, elapsed_micros } => (at.elapsed_micros, elapsed_micros),
    }
}

fn timestamps_are_monotonic(commands: &Vec<RoundPathCommand>) -> (monotonic: bool)
    ensures
        monotonic == times_in_order(commands@),
{
    let mut i: usize = 0;
    while i < commands.len()
        invariant
            i <= commands@.len(),
            forall|k: int|
                #![trigger commands@[k]]
                0 <= k < i ==> step_times(commands@[k]).0 <= step_times(commands@[k]).1,
            forall|k: int|
                #![trigger commands@[k]]
                0 < k < i ==> step_times(commands@[k - 1]).1 <= step_times(commands@[k]).0,
        decreases commands@.len() - i,
    {
        let (first, last): (u64, u64) = times_of(commands[i]);
        if last < first {
            return false;
        }
        if i > 0 {
            let (_, previous): (u64, u64) = times_of(commands[i - 1]);
            if first < previous {
                assert(step_times(commands@[i as int - 1]).1 > step_times(commands@[i as int]).0);
                return false;
            }
        }
        i += 1;
    }
    true
}

fn count_bytes(commands: &Vec<RoundPathCommand>) -> (len: Option<u64>)
    ensures
        match len {
            Some(len) => len == round_byte_len(commands@),
            None => round_byte_len(commands@) > u64::MAX,
        },
{
    broadcast use vstd::layout::group_layout_axioms;

    let command_size: u64 = core::mem::size_of::<RoundCommandHeader>() as u64;
    let step_size: u64 = core::mem::size_of::<RoundPathCommand>() as u64;
    let word_size: u64 = core::mem::size_of::<usize>() as u64;
    proof {
        lemma_header_counted(commands@);
    }
    let path_bytes = match (commands.len() as u64).checked_mul(step_size) {
        Some(bytes) => bytes,
        None => {
            return None;
        },
    };
    let base = match command_size.checked_add(2 * word_size) {
        Some(bytes) => bytes,
        None => {
            return None;
        },
    };
    base.checked_add(path_bytes)
}

impl GpuRoundRecoveryCommand {
    pub open(crate) spec fn wf(self) -> bool {
        &&& round_build_error(self@.recipe, self@.commands) is None
        &&& self.retained_byte_len == round_byte_len(self@.commands)
    }

    pub fn new(
        layer: LayerId,
        recipe: RoundBrushRecipeV1,
        commands: Vec<RoundPathCommand>,
    ) -> (command: Result<GpuRoundRecoveryCommand, Box<GpuRoundRecoveryBuildFailure>>)
        ensures
            match command {
                Ok(command) => {
                    &&& round_build_error(recipe, commands@) is None
                    &&& command.wf()
                    &&& command@ == (RoundCommandModel { layer, recipe, commands: commands@ })
                },
                Err(failure) => {
                    &&& round_build_error(recipe, commands@) == Some(failure.error)
                    &&& failure.commands == commands
                },
            },
    {
        if commands.len() == 0 {
            return Err(
                Box::new(
                    GpuRoundRecoveryBuildFailure {
                        error: GpuRoundRecoveryBuildError::EmptyPath,
                        commands,
                    },
                ),
            );
        }
        match recipe.material().accumulation() {
            StrokeAccumulation::NoEffect => {
                return Err(
                    Box::new(
                        GpuRoundRecoveryBuildFailure {
                            error: GpuRoundRecoveryBuildError::NoEffect,
                            commands,
                        },
                    ),
                );
            },
            StrokeAccumulation::CoverageUnion => {},
            StrokeAccumulation::OpticalDensity { flow } => {
                return Err(
                    Box::new(
                        GpuRoundRecoveryBuildFailure {
                            error: GpuRoundRecoveryBuildError::UnsupportedFlow(flow),
                            commands,
                        },
                    ),
                );
            },
        }
        match follow_path(None, &commands) {
            Ok(reached) => {
                if reached.is_some() {
                    return Err(
                        Box::new(
                            GpuRoundRecoveryBuildFailure {
                                error: GpuRoundRecoveryBuildError::IncompletePath,
                                commands,
                            },
                        ),
                    );
                }
            },
            Err(error) => {
                return Err(
                    Box::new(
                        GpuRoundRecoveryBuildFailure {
                            error: GpuRoundRecoveryBuildError::Stroke(error),
                            commands,
                        },
                    ),
                );
            },
        }
        if !timestamps_are_monotonic(&commands) {
            return Err(
                Box::new(
                    GpuRoundRecoveryBuildFailure {
                        error: GpuRoundRecoveryBuildError::TimestampMovedBackward,
                        commands,
                    },
                ),
            );
        }
        let retained_byte_len = match count_bytes(&commands) {
            Some(retained_byte_len) => retained_byte_len,
            None => {
                return Err(
                    Box::new(
                        GpuRoundRecoveryBuildFailure {
                            error: GpuRoundRecoveryBuildError::ByteCountOverflow,
                            commands,
                        },
                    ),
                );
            },
        };
        Ok(GpuRoundRecoveryCommand { layer, recipe, commands, retained_byte_len })
    }

    pub fn layer(&self) -> (layer: LayerId)
        ensures
            layer == self@.layer,
    {
        self.layer
    }

    pub fn recipe(&self) -> (recipe: RoundBrushRecipeV1)
        ensures
            recipe == self@.recipe,
    {
        self.recipe
    }

    pub fn commands(&self) -> (commands: &Vec<RoundPathCommand>)
        ensures
            commands@ == self@.commands,
    {
        &self.commands
    }

    pub fn retained_byte_len(&self) -> (len: u64)
        requires
            self.wf(),
        ensures
            len == round_byte_len(self@.commands),
    {
        self.retained_byte_len
    }

    /// A second command with the same stroke.
    pub fn duplicate(&self) -> (copy: GpuRoundRecoveryCommand)
        ensures
            copy@ == self@,
            self.wf() ==> copy.wf(),
    {
        let mut commands: Vec<RoundPathCommand> = Vec::new();
        let mut i: usize = 0;
        while i < self.commands.len()
            invariant
                i <= self.commands@.len(),
                commands@ == self.commands@.subrange(0, i as int),
            decreases self.commands@.len() - i,
        {
            commands.push(self.commands[i]);
            assert(commands@ =~= self.commands@.subrange(0, i as int + 1));
            i += 1;
        }
        assert(commands@ =~= self.commands@);
        GpuRoundRecoveryCommand {
            layer: self.layer,
            recipe: self.recipe,
            commands,
            retained_byte_len: self.retained_byte_len,
        }
    }
}

/// What a stroke makes of one pixel.
#[derive(Clone, Copy, Debug, PartialEq, Eq, Structural)]
pub enum RoundPixelOutcome {
    /// The stroke does not reach the pixel.
    Untouched,
    Paint(LinearRgba),
    Failed(StrokeError),
}

/// What a stroke makes of the pixels around it, row by row.
#[derive(Clone, Debug, PartialEq)]
pub struct RoundEvaluation {
    pub bounds: Option<RectU32>,
    pub outcomes: Vec<RoundPixelOutcome>,
}

/// There is one outcome for each pixel, and all pixels lie on the canvas.
pub open spec fn evaluation_fits(geometry: RasterGeometry, evaluation: RoundEvaluation) -> bool {
    match evaluation.bounds {
        Some(bounds) => {
            &&& bounds@.nonempty()
            &&& 0 <= bounds@.min_x
            &&& 0 <= bounds@.min_y
            &&& bounds@.max_x <= geometry.width
            &&& bounds@.max_y <= geometry.height
            &&& evaluation.outcomes@.len() == bounds@.area()
        },
        None => evaluation.outcomes@.len() == 0,
    }
}

pub struct RoundReplayState {
    pub tiles: Map<TileCoord, Seq<LinearRgba>>,
    pub damage: Map<TileCoord, Rect>,
    pub pixels_changed: int,
}

/// What one outcome does. A pixel that keeps its bits counts as unchanged.
pub open spec fn round_step(
    geometry: RasterGeometry,
    state: RoundReplayState,
    x: int,
    y: int,
    outcome: RoundPixelOutcome,
) -> RoundReplayState {
    match outcome {
        RoundPixelOutcome::Paint(color) => if pixel_at(geometry, state.tiles, x, y) != color {
            RoundReplayState {
                tiles: with_pixel(geometry, state.tiles, x, y, color),
                damage: damage_add(state.damage, geometry.tile_of(x, y), pixel_rect(x, y)),
                pixels_changed: state.pixels_changed + 1,
            }
        } else {
            state
        },
        _ => state,
    }
}

/// What the first `n` outcomes do.
pub open spec fn round_pixels(
    geometry: RasterGeometry,
    tiles: Map<TileCoord, Seq<LinearRgba>>,
    bounds: Rect,
    outcomes: Seq<RoundPixelOutcome>,
    n: int,
) -> RoundReplayState
    decreases n,
{
    if n <= 0 {
        RoundReplayState { tiles, damage: Map::empty(), pixels_changed: 0 }
    } else {
        round_step(
            geometry,
            round_pixels(geometry, tiles, bounds, outcomes, n - 1),
            bounds.min_x + (n - 1) % bounds.width(),
            bounds.min_y + (n - 1) / bounds.width(),
            outcomes[n - 1],
        )
    }
}

/// The first failure among the first `n` outcomes.
pub open spec fn first_failure(outcomes: Seq<RoundPixelOutcome>, n: int) -> Option<StrokeError>
    decreases n,
{
    if n <= 0 {
        None
    } else {
        match first_failure(outcomes, n - 1) {
            Some(error) => Some(error),
            None => match outcomes[n - 1] {
                RoundPixelOutcome::Failed(error) => Some(error),
                _ => None,
            },
        }
    }
}

/// What all outcomes of an evaluation do.
pub open spec fn round_replayed(
    geometry: RasterGeometry,
    tiles: Map<TileCoord, Seq<LinearRgba>>,
    evaluation: RoundEvaluation,
) -> RoundReplayState {
    match evaluation.bounds {
        Some(bounds) => round_pixels(
            geometry,
            tiles,
            bounds@,
            evaluation.outcomes@,
            evaluation.outcomes@.len() as int,
        ),
        None => RoundReplayState { tiles, damage: Map::empty(), pixels_changed: 0 },
    }
}

/// Why a stroke is not replayed, if it is not.
pub open spec fn round_replay_error(model: RasterModel, evaluation: RoundEvaluation) -> Option<
    GpuRoundRecoveryReplayError,
> {
    if model.gesture is Some {
        Some(GpuRoundRecoveryReplayError::Raster(RasterError::GestureActive))
    } else if model.next_gesture == u64::MAX {
        Some(GpuRoundRecoveryReplayError::Raster(RasterError::GestureIdsExhausted))
    } else {
        match first_failure(evaluation.outcomes@, evaluation.outcomes@.len() as int) {
            Some(error) => Some(GpuRoundRecoveryReplayError::Stroke(error)),
            None => None,
        }
    }
}

/// The layer after a replay, whether it went through or was taken back.
pub open spec fn round_replay_model(model: RasterModel, evaluation: RoundEvaluation) -> RasterModel {
    match round_replay_error(model, evaluation) {
        Some(GpuRoundRecoveryReplayError::Raster(_)) => model,
        Some(GpuRoundRecoveryReplayError::Stroke(_)) => RasterModel {
            next_gesture: (model.next_gesture + 1) as u64,
            ..model
        },
        None => {
            let state = round_replayed(model.geometry, model.tiles, evaluation);
            RasterModel {
                tiles: state.tiles,
                next_gesture: (model.next_gesture + 1) as u64,
                undo_depth: if state.damage == Map::<TileCoord, Rect>::empty() {
                    model.undo_depth
                } else {
                    model.undo_depth + 1
                },
                ..model
            }
        },
    }
}

proof fn lemma_failure_stays(outcomes: Seq<RoundPixelOutcome>, at: int, n: int)
    requires
        0 <= at <= n,
        first_failure(outcomes, at) is Some,
    ensures
        first_failure(outcomes, n) == first_failure(outcomes, at),
    decreases n - at,
{
    if at < n {
        lemma_failure_stays(outcomes, at, n - 1);
    }
}

#[derive(Debug)]
pub struct GpuRoundRecoveryReplay {
    pub damage: Option<Damage>,
    pub pixels_evaluated: u64,
    pub pixels_changed: u64,
}

/// Paints the outcomes. Stops at the first failure.
fn paint_outcomes(
    layer: &mut RasterLayer,
    gesture: GestureId,
    bounds: RectU32,
    outcomes: &Vec<RoundPixelOutcome>,
) -> (changed: Result<u64, StrokeError>)
    requires
        old(layer).wf(),
        bounds@.max_x <= old(layer)@.geometry.width,
        bounds@.max_y <= old(layer)@.geometry.height,
        outcomes@.len() == bounds@.area(),
        old(layer)@.gesture matches Some(active) && active.id == gesture && active.damage
            == Map::<TileCoord, Rect>::empty(),
    ensures
        final(layer).wf(),
        final(layer)@.gesture matches Some(active) && active.id == gesture && active.before == (old(
            layer,
        )@.gesture->0).before,
        match changed {
            Ok(changed) => {
                let model = old(layer)@;
                let state = round_pixels(
                    model.geometry,
                    model.tiles,
                    bounds@,
                    outcomes@,
                    outcomes@.len() as int,
                );
                &&& first_failure(outcomes@, outcomes@.len() as int) is None
                &&& changed == minimum(state.pixels_changed, u64::MAX as int)
                &&& final(layer)@ == (RasterModel {
                    tiles: state.tiles,
                    gesture: Some(
                        GestureModel { damage: state.damage, ..old(layer)@.gesture->0 },
                    ),
                    ..model
                })
            },
            Err(error) => {
                &&& first_failure(outcomes@, outcomes@.len() as int) == Some(error)
                &&& final(layer)@ == (RasterModel {
                    tiles: final(layer)@.tiles,
                    gesture: final(layer)@.gesture,
                    ..old(layer)@
                })
            },
        },
{
    let ghost model = layer@;
    let ghost active = model.gesture->0;
    let ghost width = bounds@.width();
    let ghost area = outcomes@.len() as int;
    let ghost end = bounds@;
    let min_x: u32 = bounds.min_x();
    let max_x: u32 = bounds.max_x();
    let min_y: u32 = bounds.min_y();
    let max_y: u32 = bounds.max_y();
    let columns: u32 = bounds.width();
    let total: usize = outcomes.len();
    let mut changed: u64 = 0;
    let mut x: u32 = min_x;
    let mut y: u32 = min_y;
    let mut i: usize = 0;
    while i < total
        invariant
            layer.wf(),
            model == old(layer)@,
            total == outcomes@.len(),
            area == outcomes@.len(),
            end == bounds@,
            end.nonempty(),
            width == columns,
            width == end.width(),
            area == end.area(),
            min_x == end.min_x,
            max_x == end.max_x,
            min_y == end.min_y,
            max_y == end.max_y,
            end.max_x <= model.geometry.width,
            end.max_y <= model.geometry.height,
            i <= total,
            min_x <= x < max_x,
            y >= min_y,
            i == grid_index(width, x - min_x, y - min_y),
            active == model.gesture->0,
            model.gesture is Some,
            active.id == gesture,
            first_failure(outcomes@, i as int) is None,
            ({
                let state = round_pixels(model.geometry, model.tiles, end, outcomes@, i as int);
                &&& changed == minimum(state.pixels_changed, u64::MAX as int)
                &&& layer@ == (RasterModel {
                    tiles: state.tiles,
                    gesture: Some(GestureModel { damage: state.damage, ..active }),
                    ..model
                })
            }),
        decreases total - i,
    {
        proof {
            lemma_grid_index(width, x - min_x, y - min_y);
            assert(y < max_y) by (nonlinear_arith)
                requires
                    (y - min_y) * width + (x - min_x) < width * (max_y - min_y),
                    x >= min_x,
                    width > 0,
            ;
        }
        match outcomes[i] {
            RoundPixelOutcome::Paint(color) => {
                match layer.set_pixel(gesture, x, y, color) {
                    Ok(painted) => {
                        if painted {
                            changed = changed.saturating_add(1);
                        }
                    },
                    Err(_) => {},
                }
            },
            RoundPixelOutcome::Untouched => {},
            RoundPixelOutcome::Failed(error) => {
                proof {
                    lemma_failure_stays(outcomes@, i as int + 1, area);
                }
                return Err(error);
            },
        }
        i += 1;
        proof {
            assert((y + 1 - min_y) * width == (y - min_y) * width + width) by (nonlinear_arith);
        }
        if x + 1 < max_x {
            x += 1;
        } else {
            x = min_x;
            y += 1;
        }
    }
    Ok(changed)
}

/// Paints what a stroke makes of its pixels. Where a pixel fails, the layer keeps
/// its pixels.
pub fn apply_round_evaluation(
    layer: &mut RasterLayer,
    evaluation: &RoundEvaluation,
) -> (replay: Result<GpuRoundRecoveryReplay, GpuRoundRecoveryReplayError>)
    requires
        old(layer).wf(),
        evaluation_fits(old(layer)@.geometry, *evaluation),
    ensures
        final(layer).wf(),
        final(layer)@ == round_replay_model(old(layer)@, *evaluation),
        round_replay_reported(old(layer)@, *evaluation, replay),
{
    let ghost model = layer@;
    let gesture = match layer.begin_gesture() {
        Ok(gesture) => gesture,
        Err(error) => {
            return Err(GpuRoundRecoveryReplayError::Raster(error));
        },
    };
    let pixels_evaluated: u64 = evaluation.outcomes.len() as u64;
    let painted = match evaluation.bounds {
        Some(bounds) => paint_outcomes(layer, gesture, bounds, &evaluation.outcomes),
        None => Ok(0),
    };
    match painted {
        Ok(pixels_changed) => match layer.commit_gesture(gesture) {
            Ok(damage) => Ok(
                GpuRoundRecoveryReplay { damage, pixels_evaluated, pixels_changed },
            ),
            Err(error) => Err(GpuRoundRecoveryReplayError::Raster(error)),
        },
        Err(error) => {
            match layer.cancel_gesture(gesture) {
                Ok(_) => {},
                Err(_) => {},
            }
            Err(GpuRoundRecoveryReplayError::Stroke(error))
        },
    }
}

/// What a replay reports of a layer, for one evaluation of the stroke.
pub open spec fn round_replay_reported(
    model: RasterModel,
    evaluation: RoundEvaluation,
    replay: Result<GpuRoundRecoveryReplay, GpuRoundRecoveryReplayError>,
) -> bool {
    match replay {
        Ok(replay) => {
            let state = round_replayed(model.geometry, model.tiles, evaluation);
            &&& round_replay_error(model, evaluation) is None
            &&& replay.pixels_evaluated == evaluation.outcomes@.len()
            &&& replay.pixels_changed == minimum(state.pixels_changed, u64::MAX as int)
            &&& match replay.damage {
                Some(damage) => damage.wf() && damage@ == state.damage && state.damage
                    != Map::<TileCoord, Rect>::empty(),
                None => state.damage == Map::<TileCoord, Rect>::empty(),
            }
        },
        Err(error) => round_replay_error(model, evaluation) == Some(error),
    }
}

/// Whether every answer to the question what a stroke makes of a layer can be painted.
pub open spec fn evaluator_fits<F: Fn(&GpuRoundRecoveryCommand, &RasterLayer) -> RoundEvaluation>(
    evaluate: F,
) -> bool {
    &&& forall|command: &GpuRoundRecoveryCommand, layer: &RasterLayer| #[trigger]
        call_requires(evaluate, (command, layer))
    &&& forall|
        command: &GpuRoundRecoveryCommand,
        layer: &RasterLayer,
        evaluation: RoundEvaluation,
    | #[trigger]
        call_ensures(evaluate, (command, layer), evaluation) ==> evaluation_fits(
            layer@.geometry,
            evaluation,
        )
}

/// Paints a stroke once more. What it makes of the pixels is asked of `evaluate`.
pub fn replay_round_recovery_command<
    F: Fn(&GpuRoundRecoveryCommand, &RasterLayer) -> RoundEvaluation,
>(layer: &mut RasterLayer, command: &GpuRoundRecoveryCommand, evaluate: &F) -> (replay: Result<
    GpuRoundRecoveryReplay,
    GpuRoundRecoveryReplayError,
>)
    requires
        old(layer).wf(),
        evaluator_fits(*evaluate),
    ensures
        final(layer).wf(),
        exists|evaluation: RoundEvaluation|
            {
                &&& #[trigger] call_ensures(*evaluate, (command, &*old(layer)), evaluation)
                &&& evaluation_fits(old(layer)@.geometry, evaluation)
                &&& final(layer)@ == round_replay_model(old(layer)@, evaluation)
                &&& round_replay_reported(old(layer)@, evaluation, replay)
            },
{
    let evaluation = evaluate(command, &*layer);
    apply_round_evaluation(layer, &evaluation)
}

} // verus!
