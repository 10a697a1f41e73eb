//! Rebuilding the pixels of a layer from a base and the commands since then.

use crate::document::{DocumentRevision, LayerId};
use crate::gpu_cpu_mirror::{colored_tiles, layer_tiles, MirrorModel};
use crate::gpu_layer_recovery::{
    layer_replay_error, replay_exact_layer_recovery_command, restored_layer,
    GpuExactLayerRecoveryCommand, GpuExactLayerRecoveryReplayError, LayerCommandHeader,
};
use crate::gpu_raster_recovery::{ExactCommandHeader, GpuExactRasterRecoveryCommand};
use crate::gpu_raster_replay::{
    exact_replay_error, replay_exact_raster_recovery_command, replay_tiles,
    GpuExactRasterRecoveryReplayError,
};
use crate::gpu_recovery_journal::RecordModel;
use crate::gpu_recovery_timeline::GpuRecoveryTimelineSnapshot;
use crate::gpu_round_recovery::{
    evaluation_fits, evaluator_fits, replay_round_recovery_command, round_byte_len,
    round_replay_error, round_replay_model, round_replay_reported, round_replayed,
    GpuRoundRecoveryCommand, GpuRoundRecoveryReplayError, RoundCommandHeader, RoundEvaluation,
};
use crate::pixel_grid::minimum;
use crate::raster::{damage_merge, Damage, Rect, TileCoord};
use crate::raster_layer::{RasterError, RasterLayer, RasterModel};
use crate::{gpu_layer_recovery, gpu_round_recovery};
use vstd::layout::size_of;
use vstd::prelude::*;

verus! {

/// What any command holds by itself.
pub enum RasterCommandHeader {
    Round(RoundCommandHeader),
    Exact(ExactCommandHeader),
    Layer(LayerCommandHeader),
    AwaitingPixels(LayerId),
    MetadataOnly,
}

/// One change of the document, as far as its pixels go.
#[derive(Clone, Debug, PartialEq)]
pub enum GpuRasterRecoveryCommand {
    Round(GpuRoundRecoveryCommand),
    Exact(GpuExactRasterRecoveryCommand),
    Layer(GpuExactLayerRecoveryCommand),
    /// Pixels of the layer changed and have not been read back.
    AwaitingPixels(LayerId),
    MetadataOnly,
}

/// The layer whose pixels a command changes.
pub open(crate) spec fn command_layer(command: GpuRasterRecoveryCommand) -> Option<LayerId> {
    match command {
        GpuRasterRecoveryCommand::Round(command) => Some(command@.layer),
        GpuRasterRecoveryCommand::Exact(command) => Some(command@.layer),
        GpuRasterRecoveryCommand::Layer(command) => Some(command@.layer),
        GpuRasterRecoveryCommand::AwaitingPixels(layer) => Some(layer),
        GpuRasterRecoveryCommand::MetadataOnly => None,
    }
}

/// What a command counts for besides itself.
pub open(crate) spec fn owned_byte_len(command: GpuRasterRecoveryCommand) -> int {
    match command {
        GpuRasterRecoveryCommand::Round(command) => round_byte_len(command@.commands) - size_of::<
            RoundCommandHeader,
        >(),
        GpuRasterRecoveryCommand::Exact(command) => command@.retained_byte_len - size_of::<
            ExactCommandHeader,
        >(),
        GpuRasterRecoveryCommand::Layer(command) => command@.byte_len() - size_of::<
            LayerCommandHeader,
        >(),
        GpuRasterRecoveryCommand::AwaitingPixels(_) => 0,
        GpuRasterRecoveryCommand::MetadataOnly => 0,
    }
}

/// What a command counts for: what it holds, and itself once. What is too much to count counts for
/// the greatest number.
pub open(crate) spec fn command_byte_len(command: GpuRasterRecoveryCommand) -> int {
    minimum(owned_byte_len(command) + size_of::<RasterCommandHeader>(), u64::MAX as int)
}

impl GpuRasterRecoveryCommand {
    pub open(crate) spec fn wf(self) -> bool {
        match self {
            GpuRasterRecoveryCommand::Round(command) => command.wf(),
            GpuRasterRecoveryCommand::Exact(command) => command.wf(),
            GpuRasterRecoveryCommand::Layer(command) => command.wf(),
            GpuRasterRecoveryCommand::AwaitingPixels(_) => true,
            GpuRasterRecoveryCommand::MetadataOnly => true,
        }
    }

    /// The layer whose pixels the command changes.
    pub fn layer(&self) -> (layer: Option<LayerId>)
        ensures
            layer == command_layer(*self),
    {
        match self {
            GpuRasterRecoveryCommand::Round(command) => Some(command.layer()),
            GpuRasterRecoveryCommand::Exact(command) => Some(command.layer()),
            GpuRasterRecoveryCommand::Layer(command) => Some(command.layer()),
            GpuRasterRecoveryCommand::AwaitingPixels(layer) => Some(*layer),
            GpuRasterRecoveryCommand::MetadataOnly => None,
        }
    }

    pub fn retained_byte_len(&self) -> (len: u64)
        requires
            self.wf(),
        ensures
            len == command_byte_len(*self),
    {
        let own: u64 = core::mem::size_of::<RasterCommandHeader>() as u64;
        let owned: u64 = match self {
            GpuRasterRecoveryCommand::Round(command) => {
                proof {
                    gpu_round_recovery::lemma_header_counted(command@.commands);
                }
                command.retained_byte_len() - core::mem::size_of::<RoundCommandHeader>() as u64
            },
            GpuRasterRecoveryCommand::Exact(command) => command.retained_byte_len()
                - core::mem::size_of::<ExactCommandHeader>() as u64,
            GpuRasterRecoveryCommand::Layer(command) => {
                proof {
                    let len = command@.geometry.tile_len();
                    assert(len >= 0) by (nonlinear_arith)
                        requires
                            len == command@.geometry.tile_size * command@.geometry.tile_size,
                    ;
                    gpu_layer_recovery::lemma_header_counted(command@.tiles.len() as int, len);
                }
                command.retained_byte_len() - core::mem::size_of::<LayerCommandHeader>() as u64
            },
            GpuRasterRecoveryCommand::AwaitingPixels(_) => 0,
            GpuRasterRecoveryCommand::MetadataOnly => 0,
        };
        owned.saturating_add(own)
    }
}

impl From<GpuRoundRecoveryCommand> for GpuRasterRecoveryCommand {
    fn from(command: GpuRoundRecoveryCommand) -> (converted: Self) {
        GpuRasterRecoveryCommand::Round(command)
    }
}

impl vstd::std_specs::convert::FromSpecImpl<GpuRoundRecoveryCommand> for GpuRasterRecoveryCommand {
    open spec fn obeys_from_spec() -> bool {
        true
    }

    open spec fn from_spec(command: GpuRoundRecoveryCommand) -> Self {
        GpuRasterRecoveryCommand::Round(command)
    }
}

impl From<GpuExactRasterRecoveryCommand> for GpuRasterRecoveryCommand {
    fn from(command: GpuExactRasterRecoveryCommand) -> (converted: Self) {
        GpuRasterRecoveryCommand::Exact(command)
    }
}

impl vstd::std_specs::convert::FromSpecImpl<GpuExactRasterRecoveryCommand> for GpuRasterRecoveryCommand {
    open spec fn obeys_from_spec() -> bool {
        true
    }

    open spec fn from_spec(command: GpuExactRasterRecoveryCommand) -> Self {
        GpuRasterRecoveryCommand::Exact(command)
    }
}

impl From<GpuExactLayerRecoveryCommand> for GpuRasterRecoveryCommand {
    fn from(command: GpuExactLayerRecoveryCommand) -> (converted: Self) {
        GpuRasterRecoveryCommand::Layer(command)
    }
}

impl vstd::std_specs::convert::FromSpecImpl<GpuExactLayerRecoveryCommand> for GpuRasterRecoveryCommand {
    open spec fn obeys_from_spec() -> bool {
        true
    }

    open spec fn from_spec(command: GpuExactLayerRecoveryCommand) -> Self {
        GpuRasterRecoveryCommand::Layer(command)
    }
}

#[derive(Clone, Copy, Debug, PartialEq, Eq)]
pub enum GpuRasterRecoveryReplayError {
    Raster(RasterError),
    Round(GpuRoundRecoveryReplayError),
    Exact(GpuExactRasterRecoveryReplayError),
    Layer(GpuExactLayerRecoveryReplayError),
    AwaitingPixels(LayerId),
}

/// What a replay has done, counted without limits.
pub struct ReplayTally {
    pub damage: Map<TileCoord, Rect>,
    pub commands_applied: int,
    pub commands_skipped: int,
    pub pixels_evaluated: int,
    pub pixels_changed: int,
    pub tiles_written: int,
    pub tiles_removed: int,
    pub layer_snapshots_applied: int,
}

pub struct ReplayProgress {
    pub raster: RasterModel,
    pub tally: ReplayTally,
}

pub open spec fn empty_tally() -> ReplayTally {
    ReplayTally {
        damage: Map::empty(),
        commands_applied: 0,
        commands_skipped: 0,
        pixels_evaluated: 0,
        pixels_changed: 0,
        tiles_written: 0,
        tiles_removed: 0,
        layer_snapshots_applied: 0,
    }
}

/// The pixels that the replay of a layer starts from.
pub open spec fn base_raster(base: MirrorModel, layer: LayerId) -> RasterModel {
    RasterModel {
        geometry: base.geometry,
        tiles: colored_tiles(layer_tiles(base.tiles, layer)),
        gesture: None,
        next_gesture: 1,
        undo_depth: 0,
    }
}

/// What one command does. What a round stroke makes of its pixels is `evaluation`.
pub open(crate) spec fn replay_command(
    layer: LayerId,
    progress: ReplayProgress,
    command: GpuRasterRecoveryCommand,
    evaluation: RoundEvaluation,
) -> Result<ReplayProgress, GpuRasterRecoveryReplayError> {
    let raster = progress.raster;
    let tally = progress.tally;
    let applied = tally.commands_applied + 1;
    if command_layer(command) != Some(layer) {
        Ok(
            ReplayProgress {
                tally: ReplayTally { commands_skipped: tally.commands_skipped + 1, ..tally },
                ..progress
            },
        )
    } else {
        match command {
            GpuRasterRecoveryCommand::Round(_) => match round_replay_error(raster, evaluation) {
                Some(error) => Err(GpuRasterRecoveryReplayError::Round(error)),
                None => {
                    let state = round_replayed(raster.geometry, raster.tiles, evaluation);
                    Ok(
                        ReplayProgress {
                            raster: round_replay_model(raster, evaluation),
                            tally: ReplayTally {
                                damage: damage_merge(tally.damage, state.damage),
                                commands_applied: applied,
                                pixels_evaluated: tally.pixels_evaluated
                                    + evaluation.outcomes@.len(),
                                pixels_changed: tally.pixels_changed + minimum(
                                    state.pixels_changed,
                                    u64::MAX as int,
                                ),
                                ..tally
                            },
                        },
                    )
                },
            },
            GpuRasterRecoveryCommand::Exact(command) => match exact_replay_error(
                layer,
                raster.geometry,
                command@,
            ) {
                Some(error) => Err(GpuRasterRecoveryReplayError::Exact(error)),
                None => {
                    let state = replay_tiles(raster.geometry, raster.tiles, command@.tiles);
                    Ok(
                        ReplayProgress {
                            raster: RasterModel { tiles: state.tiles, ..raster },
                            tally: ReplayTally {
                                damage: damage_merge(tally.damage, state.damage),
                                commands_applied: applied,
                                pixels_changed: tally.pixels_changed + minimum(
                                    state.pixels_changed,
                                    u64::MAX as int,
                                ),
                                tiles_written: tally.tiles_written + minimum(
                                    state.tiles_written,
                                    u32::MAX as int,
                                ),
                                tiles_removed: tally.tiles_removed + minimum(
                                    state.tiles_removed,
                                    u32::MAX as int,
                                ),
                                ..tally
                            },
                        },
                    )
                },
            },
            GpuRasterRecoveryCommand::Layer(command) => match layer_replay_error(
                layer,
                raster,
                command@,
            ) {
                Some(error) => Err(GpuRasterRecoveryReplayError::Layer(error)),
                None => Ok(
                    ReplayProgress {
                        raster: restored_layer(command@),
                        tally: ReplayTally {
                            commands_applied: applied,
                            layer_snapshots_applied: tally.layer_snapshots_applied + 1,
                            ..tally
                        },
                    },
                ),
            },
            GpuRasterRecoveryCommand::AwaitingPixels(at) => Err(
                GpuRasterRecoveryReplayError::AwaitingPixels(at),
            ),
            GpuRasterRecoveryCommand::MetadataOnly => Ok(progress),
        }
    }
}

/// What the records do, one after the other.
pub open(crate) spec fn replay_records(
    layer: LayerId,
    start: RasterModel,
    records: Seq<RecordModel<GpuRasterRecoveryCommand>>,
    evaluations: Seq<RoundEvaluation>,
) -> Result<ReplayProgress, GpuRasterRecoveryReplayError>
    decreases records.len(),
{
    if records.len() == 0 {
        Ok(ReplayProgress { raster: start, tally: empty_tally() })
    } else {
        match replay_records(layer, start, records.drop_last(), evaluations) {
            Ok(progress) => replay_command(
                layer,
                progress,
                records.last().command,
                evaluations[records.len() - 1],
            ),
            Err(error) => Err(error),
        }
    }
}

/// Whether `evaluation` answers what a round stroke makes of such a layer.
pub open spec fn answered<F: Fn(&GpuRoundRecoveryCommand, &RasterLayer) -> RoundEvaluation>(
    evaluate: F,
    command: GpuRoundRecoveryCommand,
    raster: RasterModel,
    evaluation: RoundEvaluation,
) -> bool {
    exists|layer: RasterLayer|
        {
            &&& layer@ == raster
            &&& #[trigger] call_ensures(evaluate, (&command, &layer), evaluation)
        }
}

/// The `k`th evaluation answers what the `k`th record makes of the layer it meets,
/// for each round stroke of the layer that the replay reaches.
pub open(crate) spec fn all_answered<
    F: Fn(&GpuRoundRecoveryCommand, &RasterLayer) -> RoundEvaluation,
>(
    evaluate: F,
    layer: LayerId,
    start: RasterModel,
    records: Seq<RecordModel<GpuRasterRecoveryCommand>>,
    evaluations: Seq<RoundEvaluation>,
    n: int,
) -> bool {
    forall|k: int|
        #![trigger records[k]]
        0 <= k < n ==> match (
            records[k].command,
            replay_records(layer, start, records.subrange(0, k), evaluations),
        ) {
            (GpuRasterRecoveryCommand::Round(command), Ok(progress)) => command@.layer == layer
                ==> answered(evaluate, command, progress.raster, evaluations[k]),
            _ => true,
        }
}

#[derive(Debug)]
pub struct GpuRasterRecoveryStats {
    pub damage: Option<Damage>,
    pub commands_seen: u64,
    pub commands_applied: u64,
    pub commands_skipped: u64,
    pub pixels_evaluated: u64,
    pub pixels_changed: u64,
    pub tiles_written: u32,
    pub tiles_removed: u32,
    pub layer_snapshots_applied: u32,
}

impl GpuRasterRecoveryStats {
    /// The counts of a replay. Each stops at the largest number it can hold.
    pub open spec fn counts(self, tally: ReplayTally) -> bool {
        &&& self.commands_applied == minimum(tally.commands_applied, u64::MAX as int)
        &&& self.commands_skipped == minimum(tally.commands_skipped, u64::MAX as int)
        &&& self.pixels_evaluated == minimum(tally.pixels_evaluated, u64::MAX as int)
        &&& self.pixels_changed == minimum(tally.pixels_changed, u64::MAX as int)
        &&& self.tiles_written == minimum(tally.tiles_written, u32::MAX as int)
        &&& self.tiles_removed == minimum(tally.tiles_removed, u32::MAX as int)
        &&& self.layer_snapshots_applied == minimum(
            tally.layer_snapshots_applied,
            u32::MAX as int,
        )
    }
}

#[derive(Debug)]
pub struct GpuRecoveredRaster {
    pub(crate) revision: DocumentRevision,
    pub(crate) raster: RasterLayer,
    pub(crate) stats: GpuRasterRecoveryStats,
}

impl GpuRecoveredRaster {
    pub open(crate) spec fn wf(self) -> bool {
        &&& self.raster.wf()
        &&& self.stats.damage matches Some(damage) ==> damage.wf()
    }

    pub open(crate) spec fn spec_revision(self) -> DocumentRevision {
        self.revision
    }

    pub open(crate) spec fn spec_raster(self) -> RasterModel {
        self.raster@
    }

    pub open(crate) spec fn spec_stats(self) -> GpuRasterRecoveryStats {
        self.stats
    }

    pub fn revision(&self) -> (revision: DocumentRevision)
        ensures
            revision == self.spec_revision(),
    {
        self.revision
    }

    pub fn raster(&self) -> (raster: &RasterLayer)
        requires
            self.wf(),
        ensures
            raster.wf(),
            raster@ == self.spec_raster(),
    {
        &self.raster
    }

    pub fn into_raster(self) -> (raster: RasterLayer)
        requires
            self.wf(),
        ensures
            raster.wf(),
            raster@ == self.spec_raster(),
    {
        self.raster
    }

    pub fn stats(&self) -> (stats: &GpuRasterRecoveryStats)
        ensures
            *stats == self.spec_stats(),
    {
        &self.stats
    }
}

fn merge_damage(destination: &mut Damage, source: &Option<Damage>)
    requires
        old(destination).wf(),
        source matches Some(damage) ==> damage.wf(),
    ensures
        final(destination).wf(),
        final(destination)@ == (match source {
            Some(damage) => damage_merge(old(destination)@, damage@),
            None => old(destination)@,
        }),
{
    match source {
        Some(damage) => destination.merge(damage),
        None => {},
    }
}

/// Whether the result is that of the replay with these evaluations.
pub open(crate) spec fn replay_reported(
    layer: LayerId,
    base: MirrorModel,
    target: DocumentRevision,
    records: Seq<RecordModel<GpuRasterRecoveryCommand>>,
    evaluations: Seq<RoundEvaluation>,
    recovered: Result<GpuRecoveredRaster, GpuRasterRecoveryReplayError>,
) -> bool {
    match (recovered, replay_records(layer, base_raster(base, layer), records, evaluations)) {
        (Ok(recovered), Ok(progress)) => {
            &&& recovered.wf()
            &&& recovered.spec_revision() == target
            &&& recovered.spec_raster() == (RasterModel { undo_depth: 0, ..progress.raster })
            &&& recovered.spec_stats().commands_seen == records.len()
            &&& recovered.spec_stats().counts(progress.tally)
            &&& match recovered.spec_stats().damage {
                Some(damage) => damage@ == progress.tally.damage && damage@ != Map::<
                    TileCoord,
                    Rect,
                >::empty(),
                None => progress.tally.damage == Map::<TileCoord, Rect>::empty(),
            }
        },
        (Err(error), Err(expected)) => error == expected,
        _ => false,
    }
}

/// Whether the result is that of a replay in which `evaluate` gave the evaluations.
pub open(crate) spec fn raster_recovered<
    F: Fn(&GpuRoundRecoveryCommand, &RasterLayer) -> RoundEvaluation,
>(
    evaluate: F,
    base: MirrorModel,
    target: DocumentRevision,
    records: Seq<RecordModel<GpuRasterRecoveryCommand>>,
    layer: LayerId,
    recovered: Result<GpuRecoveredRaster, GpuRasterRecoveryReplayError>,
) -> bool {
    exists|evaluations: Seq<RoundEvaluation>|
        {
            &&& #[trigger] all_answered(
                evaluate,
                layer,
                base_raster(base, layer),
                records,
                evaluations,
                records.len() as int,
            )
            &&& replay_reported(layer, base, target, records, evaluations, recovered)
        }
}

/// A replay keeps the size of the canvas, and leaves no edit open.
pub(crate) proof fn lemma_replay_geometry(
    layer: LayerId,
    start: RasterModel,
    records: Seq<RecordModel<GpuRasterRecoveryCommand>>,
    evaluations: Seq<RoundEvaluation>,
)
    requires
        start.gesture is None,
    ensures
        replay_records(layer, start, records, evaluations) matches Ok(progress) ==> {
            &&& progress.raster.geometry == start.geometry
            &&& progress.raster.gesture is None
        },
    decreases records.len(),
{
    if records.len() > 0 {
        lemma_replay_geometry(layer, start, records.drop_last(), evaluations);
    }
}

/// Rebuilds the pixels of one layer: those of the base, with every command since
/// then applied in turn. What a round stroke makes of its pixels is asked of
/// `evaluate`.
#[verifier::loop_isolation(false)]
pub fn replay_gpu_raster_recovery<
    F: Fn(&GpuRoundRecoveryCommand, &RasterLayer) -> RoundEvaluation,
>(
    snapshot: &GpuRecoveryTimelineSnapshot<GpuRasterRecoveryCommand>,
    layer: LayerId,
    evaluate: &F,
) -> (recovered: Result<GpuRecoveredRaster, GpuRasterRecoveryReplayError>)
    requires
        snapshot.wf(),
        forall|i: int|
            #![trigger snapshot@.records[i]]
            0 <= i < snapshot@.records.len() ==> snapshot@.records[i].command.wf(),
        evaluator_fits(*evaluate),
    ensures
        raster_recovered(
            *evaluate,
            snapshot@.base,
            snapshot@.target,
            snapshot@.records,
            layer,
            recovered,
        ),
{
    let ghost start = base_raster(snapshot@.base, layer);
    let ghost models = snapshot@.records;
    let mut raster = match snapshot.base().raster_layer(layer) {
        Ok(raster) => raster,
        Err(error) => {
            return Err(GpuRasterRecoveryReplayError::Raster(error));
        },
    };
    let records = snapshot.journal().records();
    let total: usize = records.len();
    let mut damage = Damage::new();
    let mut stats = GpuRasterRecoveryStats {
        damage: None,
        commands_seen: total as u64,
        commands_applied: 0,
        commands_skipped: 0,
        pixels_evaluated: 0,
        pixels_changed: 0,
        tiles_written: 0,
        tiles_removed: 0,
        layer_snapshots_applied: 0,
    };
    let ghost mut evaluations: Seq<RoundEvaluation> = Seq::empty();
    let mut i: usize = 0;
    assert(models.subrange(0, 0) =~= Seq::<RecordModel<GpuRasterRecoveryCommand>>::empty());
    while i < total
        invariant
            i <= total,
            evaluations.len() == i,
            raster.wf(),
            damage.wf(),
            stats.damage is None,
            stats.commands_seen == total,
            all_answered(*evaluate, layer, start, models, evaluations, i as int),
            ({
                &&& replay_records(
                    layer,
                    start,
                    models.subrange(0, i as int),
                    evaluations,
                ) matches Ok(progress)
                &&& raster@ == progress.raster
                &&& damage@ == progress.tally.damage
                &&& stats.counts(progress.tally)
            }),
        decreases total - i,
    {
        let ghost held = evaluations;
        let ghost before = raster@;
        let ghost progress = replay_records(layer, start, models.subrange(0, i as int), held)->Ok_0;
        let command = records[i].command();
        assert(models[i as int] == records@[i as int]@);
        assert(models[i as int].command.wf());
        let concerned = match command.layer() {
            Some(at) => at.0 == layer.0,
            None => false,
        };
        let ghost mut evaluation: RoundEvaluation = arbitrary();
        if !concerned {
            stats.commands_skipped = stats.commands_skipped.saturating_add(1);
            proof {
                evaluations = held.push(evaluation);
                lemma_next_record(*evaluate, layer, start, models, held, evaluation, i as int);
            }
            i += 1;
            continue ;
        }
        stats.commands_applied = stats.commands_applied.saturating_add(1);
        match command {
            GpuRasterRecoveryCommand::Round(stroke) => {
                let ghost met = raster;
                let replayed = replay_round_recovery_command(&mut raster, stroke, evaluate);
                proof {
                    evaluation = choose|evaluation: RoundEvaluation|
                        {
                            &&& #[trigger] call_ensures(*evaluate, (stroke, &met), evaluation)
                            &&& evaluation_fits(met@.geometry, evaluation)
                            &&& raster@ == round_replay_model(met@, evaluation)
                            &&& round_replay_reported(met@, evaluation, replayed)
                        };
                    assert(answered(*evaluate, *stroke, before, evaluation));
                    evaluations = held.push(evaluation);
                    lemma_next_record(*evaluate, layer, start, models, held, evaluation, i as int);
                }
                match replayed {
                    Ok(replay) => {
                        stats.pixels_evaluated = stats.pixels_evaluated.saturating_add(
                            replay.pixels_evaluated,
                        );
                        stats.pixels_changed = stats.pixels_changed.saturating_add(
                            replay.pixels_changed,
                        );
                        merge_damage(&mut damage, &replay.damage);
                        assert(damage@ =~= damage_merge(
                            progress.tally.damage,
                            round_replayed(before.geometry, before.tiles, evaluation).damage,
                        ));
                    },
                    Err(error) => {
                        proof {
                            lemma_stopped(
                                *evaluate,
                                layer,
                                start,
                                models,
                                evaluations,
                                i as int + 1,
                            );
                        }
                        return Err(GpuRasterRecoveryReplayError::Round(error));
                    },
                }
            },
            GpuRasterRecoveryCommand::Exact(pixels) => {
                proof {
                    evaluations = held.push(evaluation);
                    lemma_next_record(*evaluate, layer, start, models, held, evaluation, i as int);
                }
                match replay_exact_raster_recovery_command(layer, &mut raster, pixels) {
                    Ok(replay) => {
                        stats.pixels_changed = stats.pixels_changed.saturating_add(
                            replay.pixels_changed,
                        );
                        stats.tiles_written = stats.tiles_written.saturating_add(
                            replay.tiles_written,
                        );
                        stats.tiles_removed = stats.tiles_removed.saturating_add(
                            replay.tiles_removed,
                        );
                        merge_damage(&mut damage, &replay.damage);
                        assert(damage@ =~= damage_merge(
                            progress.tally.damage,
                            replay_tiles(before.geometry, before.tiles, pixels@.tiles).damage,
                        ));
                    },
                    Err(error) => {
                        proof {
                            lemma_stopped(
                                *evaluate,
                                layer,
                                start,
                                models,
                                evaluations,
                                i as int + 1,
                            );
                        }
                        return Err(GpuRasterRecoveryReplayError::Exact(error));
                    },
                }
            },
            GpuRasterRecoveryCommand::Layer(whole) => {
                proof {
                    evaluations = held.push(evaluation);
                    lemma_next_record(*evaluate, layer, start, models, held, evaluation, i as int);
                }
                match replay_exact_layer_recovery_command(layer, &mut raster, whole) {
                    Ok(_) => {
                        stats.layer_snapshots_applied =
                        stats.layer_snapshots_applied.saturating_add(1);
                    },
                    Err(error) => {
                        proof {
                            lemma_stopped(
                                *evaluate,
                                layer,
                                start,
                                models,
                                evaluations,
                                i as int + 1,
                            );
                        }
                        return Err(GpuRasterRecoveryReplayError::Layer(error));
                    },
                }
            },
            GpuRasterRecoveryCommand::AwaitingPixels(at) => {
                proof {
                    evaluations = held.push(evaluation);
                    lemma_next_record(*evaluate, layer, start, models, held, evaluation, i as int);
                    lemma_stopped(*evaluate, layer, start, models, evaluations, i as int + 1);
                }
                return Err(GpuRasterRecoveryReplayError::AwaitingPixels(*at));
            },
            GpuRasterRecoveryCommand::MetadataOnly => {
                proof {
                    evaluations = held.push(evaluation);
                    lemma_next_record(*evaluate, layer, start, models, held, evaluation, i as int);
                }
            },
        }
        i += 1;
    }
    assert(models.subrange(0, i as int) =~= models);
    raster.clear_history();
    stats.damage =
    if damage.is_empty() {
        None
    } else {
        Some(damage)
    };
    let recovered = GpuRecoveredRaster { revision: snapshot.target_revision(), raster, stats };
    proof {
        let result: Result<GpuRecoveredRaster, GpuRasterRecoveryReplayError> = Ok(recovered);
        assert(replay_reported(
            layer,
            snapshot@.base,
            snapshot@.target,
            models,
            evaluations,
            result,
        ));
    }
    Ok(recovered)
}

/// One more record with its evaluation.
proof fn lemma_next_record<F: Fn(&GpuRoundRecoveryCommand, &RasterLayer) -> RoundEvaluation>(
    evaluate: F,
    layer: LayerId,
    start: RasterModel,
    records: Seq<RecordModel<GpuRasterRecoveryCommand>>,
    evaluations: Seq<RoundEvaluation>,
    evaluation: RoundEvaluation,
    i: int,
)
    requires
        0 <= i < records.len(),
        evaluations.len() == i,
        all_answered(evaluate, layer, start, records, evaluations, i),
        replay_records(layer, start, records.subrange(0, i), evaluations) is Ok,
        match records[i].command {
            GpuRasterRecoveryCommand::Round(command) => command@.layer == layer ==> answered(
                evaluate,
                command,
                replay_records(layer, start, records.subrange(0, i), evaluations)->Ok_0.raster,
                evaluation,
            ),
            _ => true,
        },
    ensures
        all_answered(evaluate, layer, start, records, evaluations.push(evaluation), i + 1),
        replay_records(layer, start, records.subrange(0, i + 1), evaluations.push(evaluation))
            == replay_command(
            layer,
            replay_records(layer, start, records.subrange(0, i), evaluations)->Ok_0,
            records[i].command,
            evaluation,
        ),
{
    let next = evaluations.push(evaluation);
    assert(records.subrange(0, i + 1).drop_last() =~= records.subrange(0, i));
    lemma_replay_prefix(layer, start, records.subrange(0, i), evaluations, next);
    assert forall|k: int|
        #![trigger records[k]]
        0 <= k < i + 1 implies match (
        records[k].command,
        replay_records(layer, start, records.subrange(0, k), next),
    ) {
        (GpuRasterRecoveryCommand::Round(command), Ok(progress)) => command@.layer == layer
            ==> answered(evaluate, command, progress.raster, next[k]),
        _ => true,
    } by {
        if k < i {
            lemma_replay_prefix(layer, start, records.subrange(0, k), evaluations, next);
            assert(next[k] == evaluations[k]);
        }
    }
}

/// A replay that stopped asks nothing more.
proof fn lemma_stopped<F: Fn(&GpuRoundRecoveryCommand, &RasterLayer) -> RoundEvaluation>(
    evaluate: F,
    layer: LayerId,
    start: RasterModel,
    records: Seq<RecordModel<GpuRasterRecoveryCommand>>,
    evaluations: Seq<RoundEvaluation>,
    n: int,
)
    requires
        0 <= n <= records.len(),
        all_answered(evaluate, layer, start, records, evaluations, n),
        replay_records(layer, start, records.subrange(0, n), evaluations) is Err,
    ensures
        all_answered(
            evaluate,
            layer,
            start,
            records,
            evaluations,
            records.len() as int,
        ),
        replay_records(layer, start, records, evaluations) == replay_records(
            layer,
            start,
            records.subrange(0, n),
            evaluations,
        ),
{
    lemma_replay_fails(layer, start, records, evaluations, n);
    assert forall|k: int|
        #![trigger records[k]]
        0 <= k < records.len() implies match (
        records[k].command,
        replay_records(layer, start, records.subrange(0, k), evaluations),
    ) {
        (GpuRasterRecoveryCommand::Round(command), Ok(progress)) => command@.layer == layer
            ==> answered(evaluate, command, progress.raster, evaluations[k]),
        _ => true,
    } by {
        if k >= n {
            let prefix = records.subrange(0, k);
            assert(prefix.subrange(0, n) =~= records.subrange(0, n));
            lemma_replay_fails(layer, start, prefix, evaluations, n);
        }
    }
}

proof fn lemma_replay_fails(
    layer: LayerId,
    start: RasterModel,
    records: Seq<RecordModel<GpuRasterRecoveryCommand>>,
    evaluations: Seq<RoundEvaluation>,
    n: int,
)
    requires
        0 <= n <= records.len(),
        replay_records(layer, start, records.subrange(0, n), evaluations) is Err,
    ensures
        replay_records(layer, start, records, evaluations) == replay_records(
            layer,
            start,
            records.subrange(0, n),
            evaluations,
        ),
    decreases records.len() - n,
{
    if n < records.len() {
        assert(records.subrange(0, n + 1).drop_last() =~= records.subrange(0, n));
        lemma_replay_fails(layer, start, records, evaluations, n + 1);
    } else {
        assert(records.subrange(0, n) =~= records);
    }
}

/// Evaluations past the last record do not matter.
proof fn lemma_replay_prefix(
    layer: LayerId,
    start: RasterModel,
    records: Seq<RecordModel<GpuRasterRecoveryCommand>>,
    first: Seq<RoundEvaluation>,
    second: Seq<RoundEvaluation>,
)
    requires
        records.len() <= first.len(),
        records.len() <= second.len(),
        forall|k: int| 0 <= k < records.len() ==> #[trigger] first[k] == second[k],
    ensures
        replay_records(layer, start, records, first) == replay_records(
            layer,
            start,
            records,
            second,
        ),
    decreases records.len(),
{
    if records.len() > 0 {
        lemma_replay_prefix(layer, start, records.drop_last(), first, second);
        assert(first[records.len() - 1] == second[records.len() - 1]);
    }
}

/// What a replay does to the pixels does not rest on what it has counted.
proof fn lemma_tally_is_idle(
    layer: LayerId,
    first: ReplayProgress,
    second: ReplayProgress,
    command: GpuRasterRecoveryCommand,
    evaluation: RoundEvaluation,
)
    requires
        first.raster == second.raster,
    ensures
        match (
            replay_command(layer, first, command, evaluation),
            replay_command(layer, second, command, evaluation),
        ) {
            (Ok(one), Ok(other)) => one.raster == other.raster,
            (Err(one), Err(other)) => one == other,
            _ => false,
        },
{
}

/// A replay of some records rests only on the evaluations of those records.
proof fn lemma_own_evaluations(
    layer: LayerId,
    start: RasterModel,
    records: Seq<RecordModel<GpuRasterRecoveryCommand>>,
    first: Seq<RoundEvaluation>,
    second: Seq<RoundEvaluation>,
)
    requires
        forall|k: int| 0 <= k < records.len() ==> first[k] == second[k],
    ensures
        replay_records(layer, start, records, first) == replay_records(
            layer,
            start,
            records,
            second,
        ),
    decreases records.len(),
{
    if records.len() > 0 {
        lemma_own_evaluations(layer, start, records.drop_last(), first, second);
    }
}

/// A layer can be recovered in two goes: replaying later records on what earlier ones gave leaves
/// the same pixels, or fails in the same way, as replaying all of them at once. So a mirror that
/// has caught up with the earlier records can take their place.
pub proof fn law_replay_composes(
    layer: LayerId,
    start: RasterModel,
    earlier: Seq<RecordModel<GpuRasterRecoveryCommand>>,
    later: Seq<RecordModel<GpuRasterRecoveryCommand>>,
    earlier_evaluations: Seq<RoundEvaluation>,
    later_evaluations: Seq<RoundEvaluation>,
    reached: ReplayProgress,
)
    requires
        earlier_evaluations.len() == earlier.len(),
        later_evaluations.len() >= later.len(),
        replay_records(layer, start, earlier, earlier_evaluations) == Ok::<
            ReplayProgress,
            GpuRasterRecoveryReplayError,
        >(reached),
    ensures
        match (
            replay_records(
                layer,
                start,
                earlier + later,
                earlier_evaluations + later_evaluations,
            ),
            replay_records(layer, reached.raster, later, later_evaluations),
        ) {
            (Ok(whole), Ok(rest)) => whole.raster == rest.raster,
            (Err(whole), Err(rest)) => whole == rest,
            _ => false,
        },
    decreases later.len(),
{
    let evaluations = earlier_evaluations + later_evaluations;
    if later.len() == 0 {
        assert(earlier + later =~= earlier);
        lemma_own_evaluations(layer, start, earlier, evaluations, earlier_evaluations);
    } else {
        let rest = later.drop_last();
        law_replay_composes(
            layer,
            start,
            earlier,
            rest,
            earlier_evaluations,
            later_evaluations,
            reached,
        );
        assert((earlier + later).drop_last() =~= earlier + rest);
        assert((earlier + later).last() == later.last());
        let at = (earlier + later).len() - 1;
        match (
            replay_records(layer, start, earlier + rest, evaluations),
            replay_records(layer, reached.raster, rest, later_evaluations),
        ) {
            (Ok(whole), Ok(part)) => {
                if at < evaluations.len() {
                    assert(evaluations[at] == later_evaluations[later.len() - 1]);
                }
                lemma_tally_is_idle(
                    layer,
                    whole,
                    part,
                    later.last().command,
                    later_evaluations[later.len() - 1],
                );
            },
            _ => {},
        }
    }
}

} // verus!
