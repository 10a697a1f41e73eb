//! What a layer looks like once its journal is replayed, and what the live recovery keeps.

use crate::document::{DocumentRevision, LayerId};
use crate::gpu_atlas::LayerTileKey;
use crate::gpu_cpu_mirror::{mirror_tiles_valid, MirrorModel};
use crate::gpu_document_history::{GpuHistoryDirection, GpuHistoryId};
use crate::gpu_history_recovery::{find_revision, lemma_without_all_valid, SpillModel};
use crate::gpu_live_recovery::{
    GpuMirrorRecoveryPurpose, LiveModel, PreparedRecordModel, PreparedSwapModel,
};
use crate::gpu_pixel_laws::{
    law_exact_replay_sets_every_pixel, law_replayed_stroke_paints_every_outcome,
};
use crate::gpu_raster_laws::{law_replay_leaves_other_tiles_alone, tiles_placed};
use crate::gpu_raster_transition::TransitionModel;
use crate::gpu_recovery_journal::{record_bytes, JournalModel, RecordModel};
use crate::gpu_recovery_replay::{
    base_raster, replay_command, replay_records, GpuRasterRecoveryCommand,
    GpuRasterRecoveryReplayError, ReplayProgress,
};
use crate::gpu_round_recovery::{evaluation_fits, RoundEvaluation, RoundPixelOutcome};
use crate::gpu_spill_laws::{
    law_attaching_fills_the_edit_of_the_revision, law_registering_adds_one_edit,
    law_replacing_drops_the_named_edits, lemma_tracked, tracks_revision,
};
use crate::pixel_grid::{lemma_grid_bound, lemma_grid_position};
use crate::raster::{transparent, TileCoord};
use crate::raster_layer::{
    all_transparent, pixel_at, tile_or_blank, tiles_valid, RasterModel,
};
use vstd::prelude::*;

verus! {

/// Whether a command changes the pixels of the layer.
pub open spec fn concerns(command: GpuRasterRecoveryCommand, layer: LayerId) -> bool {
    match command {
        GpuRasterRecoveryCommand::Round(round) => round@.layer == layer,
        GpuRasterRecoveryCommand::Exact(exact) => exact@.layer == layer,
        GpuRasterRecoveryCommand::Layer(whole) => whole@.layer == layer,
        GpuRasterRecoveryCommand::AwaitingPixels(at) => at == layer,
        GpuRasterRecoveryCommand::MetadataOnly => false,
    }
}

/// A recovery starts with the pixels of the mirror: those of the layer, and of no other.
pub proof fn law_recovery_starts_from_the_mirror(base: MirrorModel, layer: LayerId, x: int, y: int)
    requires
        base.geometry.valid(),
        mirror_tiles_valid(base.geometry, base.tiles),
        0 <= x < base.geometry.width,
        0 <= y < base.geometry.height,
    ensures
        ({
            let size = base.geometry.tile_size;
            let key = LayerTileKey {
                layer,
                tile: TileCoord { x: (x / size) as u32, y: (y / size) as u32 },
            };
            pixel_at(base.geometry, base_raster(base, layer).tiles, x, y) == (
            if base.tiles.contains_key(key) {
                base.tiles[key][(y % size) * size + x % size]
            } else {
                transparent()
            })
        }),
        base_raster(base, layer).geometry == base.geometry,
        base_raster(base, layer).gesture is None,
{
    let size = base.geometry.tile_size;
    let tile = base.geometry.tile_of(x, y);
    let key = LayerTileKey { layer, tile };
    lemma_grid_position(size, x);
    lemma_grid_position(size, y);
    lemma_grid_bound(size, size, x % size, y % size);
    if base.tiles.contains_key(key) && all_transparent(base.tiles[key]) {
        let index = base.geometry.index_of(x, y);
        assert(base.tiles[key][index] == transparent());
    }
}

/// A command that does not concern the layer leaves it as it is, and is counted as skipped.
pub proof fn law_other_commands_are_skipped(
    layer: LayerId,
    progress: ReplayProgress,
    command: GpuRasterRecoveryCommand,
    evaluation: RoundEvaluation,
)
    requires
        !concerns(command, layer),
    ensures
        replay_command(layer, progress, command, evaluation) matches Ok(after) && {
            &&& after.raster == progress.raster
            &&& after.tally.damage == progress.tally.damage
            &&& after.tally.commands_skipped == progress.tally.commands_skipped + 1
            &&& after.tally.commands_applied == progress.tally.commands_applied
            &&& after.tally.pixels_evaluated == progress.tally.pixels_evaluated
            &&& after.tally.pixels_changed == progress.tally.pixels_changed
            &&& after.tally.tiles_written == progress.tally.tiles_written
            &&& after.tally.tiles_removed == progress.tally.tiles_removed
            &&& after.tally.layer_snapshots_applied == progress.tally.layer_snapshots_applied
        },
{
}

/// A layer whose pixels were not read back cannot be recovered past that point.
pub proof fn law_missing_pixels_stop_the_replay(
    layer: LayerId,
    progress: ReplayProgress,
    evaluation: RoundEvaluation,
)
    ensures
        replay_command(
            layer,
            progress,
            GpuRasterRecoveryCommand::AwaitingPixels(layer),
            evaluation,
        ) is Err,
{
}

/// A stroke that is replayed paints every pixel that its evaluation paints and leaves the others.
pub proof fn law_replay_paints_a_stroke(
    layer: LayerId,
    progress: ReplayProgress,
    command: GpuRasterRecoveryCommand,
    evaluation: RoundEvaluation,
    after: ReplayProgress,
    x: int,
    y: int,
)
    requires
        concerns(command, layer),
        command is Round,
        replay_command(layer, progress, command, evaluation) == Ok::<
            ReplayProgress,
            GpuRasterRecoveryReplayError,
        >(after),
        progress.raster.geometry.valid(),
        tiles_valid(progress.raster.geometry, progress.raster.tiles),
        evaluation_fits(progress.raster.geometry, evaluation),
        0 <= x < progress.raster.geometry.width,
        0 <= y < progress.raster.geometry.height,
    ensures
        after.raster.geometry == progress.raster.geometry,
        pixel_at(after.raster.geometry, after.raster.tiles, x, y) == (match evaluation.bounds {
            Some(bounds) => if bounds@.min_x <= x < bounds@.max_x && bounds@.min_y <= y
                < bounds@.max_y {
                match evaluation.outcomes@[(y - bounds@.min_y) * (bounds@.max_x - bounds@.min_x) + (
                x - bounds@.min_x)] {
                    RoundPixelOutcome::Paint(color) => color,
                    _ => pixel_at(progress.raster.geometry, progress.raster.tiles, x, y),
                }
            } else {
                pixel_at(progress.raster.geometry, progress.raster.tiles, x, y)
            },
            None => pixel_at(progress.raster.geometry, progress.raster.tiles, x, y),
        }),
        after.tally.commands_applied == progress.tally.commands_applied + 1,
        after.tally.commands_skipped == progress.tally.commands_skipped,
        after.tally.pixels_evaluated == progress.tally.pixels_evaluated
            + evaluation.outcomes@.len(),
{
    law_replayed_stroke_paints_every_outcome(progress.raster, evaluation, x, y);
}

/// Exact pixels that are replayed are the layer's pixels afterwards: the last region over a place
/// decides, and a tile that is named as empty is empty. Tiles that are not named stay.
pub proof fn law_replay_sets_exact_pixels(
    layer: LayerId,
    progress: ReplayProgress,
    command: crate::gpu_raster_recovery::GpuExactRasterRecoveryCommand,
    evaluation: RoundEvaluation,
    after: ReplayProgress,
    at: int,
    x: int,
    y: int,
)
    requires
        command@.layer == layer,
        replay_command(
            layer,
            progress,
            GpuRasterRecoveryCommand::Exact(command),
            evaluation,
        ) == Ok::<ReplayProgress, GpuRasterRecoveryReplayError>(after),
        progress.raster.geometry.valid(),
        tiles_valid(progress.raster.geometry, progress.raster.tiles),
        tiles_placed(progress.raster.geometry, command@.tiles),
        0 <= at < command@.tiles.len(),
        0 <= x < progress.raster.geometry.tile_size,
        0 <= y < progress.raster.geometry.tile_size,
        command@.tiles[at].coord.x * progress.raster.geometry.tile_size + x
            < progress.raster.geometry.width,
        command@.tiles[at].coord.y * progress.raster.geometry.tile_size + y
            < progress.raster.geometry.height,
    ensures
        ({
            let geometry = progress.raster.geometry;
            let tile = command@.tiles[at];
            let k = y * geometry.tile_size + x;
            let was = tile_or_blank(geometry, progress.raster.tiles, tile.coord)[k];
            let is = tile_or_blank(geometry, after.raster.tiles, tile.coord)[k];
            &&& !tile.initialized ==> is == transparent()
            &&& tile.initialized ==> {
                &&& forall|r: int|
                    0 <= r < tile.regions.len() && (#[trigger] tile.regions[r]).bounds.contains(
                        x,
                        y,
                    ) && (forall|q: int|
                        r < q < tile.regions.len() ==> !(
                        #[trigger] tile.regions[q]).bounds.contains(x, y)) ==> is
                        == tile.regions[r].pixels[(y - tile.regions[r].bounds.min_y) * (
                    tile.regions[r].bounds.max_x - tile.regions[r].bounds.min_x) + (x
                        - tile.regions[r].bounds.min_x)]
                &&& (forall|q: int|
                    0 <= q < tile.regions.len() ==> !(#[trigger] tile.regions[q]).bounds.contains(
                        x,
                        y,
                    )) ==> is == was
            }
        }),
        forall|coord: TileCoord|
            #![trigger after.raster.tiles.contains_key(coord)]
            (forall|t: int|
                0 <= t < command@.tiles.len() ==> (#[trigger] command@.tiles[t]).coord != coord)
                ==> {
                &&& after.raster.tiles.contains_key(coord) == progress.raster.tiles.contains_key(
                    coord,
                )
                &&& progress.raster.tiles.contains_key(coord) ==> after.raster.tiles[coord]
                    == progress.raster.tiles[coord]
            },
        after.raster.geometry == progress.raster.geometry,
        after.tally.commands_applied == progress.tally.commands_applied + 1,
        after.tally.commands_skipped == progress.tally.commands_skipped,
{
    let geometry = progress.raster.geometry;
    law_exact_replay_sets_every_pixel(
        geometry,
        progress.raster.tiles,
        command@.tiles,
        at,
        x,
        y,
    );
    assert forall|coord: TileCoord|
        #![trigger after.raster.tiles.contains_key(coord)]
        (forall|t: int|
            0 <= t < command@.tiles.len() ==> (#[trigger] command@.tiles[t]).coord != coord) implies {
        &&& after.raster.tiles.contains_key(coord) == progress.raster.tiles.contains_key(coord)
        &&& progress.raster.tiles.contains_key(coord) ==> after.raster.tiles[coord]
            == progress.raster.tiles[coord]
    } by {
        law_replay_leaves_other_tiles_alone(
            geometry,
            progress.raster.tiles,
            command@.tiles,
            coord,
        );
    }
}

/// A layer that is replayed as a whole has the captured pixels afterwards, whatever it had before.
pub proof fn law_replay_restores_a_whole_layer(
    layer: LayerId,
    progress: ReplayProgress,
    command: crate::gpu_layer_recovery::GpuExactLayerRecoveryCommand,
    evaluation: RoundEvaluation,
    after: ReplayProgress,
    at: int,
    k: int,
)
    requires
        command@.layer == layer,
        command@.valid(),
        replay_command(
            layer,
            progress,
            GpuRasterRecoveryCommand::Layer(command),
            evaluation,
        ) == Ok::<ReplayProgress, GpuRasterRecoveryReplayError>(after),
        0 <= at < command@.tiles.len(),
        0 <= k < command@.geometry.tile_len(),
    ensures
        tile_or_blank(command@.geometry, after.raster.tiles, command@.tiles[at].0)[k]
            == command@.tiles[at].1[k],
        forall|coord: TileCoord| #[trigger]
            after.raster.tiles.contains_key(coord) ==> exists|t: int|
                0 <= t < command@.tiles.len() && (#[trigger] command@.tiles[t]).0 == coord,
        after.raster.geometry == command@.geometry,
        progress.raster.geometry == command@.geometry,
        after.tally.commands_applied == progress.tally.commands_applied + 1,
        after.tally.layer_snapshots_applied == progress.tally.layer_snapshots_applied + 1,
{
    let tiles = command@.tiles;
    assert(crate::keyed_map::keys_unique(tiles)) by {
        assert forall|i: int, j: int|
            #![trigger tiles[i], tiles[j]]
            0 <= i < tiles.len() && 0 <= j < tiles.len() && i != j implies tiles[i].0
            != tiles[j].0 by {
            if i < j {
                assert(tiles[i].0 != tiles[j].0);
            } else {
                assert(tiles[j].0 != tiles[i].0);
            }
        }
    }
    crate::keyed_map::lemma_entry_in_map(tiles, at);
    let map = crate::keyed_map::entries_map(tiles);
    assert(map.contains_key(tiles[at].0) && map[tiles[at].0] == tiles[at].1);
    if all_transparent(tiles[at].1) {
        assert(tiles[at].1[k] == transparent());
    }
}

/// How many of the records concern the layer.
pub open spec fn concerning(
    records: Seq<RecordModel<GpuRasterRecoveryCommand>>,
    layer: LayerId,
) -> int
    decreases records.len(),
{
    if records.len() == 0 {
        0
    } else {
        concerning(records.drop_last(), layer) + if concerns(records.last().command, layer) {
            1int
        } else {
            0
        }
    }
}

/// A replay applies every record that concerns the layer and skips every other; where none does, the
/// layer keeps the pixels that it started with.
pub proof fn law_replay_counts_every_record(
    layer: LayerId,
    start: RasterModel,
    records: Seq<RecordModel<GpuRasterRecoveryCommand>>,
    evaluations: Seq<RoundEvaluation>,
    reached: ReplayProgress,
)
    requires
        replay_records(layer, start, records, evaluations) == Ok::<
            ReplayProgress,
            GpuRasterRecoveryReplayError,
        >(reached),
    ensures
        reached.tally.commands_applied == concerning(records, layer),
        reached.tally.commands_skipped == records.len() - concerning(records, layer),
        concerning(records, layer) == 0 ==> reached.raster == start,
        0 <= concerning(records, layer),
    decreases records.len(),
{
    if records.len() > 0 {
        let rest = records.drop_last();
        let earlier = replay_records(layer, start, rest, evaluations)->Ok_0;
        law_replay_counts_every_record(layer, start, rest, evaluations, earlier);
    }
}

/// A record is taken just where its revision is the next one, it holds something, and there is room
/// for it. It is then the last record, and the journal has reached its revision.
pub proof fn law_journal_takes_the_next_revision<C>(
    journal: JournalModel<C>,
    revision: DocumentRevision,
    byte_len: u64,
    command: C,
)
    requires
        journal.valid(),
    ensures
        journal.record_error(revision, byte_len) is None <==> {
            &&& revision.0 == journal.latest.0 + 1
            &&& byte_len > 0
            &&& journal.records.len() < journal.max_entries
            &&& record_bytes(journal.records) + byte_len <= journal.max_bytes
        },
        journal.with_record(revision, byte_len, command).latest == revision,
        journal.with_record(revision, byte_len, command).mirrored == journal.mirrored,
        journal.with_record(revision, byte_len, command).records.len() == journal.records.len() + 1,
        journal.with_record(revision, byte_len, command).records.drop_last() == journal.records,
        journal.with_record(revision, byte_len, command).records.last().command == command,
        journal.with_record(revision, byte_len, command).records.last().revision == revision,
        record_bytes(journal.with_record(revision, byte_len, command).records) == record_bytes(
            journal.records,
        ) + byte_len,
{
    lemma_bytes_positive(journal.records);
    let after = journal.with_record(revision, byte_len, command);
    assert(after.records.drop_last() =~= journal.records);
}

proof fn lemma_bytes_positive<C>(records: Seq<RecordModel<C>>)
    ensures
        0 <= record_bytes(records),
    decreases records.len(),
{
    if records.len() > 0 {
        lemma_bytes_positive(records.drop_last());
    }
}

/// Acknowledging a revision retires the records up to it, and keeps those after it. It is refused
/// just where the revision lies outside of what the journal knows.
pub proof fn law_journal_retires_up_to_the_revision<C>(
    journal: JournalModel<C>,
    revision: DocumentRevision,
    record: RecordModel<C>,
)
    requires
        journal.valid(),
    ensures
        journal.acknowledge_error(revision) is None <==> journal.mirrored.0 <= revision.0
            <= journal.latest.0,
        journal.acknowledge_error(revision) is None ==> {
            &&& journal.retired(revision).contains(record) <==> journal.records.contains(record)
                && record.revision.0 <= revision.0
            &&& journal.acknowledged(revision).records.contains(record)
                <==> journal.records.contains(record) && record.revision.0 > revision.0
            &&& journal.acknowledged(revision).mirrored == revision
            &&& journal.acknowledged(revision).latest == journal.latest
        },
{
    if journal.acknowledge_error(revision) is None {
        let count = revision.0 - journal.mirrored.0;
        let gone = journal.retired(revision);
        let left = journal.acknowledged(revision).records;
        if gone.contains(record) {
            let i = choose|i: int| 0 <= i < gone.len() && gone[i] == record;
            assert(journal.records[i] == record);
        }
        if left.contains(record) {
            let i = choose|i: int| 0 <= i < left.len() && left[i] == record;
            assert(journal.records[i + count] == record);
        }
        if journal.records.contains(record) {
            let i = choose|i: int| 0 <= i < journal.records.len() && journal.records[i] == record;
            assert(journal.records[i].revision.0 == journal.mirrored.0 + 1 + i);
            if i < count {
                assert(gone[i] == record);
            } else {
                assert(left[i - count] == record);
            }
        }
    }
}

/// A recorded edit is journaled with its command, and waits for its pixels under its number; the edits
/// that the history let go are dropped.
pub proof fn law_recorded_edit_waits_for_its_pixels(live: LiveModel, prepared: PreparedRecordModel)
    requires
        live.timeline.valid(),
        live.spills.valid(),
        live.commit_error(prepared) is None,
    ensures
        ({
            let after = live.with_record(prepared);
            &&& prepared.source_revision == live.revision()
            &&& prepared.revision.0 == live.revision().0 + 1
            &&& after.revision() == prepared.revision
            &&& after.timeline.base == live.timeline.base
            &&& after.timeline.journal.records.drop_last() == live.timeline.journal.records
            &&& after.timeline.journal.records.last().command == prepared.command
            &&& after.timeline.journal.records.last().revision == prepared.revision
            &&& after.spills.entries.contains(
                SpillModel {
                    id: prepared.id,
                    source_revision: prepared.source_revision,
                    revision: prepared.revision,
                    transition: None,
                },
            )
            &&& forall|entry: SpillModel| #[trigger]
                live.spills.entries.contains(entry) && entry.id != prepared.id ==> (
                after.spills.entries.contains(entry) <==> !prepared.evicted_ids.contains(entry.id))
        }),
{
    let spills = live.spills;
    let after = live.with_record(prepared);
    let new = SpillModel {
        id: prepared.id,
        source_revision: prepared.source_revision,
        revision: prepared.revision,
        transition: None,
    };
    law_journal_takes_the_next_revision(
        live.timeline.journal,
        prepared.revision,
        prepared.byte_len,
        prepared.command,
    );
    law_replacing_drops_the_named_edits(
        spills,
        prepared.evicted_ids,
        prepared.id,
        prepared.source_revision,
        prepared.revision,
        new,
    );
    lemma_without_all_valid(spills, prepared.evicted_ids);
    law_registering_adds_one_edit(
        spills.without_all(prepared.evicted_ids),
        prepared.id,
        prepared.source_revision,
        prepared.revision,
        new,
    );
    lemma_tracked(
        spills.without_all(prepared.evicted_ids),
        prepared.id,
        prepared.revision,
    );
    assert forall|entry: SpillModel| #[trigger]
        live.spills.entries.contains(entry) && entry.id != prepared.id implies (
    after.spills.entries.contains(entry) <==> !prepared.evicted_ids.contains(entry.id)) by {
        law_replacing_drops_the_named_edits(
            spills,
            prepared.evicted_ids,
            prepared.id,
            prepared.source_revision,
            prepared.revision,
            entry,
        );
    }
}

/// A step through the history is journaled with its command; what waits for pixels is left alone.
pub proof fn law_step_is_journaled(live: LiveModel, prepared: PreparedSwapModel)
    requires
        live.timeline.valid(),
        live.swap_commit_error(prepared) is None,
    ensures
        ({
            let after = live.with_swap(prepared);
            &&& prepared.source_revision == live.revision()
            &&& prepared.revision.0 == live.revision().0 + 1
            &&& after.revision() == prepared.revision
            &&& after.timeline.base == live.timeline.base
            &&& after.timeline.journal.records.drop_last() == live.timeline.journal.records
            &&& after.timeline.journal.records.last().command == prepared.command
            &&& after.spills == live.spills
        }),
{
    law_journal_takes_the_next_revision(
        live.timeline.journal,
        prepared.revision,
        prepared.byte_len,
        prepared.command,
    );
}

/// When the mirror catches up, its pixels become the base, the records up to its revision are
/// retired and the later ones stay. Pixels that an edit waits for are attached to it, so that it can
/// be undone and redone; other pixels leave the edits alone, and never take the place of pixels that
/// an edit waits for.
pub proof fn law_mirror_hands_its_pixels_over(
    live: LiveModel,
    purpose: GpuMirrorRecoveryPurpose,
    snapshot: MirrorModel,
    transition: TransitionModel,
    record: RecordModel<GpuRasterRecoveryCommand>,
)
    requires
        live.timeline.valid(),
        live.spills.valid(),
        0 <= transition.byte_len(),
        live.handoff_error(purpose, snapshot, transition) is None,
    ensures
        ({
            let after = live.handed_off(purpose, snapshot, transition);
            &&& snapshot.revision == transition.revision
            &&& snapshot.geometry == live.timeline.base.geometry
            &&& transition.source_revision == live.timeline.base.revision
            &&& live.timeline.base.revision.0 < snapshot.revision.0 <= live.revision().0
            &&& after.timeline.base == snapshot
            &&& after.revision() == live.revision()
            &&& after.timeline.journal.records.contains(record)
                <==> live.timeline.journal.records.contains(record) && record.revision.0
                > snapshot.revision.0
            &&& match purpose {
                GpuMirrorRecoveryPurpose::History(id) => {
                    &&& after.spills.command_for(id, GpuHistoryDirection::Undo) matches Ok(command)
                    &&& command == transition.before
                    &&& after.spills.command_for(id, GpuHistoryDirection::Redo) matches Ok(command)
                    &&& command == transition.after
                },
                GpuMirrorRecoveryPurpose::ReconcileOnly => {
                    &&& after.spills == live.spills
                    &&& !tracks_revision(live.spills, transition.revision)
                },
            }
        }),
{
    law_journal_retires_up_to_the_revision(live.timeline.journal, snapshot.revision, record);
    lemma_tracked(live.spills, GpuHistoryId(0), transition.revision);
    match purpose {
        GpuMirrorRecoveryPurpose::History(id) => {
            let i = find_revision(live.spills.keys(), transition.revision)->0;
            assert(live.spills.entries[i].id == id);
            law_attaching_fills_the_edit_of_the_revision(live.spills, transition, i);
        },
        GpuMirrorRecoveryPurpose::ReconcileOnly => {},
    }
}

} // verus!
