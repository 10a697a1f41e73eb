//! What is checked before pixels are read back or applied, and how a readback proceeds.

use crate::device::DeviceLimits;
use crate::document::{DocumentRevision, LayerId};
use crate::gpu_atlas::{AtlasGeometry, LayerTileKey};
use crate::gpu_cpu_mirror::{
    bounds_error, copy_shapes, patch_shapes, patches_error, shapes_error, states_conflict,
    GpuMirrorPatchBatch, GpuMirrorPatchRegion, RegionShape,
};
use crate::gpu_document_history::{GpuHistoryDirection, GpuHistoryId};
use crate::gpu_document_mirror::{BatchPlanModel, GpuMirrorCopyRegion, ReadbackPlanModel};
use crate::gpu_document_mirror_dispatcher::{
    completed_with, structural_revisions, DispatcherModel, GpuMirrorDispatchCompletion,
};
use crate::gpu_document_target::TargetModel;
use crate::gpu_live_recovery::GpuMirrorRecoveryPurpose;
use crate::gpu_mirror_capture::{
    batch_fault, batches_fault, capture_error, captured, readback_prepared, regions_fault,
    CaptureModel,
};
use crate::gpu_mirror_laws::law_finished_revision_leaves_the_queue;
use crate::gpu_mirror_reconciler::{pending_position, revisions_increase};
use crate::gpu_raster_recovery::{mirror_fault, ExactCommandModel, ExactTileModel};
use crate::gpu_raster_replay::{exact_replay_error, first_outside};
use crate::gpu_recovery_journal::RecordModel;
use crate::gpu_recovery_replay::GpuRasterRecoveryCommand;
use crate::gpu_replay_laws::law_mirror_hands_its_pixels_over;
use crate::gpu_resident_document::{
    canvas_pixels, ceiling, GpuResidentDocumentError, HandoffModel, ResidentModel,
};
use crate::gpu_resident_mirror::{handoff_retried, resolved_purpose, GpuResidentMirrorCompletion};
use crate::raster::RectU32;
use crate::raster_layer::RasterGeometry;
use vstd::prelude::*;

verus! {

/// A region reads what the target holds: its own tile where it brings pixels, and nothing where its
/// tile is empty.
pub open spec fn region_reads_its_tile(target: TargetModel, region: GpuMirrorCopyRegion) -> bool {
    if region.initialized {
        &&& target.residents.contains_key(region.slot)
        &&& target.residents[region.slot] == region.key
        &&& region.slot.page.0 < target.pages
    } else {
        !target.residents.contains_key(region.slot)
    }
}

proof fn lemma_regions(target: TargetModel, regions: Seq<GpuMirrorCopyRegion>)
    ensures
        regions_fault(target, regions) is None <==> forall|r: int|
            0 <= r < regions.len() ==> region_reads_its_tile(target, #[trigger] regions[r]),
    decreases regions.len(),
{
    if regions.len() > 0 {
        let rest = regions.drop_last();
        lemma_regions(target, rest);
        assert(forall|r: int| #![trigger regions[r]] 0 <= r < rest.len() ==> rest[r] == regions[r]);
        assert(regions[regions.len() - 1] == regions.last());
        if regions_fault(target, regions) is None {
            assert forall|r: int| 0 <= r < regions.len() implies region_reads_its_tile(
                target,
                #[trigger] regions[r],
            ) by {
                if r < rest.len() {
                    assert(region_reads_its_tile(target, rest[r]));
                }
            }
        } else if forall|r: int|
            0 <= r < regions.len() ==> region_reads_its_tile(target, #[trigger] regions[r]) {
            assert forall|r: int| 0 <= r < rest.len() implies region_reads_its_tile(
                target,
                #[trigger] rest[r],
            ) by {
                assert(region_reads_its_tile(target, regions[r]));
            }
        }
    }
}

/// A batch can be read back from the target.
pub open spec fn batch_is_readable(
    target: TargetModel,
    limits: DeviceLimits,
    batch: BatchPlanModel,
) -> bool {
    &&& batch.layout == target.layout
    &&& batch.byte_len <= limits.max_buffer_size
    &&& forall|r: int|
        0 <= r < batch.regions.len() ==> region_reads_its_tile(target, #[trigger] batch.regions[r])
}

proof fn lemma_batches(target: TargetModel, limits: DeviceLimits, batches: Seq<BatchPlanModel>)
    ensures
        batches_fault(target, limits, batches) is None <==> forall|b: int|
            0 <= b < batches.len() ==> batch_is_readable(target, limits, #[trigger] batches[b]),
    decreases batches.len(),
{
    if batches.len() > 0 {
        let rest = batches.drop_last();
        lemma_batches(target, limits, rest);
        lemma_regions(target, batches.last().regions);
        assert(forall|b: int| #![trigger batches[b]] 0 <= b < rest.len() ==> rest[b] == batches[b]);
        assert(batches[batches.len() - 1] == batches.last());
        assert(batch_fault(target, limits, batches.last()) is None <==> batch_is_readable(
            target,
            limits,
            batches.last(),
        ));
        if batches_fault(target, limits, batches) is None {
            assert forall|b: int| 0 <= b < batches.len() implies batch_is_readable(
                target,
                limits,
                #[trigger] batches[b],
            ) by {
                if b < rest.len() {
                    assert(batch_is_readable(target, limits, rest[b]));
                }
            }
        } else if forall|b: int|
            0 <= b < batches.len() ==> batch_is_readable(target, limits, #[trigger] batches[b]) {
            assert forall|b: int| 0 <= b < rest.len() implies batch_is_readable(
                target,
                limits,
                #[trigger] rest[b],
            ) by {
                assert(batch_is_readable(target, limits, batches[b]));
            }
        }
    }
}

/// A revision is captured just where it has batches and each can be read back: it belongs to the
/// target's layout, fits into a buffer, and every region of it finds its tile, or finds the place empty
/// where its tile is.
pub proof fn law_capture_finds_every_tile(
    target: TargetModel,
    limits: DeviceLimits,
    plan: ReadbackPlanModel,
)
    ensures
        capture_error(target, limits, plan) is None <==> plan.batches.len() > 0 && forall|b: int|
            0 <= b < plan.batches.len() ==> batch_is_readable(
                target,
                limits,
                #[trigger] plan.batches[b],
            ),
{
    lemma_batches(target, limits, plan.batches);
}

/// The batches that a capture still has to bring, the one under way first.
pub open spec fn batches_left(capture: CaptureModel) -> Seq<BatchPlanModel> {
    match capture.active {
        Some(active) => seq![active.plan] + capture.queued,
        None => capture.queued,
    }
}

/// A capture brings the batches of its plan, all of them and in their order: it starts with all, the
/// next one is put under way, and a batch that is finished is done.
pub proof fn law_capture_brings_the_batches_in_order(plan: ReadbackPlanModel, capture: CaptureModel)
    ensures
        batches_left(captured(plan)) == plan.batches,
        captured(plan).revision == plan.revision,
        captured(plan).remaining == plan.byte_len,
        !captured(plan).submitted,
        capture.active is None ==> {
            &&& batches_left(readback_prepared(capture)) == batches_left(capture)
            &&& readback_prepared(capture).remaining == capture.remaining
            &&& capture.queued.len() > 0 ==> readback_prepared(capture).active is Some
        },
        capture.active is Some ==> {
            &&& batches_left(capture.finished()) == batches_left(capture).drop_first()
            &&& capture.finished().active is None
            &&& capture.finished().remaining == capture.remaining - batches_left(
                capture,
            )[0].byte_len
        },
{
    if capture.active is None && capture.queued.len() > 0 {
        assert(seq![capture.queued[0]] + capture.queued.drop_first() =~= capture.queued);
    }
    if capture.active is Some {
        assert(batches_left(capture).drop_first() =~= capture.queued);
    }
}

/// The rectangle lies in its tile and on the canvas.
pub open spec fn lies_on_canvas(
    geometry: RasterGeometry,
    key: LayerTileKey,
    bounds: RectU32,
) -> bool {
    &&& bounds@.max_x <= geometry.tile_size
    &&& bounds@.max_y <= geometry.tile_size
    &&& key.tile.x * geometry.tile_size + bounds@.max_x <= geometry.width
    &&& key.tile.y * geometry.tile_size + bounds@.max_y <= geometry.height
}

/// A region is accepted just where it lies in its tile and on the canvas.
pub proof fn law_regions_lie_on_the_canvas(
    geometry: RasterGeometry,
    key: LayerTileKey,
    bounds: RectU32,
)
    requires
        geometry.valid(),
        bounds@.nonempty(),
        0 <= bounds@.min_x,
        0 <= bounds@.min_y,
    ensures
        bounds_error(geometry, key, bounds) is None <==> lies_on_canvas(geometry, key, bounds),
{
}

/// The regions of a revision are accepted just where each lies on the canvas, and those of one tile
/// agree on whether it holds pixels.
pub proof fn law_regions_agree_on_their_tiles(
    geometry: RasterGeometry,
    shapes: Seq<RegionShape>,
    n: int,
)
    requires
        0 <= n <= shapes.len(),
    ensures
        shapes_error(geometry, shapes, n) is None <==> {
            &&& forall|i: int|
                0 <= i < n ==> bounds_error(
                    geometry,
                    (#[trigger] shapes[i]).key,
                    shapes[i].bounds,
                ) is None
            &&& forall|i: int, j: int|
                #![trigger shapes[i], shapes[j]]
                0 <= i < n && 0 <= j < n && shapes[i].key == shapes[j].key ==> shapes[i].initialized
                    == shapes[j].initialized
        },
    decreases n,
{
    if n > 0 {
        law_regions_agree_on_their_tiles(geometry, shapes, n - 1);
        if shapes_error(geometry, shapes, n) is None {
            assert(!states_conflict(shapes, n - 1));
            assert forall|i: int, j: int|
                #![trigger shapes[i], shapes[j]]
                0 <= i < n && 0 <= j < n && shapes[i].key
                    == shapes[j].key implies shapes[i].initialized == shapes[j].initialized by {}
        }
    }
}

/// Patches are accepted just where their regions are, and each brings a pixel for every place, or none
/// where its tile is empty.
pub proof fn law_patches_bring_their_pixels(
    geometry: RasterGeometry,
    regions: Seq<GpuMirrorPatchRegion>,
    n: int,
)
    requires
        0 <= n <= regions.len(),
    ensures
        patches_error(geometry, regions, n) is None <==> {
            &&& shapes_error(geometry, patch_shapes(regions), n) is None
            &&& forall|i: int|
                #![trigger regions[i]]
                0 <= i < n ==> regions[i]@.pixels.len() == if regions[i]@.initialized {
                    (regions[i]@.bounds.max_x - regions[i]@.bounds.min_x) * (
                    regions[i]@.bounds.max_y - regions[i]@.bounds.min_y)
                } else {
                    0
                }
        },
    decreases n,
{
    if n > 0 {
        law_patches_bring_their_pixels(geometry, regions, n - 1);
    }
}

/// Pixels that arrive go to the edit that they were asked for, if it still waits for them: from then on
/// it can be undone and redone. Where it was let go meanwhile, the pixels only reach the base. The
/// request is done either way, and no other is touched.
pub proof fn law_arrived_pixels_reach_their_edit(
    model: ResidentModel,
    handoff: HandoffModel,
    completion: GpuResidentMirrorCompletion,
    after: ResidentModel,
    record: RecordModel<GpuRasterRecoveryCommand>,
)
    requires
        handoff_retried(
            model,
            handoff,
            Ok::<GpuResidentMirrorCompletion, GpuResidentDocumentError>(completion),
            after,
        ),
        model.recovery.timeline.valid(),
        model.recovery.spills.valid(),
        0 <= handoff.transition.byte_len(),
    ensures
        after.handoff is None,
        after.purposes == model.purposes.drop_first(),
        after.history == model.history,
        after.metadata == model.metadata,
        after.places == model.places,
        after.mirror == model.mirror,
        after.recovery.revision() == model.recovery.revision(),
        match handoff.purpose {
            GpuMirrorRecoveryPurpose::History(id) => if model.recovery.waiting(
                handoff.transition.revision,
            ) == Some(id) {
                &&& after.recovery.spills.command_for(id, GpuHistoryDirection::Undo) matches Ok(
                    command,
                )
                &&& command == handoff.transition.before
                &&& after.recovery.spills.command_for(id, GpuHistoryDirection::Redo) matches Ok(
                    command,
                )
                &&& command == handoff.transition.after
            } else {
                after.recovery.spills == model.recovery.spills
            },
            GpuMirrorRecoveryPurpose::ReconcileOnly => after.recovery.spills
                == model.recovery.spills,
        },
        completion.revision == handoff.revision,
        after.recovery.timeline.base.revision.0 >= handoff.snapshot.revision.0,
{
    let purpose = resolved_purpose(
        model.recovery,
        handoff.purpose,
        handoff.transition.revision,
    );
    law_mirror_hands_its_pixels_over(
        model.recovery,
        purpose,
        handoff.snapshot,
        handoff.transition,
        record,
    );
}

/// Pixels are offered to the edit that they were asked for only while that very edit waits for them;
/// otherwise they are offered to none.
pub proof fn law_pixels_are_offered_to_one_edit(
    model: ResidentModel,
    requested: GpuMirrorRecoveryPurpose,
    revision: DocumentRevision,
    id: GpuHistoryId,
)
    ensures
        resolved_purpose(model.recovery, requested, revision) == GpuMirrorRecoveryPurpose::History(
            id,
        ) <==> requested == GpuMirrorRecoveryPurpose::History(id) && model.recovery.waiting(revision)
            == Some(id),
{
}

/// Where arrived pixels cannot be handed over, they are kept for another try, and nothing else changes.
pub proof fn law_refused_pixels_are_kept(
    model: ResidentModel,
    handoff: HandoffModel,
    error: GpuResidentDocumentError,
    after: ResidentModel,
)
    requires
        handoff_retried(
            model,
            handoff,
            Err::<GpuResidentMirrorCompletion, GpuResidentDocumentError>(error),
            after,
        ),
    ensures
        after.handoff matches Some(kept) && {
            &&& kept.snapshot == handoff.snapshot
            &&& kept.transition == handoff.transition
            &&& kept.purpose == handoff.purpose
            &&& kept.revision == handoff.revision
            &&& kept.applied == handoff.applied
        },
        after.purposes == model.purposes,
        after.recovery == model.recovery,
        after.mirror == model.mirror,
        after.history == model.history,
        after.metadata == model.metadata,
        after.places == model.places,
{
}

/// The room for a canvas is room for each of its pixels, as far as the atlas has places for them: whole
/// tiles cover the canvas, and none is missing.
pub proof fn law_canvas_room_covers_the_canvas(width: int, height: int, layout: AtlasGeometry)
    requires
        layout.valid(),
        0 <= width,
        0 <= height,
    ensures
        ceiling(width, layout.tile_size) * layout.tile_size >= width,
        ceiling(width, layout.tile_size) * layout.tile_size < width + layout.tile_size,
        ceiling(height, layout.tile_size) * layout.tile_size >= height,
        ceiling(width, layout.tile_size) * ceiling(height, layout.tile_size) < layout.capacity()
            ==> canvas_pixels(width, height, layout) == ceiling(width, layout.tile_size) * ceiling(
            height,
            layout.tile_size,
        ) * (layout.tile_size * layout.tile_size),
        ceiling(width, layout.tile_size) * ceiling(height, layout.tile_size) >= layout.capacity()
            ==> canvas_pixels(width, height, layout) == layout.capacity() * (layout.tile_size
            * layout.tile_size),
{
    lemma_ceiling(width, layout.tile_size);
    lemma_ceiling(height, layout.tile_size);
}

proof fn lemma_ceiling(value: int, step: int)
    requires
        0 <= value,
        0 < step,
    ensures
        value <= ceiling(value, step) * step < value + step,
{
    vstd::arithmetic::div_mod::lemma_fundamental_div_mod(value + step - 1, step);
    let steps = ceiling(value, step);
    assert(step * steps == steps * step) by (nonlinear_arith);
}

/// Exact pixels are replayed just on the layer that they belong to, with tiles of the same size, and
/// only where each of their tiles lies on the canvas.
pub proof fn law_exact_pixels_belong_to_their_layer(
    layer: LayerId,
    geometry: RasterGeometry,
    command: ExactCommandModel,
)
    ensures
        exact_replay_error(layer, geometry, command) is None <==> {
            &&& command.layer == layer
            &&& command.tile_size == geometry.tile_size
            &&& forall|t: int|
                #![trigger command.tiles[t]]
                0 <= t < command.tiles.len() ==> command.tiles[t].coord.x * geometry.tile_size
                    < geometry.width && command.tiles[t].coord.y * geometry.tile_size
                    < geometry.height
        },
{
    lemma_inside(geometry, command.tiles, command.tiles.len() as int);
}

proof fn lemma_inside(geometry: RasterGeometry, tiles: Seq<ExactTileModel>, n: int)
    requires
        0 <= n <= tiles.len(),
    ensures
        first_outside(geometry, tiles, n) is None <==> forall|t: int|
            #![trigger tiles[t]]
            0 <= t < n ==> tiles[t].coord.x * geometry.tile_size < geometry.width
                && tiles[t].coord.y * geometry.tile_size < geometry.height,
    decreases n,
{
    if n > 0 {
        lemma_inside(geometry, tiles, n - 1);
    }
}

proof fn lemma_planned(
    plan: ReadbackPlanModel,
    batches: Seq<GpuMirrorPatchBatch>,
    n: int,
    b: int,
)
    requires
        0 <= b < n,
        crate::gpu_raster_recovery::batches_fault(plan, batches, n) is None,
    ensures
        crate::gpu_raster_recovery::batch_fault(plan, batches, b) is None,
    decreases n,
{
    if b < n - 1 {
        lemma_planned(plan, batches, n - 1, b);
    }
}

/// Batches make a transition only where they are those of the plan: as many, all of its revision, each
/// at its own place, with as many bytes as planned, and the same tiles, bounds and states.
pub proof fn law_transition_takes_the_planned_batches(
    plan: ReadbackPlanModel,
    batches: Seq<GpuMirrorPatchBatch>,
    a: int,
    b: int,
    r: int,
)
    requires
        mirror_fault(plan, batches) is None,
        0 <= a < b < batches.len(),
        0 <= r < batches[b]@.regions.len(),
    ensures
        batches.len() == plan.batches.len(),
        batches[b]@.revision == plan.revision,
        0 <= batches[b]@.index < plan.batches.len(),
        batches[a]@.index != batches[b]@.index,
        batches[b]@.byte_len == plan.batches[batches[b]@.index].byte_len,
        batches[b]@.regions.len() == plan.batches[batches[b]@.index].regions.len(),
        batches[b]@.regions[r].key == plan.batches[batches[b]@.index].regions[r].key,
        batches[b]@.regions[r].bounds == plan.batches[batches[b]@.index].regions[r].local_bounds@,
        batches[b]@.regions[r].initialized
            == plan.batches[batches[b]@.index].regions[r].initialized,
{
    lemma_planned(plan, batches, batches.len() as int, b);
    assert(batches[a].index != batches[b].index);
    let planned = plan.batches[batches[b]@.index].regions;
    let raw = batches[b].regions@;
    assert(copy_shapes(planned).len() == patch_shapes(raw).len());
    assert(copy_shapes(planned)[r] == patch_shapes(raw)[r]);
}

/// When the last batch of a revision arrives, what is handed over belongs together: the pixels of the
/// revision, the change that leads to it from the mirror as it was, and the revisions that the mirror
/// has reached, in order. An earlier batch hands nothing over.
pub proof fn law_completed_revision_is_handed_over(
    model: DispatcherModel,
    batch: GpuMirrorPatchBatch,
    after: DispatcherModel,
    completion: GpuMirrorDispatchCompletion,
)
    requires
        completed_with(model, batch, after, completion),
        model.queue.len() > 0,
        model.queue.len() == model.reconciler.pending.len(),
        revisions_increase(model.reconciler.pending),
        model.reconciler.pending[0].revision == model.queue[0].plan.revision,
        batch@.revision == model.queue[0].plan.revision,
    ensures
        completion.revision == model.queue[0].plan.revision,
        completion.byte_len == batch@.byte_len,
        completion.batch_index == model.queue[0].received.len(),
        model.queue[0].received.len() + 1 < model.queue[0].plan.batches.len() ==> {
            &&& completion.recovery_snapshot is None
            &&& completion.recovery_transition is None
            &&& completion.applied_revisions@.len() == 0
            &&& after.reconciler.mirror == model.reconciler.mirror
        },
        model.queue[0].received.len() + 1 >= model.queue[0].plan.batches.len() ==> {
            &&& completion.recovery_snapshot matches Some(snapshot)
            &&& completion.recovery_transition matches Some(transition)
            &&& snapshot@.revision == completion.revision
            &&& snapshot@.geometry == model.reconciler.mirror.geometry
            &&& transition@.revision == completion.revision
            &&& transition@.source_revision == model.reconciler.mirror.revision
            &&& completion.applied_revisions@.len() == model.queue[0].after.len() + 1
            &&& completion.applied_revisions@[0] == completion.revision
            &&& completion.applied_revisions@.last() == after.reconciler.mirror.revision
        },
{
    if model.queue[0].received.len() + 1 >= model.queue[0].plan.batches.len() {
        law_finished_revision_leaves_the_queue(model, batch@);
        let pending = model.reconciler.pending;
        let found = pending_position(pending, batch@.revision)->0;
        assert(pending[0].revision == batch@.revision);
        assert(pending[found].revision == pending[0].revision);
        assert(found == 0) by {
            if 0 < found {
                assert(pending[0].revision.0 < pending[found].revision.0);
            }
        }
        let behind = model.queue[0].after;
        let all = seq![model.queue[0].plan.revision] + structural_revisions(behind);
        if behind.len() > 0 {
            assert(all.last() == behind.last().revision);
        }
    }
}

} // verus!
