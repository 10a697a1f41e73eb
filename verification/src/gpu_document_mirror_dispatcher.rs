//! Reads captured revisions back one after the other, within limits on memory.

use crate::device::DeviceLimits;
use crate::document::{DocumentRevision, LayerId};
use crate::gpu_cpu_mirror::{
    copy_shapes, layer_tiles, lemma_shapes_prefix, mirror_geometry, patch_shapes, patches_error,
    pixel_error, plan_shapes, region_models, shape_error, shapes_error, states_conflict,
    GpuCpuMirror, GpuCpuMirrorSnapshot, GpuMirrorPatchBatch, GpuMirrorPatchRegion,
    GpuMirrorReconcileError, MirrorModel, PatchBatchModel, RegionShape,
};
use crate::gpu_document_mirror::{
    batch_bytes, plan_totals, BatchPlanModel, GpuMirrorReadbackPlan, ReadbackPlanModel,
    DEFAULT_RECONCILIATION_BYTES_IN_FLIGHT,
};
use crate::gpu_document_undo::GPU_UNDO_BLOCK_BYTES;
use crate::gpu_mirror_capture::{
    after_finish_error, batch_read, capture_matches, finish_error, has_pixels, lemma_front_bytes,
    map_begin_error, map_begun, mapped_bytes, next_readback_error, discard_error, readback_prepared,
    readback_returned, readback_sent, region_read, regions_read, still_pending, submission_error,
    CaptureModel, GpuMirrorMapEvent, GpuMirrorReadbackError, GpuMirrorRevisionCapture,
    ReadbackMapState,
};
use crate::gpu_mirror_reconciler::{
    advanced, awaited, completion_error, drained, is_complete, pending_position,
    reconciler_valid, registration_error, with_received, GpuMirrorReconciler, PendingModel,
    ReconcilerModel,
};
use crate::gpu_mirror_structure::{
    restructured, structure_fits, with_layer, GpuMirrorStructure, StructureModel,
};
use crate::gpu_raster_transition::{
    transition_built, transition_fails, GpuExactRasterRecoveryTransition,
    GpuExactRasterRecoveryTransitionError,
};
use crate::raster_layer::RasterGeometry;
use vstd::prelude::*;

verus! {

pub const DEFAULT_GPU_MIRROR_SNAPSHOT_BYTES: u64 = 64 * 1024 * 1024;

pub const DEFAULT_GPU_MIRROR_STAGING_BYTES: u64 = DEFAULT_RECONCILIATION_BYTES_IN_FLIGHT;

#[derive(Clone, Debug, PartialEq, Eq)]
#[allow(inconsistent_fields)]
pub enum GpuMirrorDispatchError {
    InvalidSnapshotBudget { requested: u64, minimum: u64 },
    InvalidStagingBudget { requested: u64, minimum: u64 },
    EmptyRevisionPlan,
    CaptureNotSubmitted,
    CapturePlanMismatch,
    CaptureExceedsSnapshotBudget { requested: u64, maximum: u64 },
    SnapshotBudgetExhausted { resident: u64, requested: u64, maximum: u64 },
    BatchExceedsStagingBudget {
        revision: DocumentRevision,
        index: u32,
        requested: u64,
        maximum: u64,
    },
    SnapshotByteOverflow,
    StagingBudgetInvariant { requested: u64, maximum: u64 },
    NoPendingRevision,
    CompletedRevisionNotApplied(DocumentRevision),
    /// A change of whole layers does not follow the newest revision.
    RevisionNotNext {
        latest: DocumentRevision,
        source: DocumentRevision,
        revision: DocumentRevision,
    },
    LayerGeometryMismatch(LayerId),
    Readback(GpuMirrorReadbackError),
    Reconcile(GpuMirrorReconcileError),
    Transition(GpuExactRasterRecoveryTransitionError),
}

impl From<GpuMirrorReadbackError> for GpuMirrorDispatchError {
    fn from(error: GpuMirrorReadbackError) -> Self {
        GpuMirrorDispatchError::Readback(error)
    }
}

impl vstd::std_specs::convert::FromSpecImpl<GpuMirrorReadbackError> for GpuMirrorDispatchError {
    open spec fn obeys_from_spec() -> bool {
        true
    }

    open spec fn from_spec(error: GpuMirrorReadbackError) -> Self {
        GpuMirrorDispatchError::Readback(error)
    }
}

impl From<GpuMirrorReconcileError> for GpuMirrorDispatchError {
    fn from(error: GpuMirrorReconcileError) -> Self {
        GpuMirrorDispatchError::Reconcile(error)
    }
}

impl vstd::std_specs::convert::FromSpecImpl<GpuMirrorReconcileError> for GpuMirrorDispatchError {
    open spec fn obeys_from_spec() -> bool {
        true
    }

    open spec fn from_spec(error: GpuMirrorReconcileError) -> Self {
        GpuMirrorDispatchError::Reconcile(error)
    }
}

#[derive(Debug)]
pub(crate) struct StructuralRevision {
    pub(crate) revision: DocumentRevision,
    pub(crate) change: GpuMirrorStructure,
}

/// A revision that changes whole layers.
pub struct StructuralModel {
    pub revision: DocumentRevision,
    pub change: StructureModel,
}

pub(crate) open(crate) spec fn structural_models(revisions: Seq<StructuralRevision>) -> Seq<
    StructuralModel,
> {
    Seq::new(
        revisions.len(),
        |i: int|
            StructuralModel { revision: revisions[i].revision, change: revisions[i].change@ },
    )
}

#[derive(Debug)]
pub(crate) struct QueuedRevision {
    pub(crate) plan: GpuMirrorReadbackPlan,
    pub(crate) capture: GpuMirrorRevisionCapture,
    pub(crate) received: Vec<GpuMirrorPatchBatch>,
    pub(crate) after: Vec<StructuralRevision>,
}

/// A revision that is being read back, what has come of it, and the changes of
/// whole layers that wait for it.
pub struct QueuedModel {
    pub plan: ReadbackPlanModel,
    pub capture: CaptureModel,
    pub received: Seq<GpuMirrorPatchBatch>,
    pub after: Seq<StructuralModel>,
}

impl View for QueuedRevision {
    type V = QueuedModel;

    open(crate) spec fn view(&self) -> QueuedModel {
        QueuedModel {
            plan: self.plan@,
            capture: self.capture@,
            received: self.received@,
            after: structural_models(self.after@),
        }
    }
}

impl QueuedRevision {
    pub(crate) open(crate) spec fn wf(self) -> bool {
        &&& self.capture.wf()
        &&& forall|i: int| 0 <= i < self.after@.len() ==> (#[trigger] self.after@[i]).change.wf()
    }
}

pub(crate) open(crate) spec fn queue_models(queue: Seq<QueuedRevision>) -> Seq<QueuedModel> {
    Seq::new(queue.len(), |i: int| queue[i]@)
}

/// Snapshots of the device's pixels that are on their way into the mirror.
#[derive(Debug)]
pub struct GpuMirrorDispatcher {
    pub(crate) reconciler: GpuMirrorReconciler,
    pub(crate) queue: Vec<QueuedRevision>,
    pub(crate) resident_snapshot_bytes: u64,
    pub(crate) max_snapshot_bytes: u64,
    pub(crate) max_staging_bytes: u64,
    pub(crate) retiring: Vec<LayerId>,
}

pub struct DispatcherModel {
    pub reconciler: ReconcilerModel,
    pub queue: Seq<QueuedModel>,
    pub resident: int,
    pub max_snapshot: u64,
    pub max_staging: u64,
    pub retiring: Seq<LayerId>,
}

impl View for GpuMirrorDispatcher {
    type V = DispatcherModel;

    open(crate) spec fn view(&self) -> DispatcherModel {
        DispatcherModel {
            reconciler: self.reconciler@,
            queue: queue_models(self.queue@),
            resident: self.resident_snapshot_bytes as int,
            max_snapshot: self.max_snapshot_bytes,
            max_staging: self.max_staging_bytes,
            retiring: self.retiring@,
        }
    }
}

/// The bytes of a revision that have not reached the reconciler.
pub open spec fn entry_bytes(entry: QueuedModel) -> int {
    batch_bytes(
        entry.plan.batches.subrange(
            entry.received.len() as int,
            entry.plan.batches.len() as int,
        ),
    )
}

pub open spec fn queue_bytes(queue: Seq<QueuedModel>) -> int
    decreases queue.len(),
{
    if queue.len() == 0 {
        0
    } else {
        queue_bytes(queue.drop_last()) + entry_bytes(queue.last())
    }
}

/// What the reconciler has of a revision: the batches that have come, in order.
pub open(crate) spec fn arrived(entry: QueuedModel) -> Seq<Option<PatchBatchModel>> {
    Seq::new(
        entry.plan.batches.len(),
        |k: int|
            if k < entry.received.len() {
                Some(entry.received[k]@)
            } else {
                None
            },
    )
}

/// The capture goes through the batches of the plan in order. It can be ahead
/// of what was received only once the last batch has been refused.
pub open spec fn capture_follows(entry: QueuedModel) -> bool {
    let batches = entry.plan.batches;
    let n = batches.len() as int;
    let done = entry.received.len() as int;
    match entry.capture.active {
        Some(active) => {
            &&& active.plan == batches[done]
            &&& entry.capture.queued == batches.subrange(done + 1, n)
        },
        None => {
            ||| entry.capture.queued == batches.subrange(done, n)
            ||| done + 1 == n && entry.capture.queued.len() == 0
        },
    }
}

pub open(crate) spec fn entry_aligned(entry: QueuedModel, pending: PendingModel) -> bool {
    &&& plan_totals(entry.plan)
    &&& entry.capture.valid()
    &&& entry.capture.submitted
    &&& entry.capture.revision == entry.plan.revision
    &&& entry.received.len() < entry.plan.batches.len()
    &&& pending.revision == entry.plan.revision
    &&& pending.expected == entry.plan.batches
    &&& pending.received == arrived(entry)
    &&& capture_follows(entry)
}

/// Nothing has been read back of the revision.
pub open spec fn entry_untouched(entry: QueuedModel) -> bool {
    &&& entry.received.len() == 0
    &&& entry.capture.active is None
}

/// Changes of whole layers come in order, after the revision they wait for.
pub open spec fn structures_ordered(
    geometry: RasterGeometry,
    source: DocumentRevision,
    after: Seq<StructuralModel>,
) -> bool {
    &&& forall|k: int|
        0 <= k < after.len() ==> source.0 < (#[trigger] after[k]).revision.0 && structure_fits(
            geometry,
            after[k].change,
        )
    &&& forall|j: int, k: int|
        #![trigger after[j], after[k]]
        0 <= j < k < after.len() ==> after[j].revision.0 < after[k].revision.0
}

impl DispatcherModel {
    /// The newest revision that the mirror has or will have.
    pub open spec fn newest(self) -> DocumentRevision {
        if self.queue.len() > 0 && self.queue.last().after.len() > 0 {
            self.queue.last().after.last().revision
        } else {
            self.reconciler.latest
        }
    }

    pub open(crate) spec fn valid(self) -> bool {
        &&& self.queue.len() == self.reconciler.pending.len()
        &&& forall|i: int|
            #![trigger self.queue[i]]
            0 <= i < self.queue.len() ==> {
                &&& entry_aligned(self.queue[i], self.reconciler.pending[i])
                &&& structures_ordered(
                    self.reconciler.mirror.geometry,
                    self.queue[i].plan.revision,
                    self.queue[i].after,
                )
                &&& forall|b: int|
                    0 <= b < self.queue[i].plan.batches.len() ==> 0 <= (
                    #[trigger] self.queue[i].plan.batches[b]).byte_len <= self.max_staging
                &&& i > 0 ==> entry_untouched(self.queue[i])
            }
        &&& forall|i: int, j: int, k: int|
            #![trigger self.queue[i].after[k], self.queue[j]]
            0 <= i < j < self.queue.len() && 0 <= k < self.queue[i].after.len()
                ==> self.queue[i].after[k].revision.0 < self.queue[j].plan.revision.0
        &&& self.resident == queue_bytes(self.queue)
        &&& self.resident <= self.max_snapshot
        &&& self.queue.len() == 0 ==> self.retiring.len() == 0
    }

    pub open spec fn with_front_capture(self, capture: CaptureModel) -> DispatcherModel {
        DispatcherModel {
            queue: self.queue.update(0, QueuedModel { capture, ..self.queue[0] }),
            ..self
        }
    }
}

/// The first batch that is too large for a staging buffer.
pub open spec fn first_over_budget(batches: Seq<BatchPlanModel>, maximum: u64) -> Option<
    BatchPlanModel,
>
    decreases batches.len(),
{
    if batches.len() == 0 {
        None
    } else {
        match first_over_budget(batches.drop_last(), maximum) {
            Some(batch) => Some(batch),
            None => if batches.last().byte_len > maximum {
                Some(batches.last())
            } else {
                None
            },
        }
    }
}

/// Why there is no room for a plan, if there is none.
pub open spec fn capacity_error(model: DispatcherModel, plan: ReadbackPlanModel) -> Option<
    GpuMirrorDispatchError,
> {
    if plan.batches.len() == 0 {
        Some(GpuMirrorDispatchError::EmptyRevisionPlan)
    } else if let Some(batch) = first_over_budget(plan.batches, model.max_staging) {
        Some(
            GpuMirrorDispatchError::BatchExceedsStagingBudget {
                revision: plan.revision,
                index: batch.index as u32,
                requested: batch.byte_len as u64,
                maximum: model.max_staging,
            },
        )
    } else if plan.byte_len > model.max_snapshot {
        Some(
            GpuMirrorDispatchError::CaptureExceedsSnapshotBudget {
                requested: plan.byte_len as u64,
                maximum: model.max_snapshot,
            },
        )
    } else if model.resident + plan.byte_len > u64::MAX {
        Some(GpuMirrorDispatchError::SnapshotByteOverflow)
    } else if model.resident + plan.byte_len > model.max_snapshot {
        Some(
            GpuMirrorDispatchError::SnapshotBudgetExhausted {
                resident: model.resident as u64,
                requested: plan.byte_len as u64,
                maximum: model.max_snapshot,
            },
        )
    } else {
        None
    }
}

/// Why a plan is not taken, if it is not.
pub open spec fn plan_error(model: DispatcherModel, plan: ReadbackPlanModel) -> Option<
    GpuMirrorDispatchError,
> {
    match capacity_error(model, plan) {
        Some(error) => Some(error),
        None => if model.reconciler.latest.0 < model.newest().0 && plan.revision.0
            <= model.newest().0 {
            Some(
                GpuMirrorDispatchError::Reconcile(
                    GpuMirrorReconcileError::RevisionNotNewer {
                        latest: model.newest(),
                        requested: plan.revision,
                    },
                ),
            )
        } else {
            match registration_error(model.reconciler, plan) {
                Some(error) => Some(GpuMirrorDispatchError::Reconcile(error)),
                None => None,
            }
        },
    }
}

/// Why a prepared capture is not taken, if it is not.
pub open spec fn capture_refusal(
    model: DispatcherModel,
    plan: ReadbackPlanModel,
    capture: CaptureModel,
) -> Option<GpuMirrorDispatchError> {
    if !capture_matches(capture, plan) {
        Some(GpuMirrorDispatchError::CapturePlanMismatch)
    } else {
        plan_error(model, plan)
    }
}

/// Why a submitted capture is not taken, if it is not.
pub open spec fn enqueue_error(
    model: DispatcherModel,
    plan: ReadbackPlanModel,
    capture: CaptureModel,
) -> Option<GpuMirrorDispatchError> {
    if !capture.submitted {
        Some(GpuMirrorDispatchError::CaptureNotSubmitted)
    } else {
        capture_refusal(model, plan, capture)
    }
}

pub open spec fn enqueued(
    model: DispatcherModel,
    plan: ReadbackPlanModel,
    capture: CaptureModel,
) -> DispatcherModel {
    DispatcherModel {
        reconciler: ReconcilerModel {
            mirror: model.reconciler.mirror,
            latest: plan.revision,
            pending: model.reconciler.pending.push(awaited(plan)),
        },
        queue: model.queue.push(
            QueuedModel { plan, capture, received: Seq::empty(), after: Seq::empty() },
        ),
        resident: model.resident + plan.byte_len,
        ..model
    }
}

/// The reconciler after one change of whole layers.
pub open spec fn structure_applied(
    reconciler: ReconcilerModel,
    structural: StructuralModel,
) -> ReconcilerModel {
    ReconcilerModel {
        mirror: MirrorModel {
            revision: structural.revision,
            geometry: reconciler.mirror.geometry,
            tiles: restructured(reconciler.mirror.tiles, structural.change),
        },
        latest: if reconciler.pending.len() == 0 {
            structural.revision
        } else {
            reconciler.latest
        },
        pending: reconciler.pending,
    }
}

pub open spec fn structures_applied(
    reconciler: ReconcilerModel,
    after: Seq<StructuralModel>,
) -> ReconcilerModel
    decreases after.len(),
{
    if after.len() == 0 {
        reconciler
    } else {
        structure_applied(structures_applied(reconciler, after.drop_last()), after.last())
    }
}

/// The reconciler once the tiles of some layers are gone.
pub open spec fn layers_dropped(reconciler: ReconcilerModel, layers: Seq<LayerId>) -> ReconcilerModel
    decreases layers.len(),
{
    if layers.len() == 0 {
        reconciler
    } else {
        let rest = layers_dropped(reconciler, layers.drop_last());
        ReconcilerModel {
            mirror: MirrorModel {
                tiles: with_layer(rest.mirror.tiles, layers.last(), Map::empty()),
                ..rest.mirror
            },
            ..rest
        }
    }
}

pub open spec fn structural_revisions(after: Seq<StructuralModel>) -> Seq<DocumentRevision> {
    Seq::new(after.len(), |i: int| after[i].revision)
}

/// The dispatcher after a batch that is not the last of its revision.
pub open(crate) spec fn batch_taken(model: DispatcherModel, batch: GpuMirrorPatchBatch) -> DispatcherModel {
    let front = model.queue[0];
    DispatcherModel {
        reconciler: ReconcilerModel {
            pending: with_received(model.reconciler.pending, batch@),
            ..model.reconciler
        },
        queue: model.queue.update(
            0,
            QueuedModel {
                capture: front.capture.finished(),
                received: front.received.push(batch),
                ..front
            },
        ),
        resident: model.resident - batch@.byte_len,
        ..model
    }
}

/// The mirror right after the last batch of the front revision.
pub open(crate) spec fn revision_mirrored(model: DispatcherModel, batch: PatchBatchModel) -> MirrorModel {
    advanced(model.reconciler.mirror, with_received(model.reconciler.pending, batch)[0])
}

/// The dispatcher after the last batch of the front revision: what waited for it
/// has happened too.
pub open(crate) spec fn revision_finished(model: DispatcherModel, batch: PatchBatchModel) -> DispatcherModel {
    let applied = structures_applied(
        ReconcilerModel {
            mirror: revision_mirrored(model, batch),
            latest: model.reconciler.latest,
            pending: model.reconciler.pending.drop_first(),
        },
        model.queue[0].after,
    );
    let idle = model.queue.len() == 1;
    DispatcherModel {
        reconciler: if idle {
            layers_dropped(applied, model.retiring)
        } else {
            applied
        },
        queue: model.queue.drop_first(),
        resident: model.resident - batch.byte_len,
        retiring: if idle {
            Seq::empty()
        } else {
            model.retiring
        },
        ..model
    }
}

#[derive(Debug)]
pub struct GpuMirrorDispatchCompletion {
    pub revision: DocumentRevision,
    pub batch_index: u32,
    pub byte_len: u64,
    pub applied_revisions: Vec<DocumentRevision>,
    pub recovery_transition: Option<GpuExactRasterRecoveryTransition>,
    pub recovery_snapshot: Option<GpuCpuMirrorSnapshot>,
}

#[derive(Debug)]
pub struct GpuMirrorEnqueueFailure {
    pub error: GpuMirrorDispatchError,
    pub capture: GpuMirrorRevisionCapture,
}

/// Why a change of whole layers is not taken, if it is not.
pub open spec fn structure_error(
    model: DispatcherModel,
    source: DocumentRevision,
    revision: DocumentRevision,
    change: StructureModel,
) -> Option<GpuMirrorDispatchError> {
    if source != model.newest() || revision.0 != source.0 + 1 {
        Some(
            GpuMirrorDispatchError::RevisionNotNext { latest: model.newest(), source, revision },
        )
    } else if let StructureModel::InstallLayer(command) = change {
        if command.geometry != model.reconciler.mirror.geometry {
            Some(GpuMirrorDispatchError::LayerGeometryMismatch(command.layer))
        } else {
            None
        }
    } else {
        None
    }
}

/// A change of whole layers happens at once if nothing is being read back, and
/// after what is being read back otherwise.
pub open spec fn structure_registered(
    model: DispatcherModel,
    structural: StructuralModel,
) -> DispatcherModel {
    if model.queue.len() == 0 {
        DispatcherModel { reconciler: structure_applied(model.reconciler, structural), ..model }
    } else {
        let last = model.queue.last();
        DispatcherModel {
            queue: model.queue.update(
                model.queue.len() - 1,
                QueuedModel { after: last.after.push(structural), ..last },
            ),
            ..model
        }
    }
}

proof fn lemma_front_queue_bytes(queue: Seq<QueuedModel>)
    requires
        queue.len() > 0,
    ensures
        queue_bytes(queue) == entry_bytes(queue[0]) + queue_bytes(queue.drop_first()),
    decreases queue.len(),
{
    if queue.len() > 1 {
        lemma_front_queue_bytes(queue.drop_last());
        assert(queue.drop_last().drop_first() =~= queue.drop_first().drop_last());
        assert(queue.drop_first().last() == queue.last());
    } else {
        assert(queue.drop_first() =~= Seq::empty());
        assert(queue.drop_last() =~= Seq::empty());
    }
}

/// Changing one entry without changing what it owes keeps the total.
proof fn lemma_same_bytes(queue: Seq<QueuedModel>, i: int, entry: QueuedModel)
    requires
        0 <= i < queue.len(),
        entry_bytes(entry) == entry_bytes(queue[i]),
    ensures
        queue_bytes(queue.update(i, entry)) == queue_bytes(queue),
    decreases queue.len(),
{
    let after = queue.update(i, entry);
    if i < queue.len() - 1 {
        lemma_same_bytes(queue.drop_last(), i, entry);
        assert(after.drop_last() =~= queue.drop_last().update(i, entry));
    } else {
        assert(after.drop_last() =~= queue.drop_last());
    }
}

proof fn lemma_over_budget(batches: Seq<BatchPlanModel>, maximum: u64, n: int)
    requires
        0 <= n <= batches.len(),
        first_over_budget(batches.subrange(0, n), maximum) is Some,
    ensures
        first_over_budget(batches, maximum) == first_over_budget(batches.subrange(0, n), maximum),
    decreases batches.len() - n,
{
    if n == batches.len() {
        assert(batches.subrange(0, n) =~= batches);
    } else {
        assert(batches.subrange(0, n + 1).drop_last() =~= batches.subrange(0, n));
        lemma_over_budget(batches, maximum, n + 1);
    }
}

proof fn lemma_within_budget(batches: Seq<BatchPlanModel>, maximum: u64, b: int)
    requires
        first_over_budget(batches, maximum) is None,
        0 <= b < batches.len(),
    ensures
        batches[b].byte_len <= maximum,
    decreases batches.len(),
{
    if b < batches.len() - 1 {
        lemma_within_budget(batches.drop_last(), maximum, b);
    }
}

proof fn lemma_shapes_ok(geometry: RasterGeometry, shapes: Seq<RegionShape>, n: int, i: int)
    requires
        shapes_error(geometry, shapes, n) is None,
        0 <= i < n,
    ensures
        shape_error(geometry, shapes, i) is None,
    decreases n,
{
    if i < n - 1 {
        lemma_shapes_ok(geometry, shapes, n - 1, i);
    }
}

/// What holds of all shapes of a plan holds of those of one batch.
proof fn lemma_batch_shapes(
    geometry: RasterGeometry,
    batches: Seq<BatchPlanModel>,
    b: int,
    r: int,
)
    requires
        shapes_error(geometry, plan_shapes(batches), plan_shapes(batches).len() as int) is None,
        0 <= b < batches.len(),
        0 <= r < batches[b].regions.len(),
    ensures
        shape_error(geometry, copy_shapes(batches[b].regions), r) is None,
{
    let all = plan_shapes(batches);
    let own = copy_shapes(batches[b].regions);
    let prefix = batches.subrange(0, b + 1);
    assert(prefix.drop_last() =~= batches.subrange(0, b));
    assert(prefix.last() == batches[b]);
    lemma_shapes_prefix(batches, b + 1);
    let start = plan_shapes(batches.subrange(0, b)).len() as int;
    assert forall|k: int| 0 <= k < own.len() implies all[start + k] == #[trigger] own[k] by {
        assert(plan_shapes(prefix)[start + k] == own[k]);
    }
    lemma_shapes_ok(geometry, all, all.len() as int, start + r);
    if states_conflict(own, r) {
        let j = choose|j: int|
            0 <= j < r && (#[trigger] own[j]).key == own[r].key && own[j].initialized
                != own[r].initialized;
        assert(all[start + j] == own[j]);
        assert(all[start + r] == own[r]);
        assert(states_conflict(all, start + r));
    }
    assert(all[start + r] == own[r]);
}

/// Patches that were read for a batch of a plan that was accepted pass every check.
proof fn lemma_read_patches_pass(
    geometry: RasterGeometry,
    batches: Seq<BatchPlanModel>,
    b: int,
    mapped: Seq<u8>,
    regions: Seq<GpuMirrorPatchRegion>,
    n: int,
)
    requires
        shapes_error(geometry, plan_shapes(batches), plan_shapes(batches).len() as int) is None,
        0 <= b < batches.len(),
        regions_read(batches[b].regions, mapped, region_models(regions)),
        0 <= n <= regions.len(),
    ensures
        patches_error(geometry, regions, n) is None,
        copy_shapes(batches[b].regions) == patch_shapes(regions),
    decreases n,
{
    let expected = batches[b].regions;
    let models = region_models(regions);
    assert forall|i: int| 0 <= i < expected.len() implies {
        &&& #[trigger] copy_shapes(expected)[i] == patch_shapes(regions)[i]
        &&& pixel_error(regions[i]@) is None
    } by {
        assert(region_read(expected[i], mapped, models[i]));
        assert(models[i] == regions[i]@);
        assert(regions[i].local_bounds@ == expected[i].local_bounds@);
        assert(regions[i].local_bounds == expected[i].local_bounds);
    }
    assert(copy_shapes(expected) =~= patch_shapes(regions));
    if n > 0 {
        lemma_read_patches_pass(geometry, batches, b, mapped, regions, n - 1);
        lemma_batch_shapes(geometry, batches, b, n - 1);
        assert(copy_shapes(expected)[n - 1] == patch_shapes(regions)[n - 1]);
    }
}

/// The reconciler takes every batch that is read back for the front revision.
proof fn lemma_batch_accepted(
    model: DispatcherModel,
    batch: GpuMirrorPatchBatch,
    mapped: Seq<u8>,
)
    requires
        reconciler_valid(model.reconciler),
        model.valid(),
        model.queue.len() > 0,
        model.queue[0].capture.active is Some,
        batch_read(model.queue[0].capture.active->0.plan, mapped, batch@),
    ensures
        completion_error(model.reconciler, &batch) is None,
        with_received(model.reconciler.pending, batch@) == model.reconciler.pending.update(
            0,
            PendingModel {
                received: arrived(
                    QueuedModel {
                        received: model.queue[0].received.push(batch),
                        ..model.queue[0]
                    },
                ),
                ..model.reconciler.pending[0]
            },
        ),
{
    let entry = model.queue[0];
    let pending = model.reconciler.pending;
    let geometry = model.reconciler.mirror.geometry;
    let done = entry.received.len() as int;
    let plan = entry.capture.active->0.plan;
    assert(entry_aligned(entry, pending[0]));
    assert(plan == entry.plan.batches[done]);
    assert(pending[0].expected[done] == plan);
    assert(plan.index == done && plan.revision == pending[0].revision);
    lemma_read_patches_pass(
        geometry,
        entry.plan.batches,
        done,
        mapped,
        batch.regions@,
        batch.regions@.len() as int,
    );
    assert(batch@.regions == region_models(batch.regions@));
    assert(pending[0].revision == batch@.revision);
    let p = choose|i: int| 0 <= i < pending.len() && (#[trigger] pending[i]).revision
        == batch@.revision;
    if p > 0 {
        assert(pending[0].revision.0 < pending[p].revision.0);
    }
    assert(pending_position(pending, batch@.revision) == Some(0int));
    assert(arrived(entry)[done] is None);
    let after = QueuedModel { received: entry.received.push(batch), ..entry };
    assert(pending[0].received.update(done, Some(batch@)) =~= arrived(after));
}

/// One more batch leaves the front short of complete, or completes it alone.
proof fn lemma_batch_drains(model: DispatcherModel, batch: GpuMirrorPatchBatch, mapped: Seq<u8>)
    requires
        reconciler_valid(model.reconciler),
        model.valid(),
        model.queue.len() > 0,
        model.queue[0].capture.active is Some,
        batch_read(model.queue[0].capture.active->0.plan, mapped, batch@),
    ensures
        ({
            let entry = model.queue[0];
            let waiting = with_received(model.reconciler.pending, batch@);
            let last = entry.received.len() + 1 == entry.plan.batches.len();
            let after = drained(model.reconciler.mirror, waiting);
            &&& entry.capture.finished().complete() == last
            &&& if last {
                after == (
                    revision_mirrored(model, batch@),
                    model.reconciler.pending.drop_first(),
                    seq![entry.plan.revision],
                )
            } else {
                after == (model.reconciler.mirror, waiting, Seq::<DocumentRevision>::empty())
            }
        }),
{
    let entry = model.queue[0];
    let pending = model.reconciler.pending;
    let n = entry.plan.batches.len() as int;
    let done = entry.received.len() as int;
    lemma_batch_accepted(model, batch, mapped);
    assert(entry_aligned(entry, pending[0]));
    let waiting = with_received(pending, batch@);
    let grown = QueuedModel { received: entry.received.push(batch), ..entry };
    assert(waiting[0].received == arrived(grown));
    if done + 1 == n {
        assert forall|i: int| 0 <= i < waiting[0].received.len() implies (
        #[trigger] waiting[0].received[i]) is Some by {
            assert(arrived(grown)[i] is Some);
        }
        assert(is_complete(waiting[0]));
        assert(waiting.drop_first() =~= pending.drop_first());
        let rest = pending.drop_first();
        if rest.len() > 0 {
            assert(rest[0] == pending[1]);
            let next = model.queue[1];
            assert(entry_aligned(next, pending[1]));
            assert(entry_untouched(next));
            assert(arrived(next)[0] is None);
            assert(rest[0].received[0] is None);
            assert(!is_complete(rest[0]));
        }
        let mirror = revision_mirrored(model, batch@);
        assert(drained(mirror, rest) == (mirror, rest, Seq::<DocumentRevision>::empty()));
        assert(seq![entry.plan.revision] + Seq::<DocumentRevision>::empty() =~= seq![
            entry.plan.revision
        ]);
    } else {
        assert(arrived(grown)[done + 1] is None);
        assert(waiting[0].received[done + 1] is None);
        assert(!is_complete(waiting[0]));
    }
}

proof fn lemma_bytes_step(entry: QueuedModel, batch: GpuMirrorPatchBatch)
    requires
        entry.received.len() < entry.plan.batches.len(),
        batch@.byte_len == entry.plan.batches[entry.received.len() as int].byte_len,
    ensures
        entry_bytes(QueuedModel { received: entry.received.push(batch), ..entry }) == entry_bytes(
            entry,
        ) - batch@.byte_len,
{
    let n = entry.plan.batches.len() as int;
    let done = entry.received.len() as int;
    let before = entry.plan.batches.subrange(done, n);
    lemma_front_bytes(before);
    assert(before.drop_first() =~= entry.plan.batches.subrange(done + 1, n));
}

/// A batch that is not the last leaves everything in order.
proof fn lemma_batch_taken_valid(
    model: DispatcherModel,
    batch: GpuMirrorPatchBatch,
    mapped: Seq<u8>,
)
    requires
        reconciler_valid(model.reconciler),
        model.valid(),
        model.queue.len() > 0,
        model.queue[0].capture.active is Some,
        model.queue[0].capture.finished().valid(),
        batch_read(model.queue[0].capture.active->0.plan, mapped, batch@),
        !model.queue[0].capture.finished().complete(),
    ensures
        batch_taken(model, batch).valid(),
{
    let entry = model.queue[0];
    let after = batch_taken(model, batch);
    let n = entry.plan.batches.len() as int;
    let done = entry.received.len() as int;
    lemma_batch_accepted(model, batch, mapped);
    lemma_batch_drains(model, batch, mapped);
    assert(entry_aligned(entry, model.reconciler.pending[0]));
    lemma_bytes_step(entry, batch);
    lemma_front_queue_bytes(model.queue);
    lemma_front_queue_bytes(after.queue);
    assert(after.queue.drop_first() =~= model.queue.drop_first());
    let grown = after.queue[0];
    assert(entry_bytes(grown) == entry_bytes(
        QueuedModel { received: entry.received.push(batch), ..entry },
    ));
    assert(arrived(grown) =~= arrived(
        QueuedModel { received: entry.received.push(batch), ..entry },
    ));
    assert(entry_aligned(grown, after.reconciler.pending[0]));
    assert forall|i: int|
        #![trigger after.queue[i]]
        0 <= i < after.queue.len() implies {
        &&& entry_aligned(after.queue[i], after.reconciler.pending[i])
        &&& structures_ordered(
            after.reconciler.mirror.geometry,
            after.queue[i].plan.revision,
            after.queue[i].after,
        )
        &&& forall|b: int|
            0 <= b < after.queue[i].plan.batches.len() ==> 0 <= (
            #[trigger] after.queue[i].plan.batches[b]).byte_len <= after.max_staging
        &&& i > 0 ==> entry_untouched(after.queue[i])
    } by {
        assert(entry_aligned(model.queue[i], model.reconciler.pending[i]));
    }
    assert forall|i: int, j: int, k: int|
        #![trigger after.queue[i].after[k], after.queue[j]]
        0 <= i < j < after.queue.len() && 0 <= k < after.queue[i].after.len() implies
        after.queue[i].after[k].revision.0 < after.queue[j].plan.revision.0 by {
        assert(model.queue[i].after[k].revision.0 < model.queue[j].plan.revision.0);
    }
}

/// Everything is in order once the front is gone.
proof fn lemma_front_gone_valid(
    model: DispatcherModel,
    reconciler: ReconcilerModel,
    retiring: Seq<LayerId>,
    batch: GpuMirrorPatchBatch,
    mapped: Seq<u8>,
)
    requires
        reconciler_valid(model.reconciler),
        model.valid(),
        model.queue.len() > 0,
        model.queue[0].capture.active is Some,
        batch_read(model.queue[0].capture.active->0.plan, mapped, batch@),
        model.queue[0].received.len() + 1 == model.queue[0].plan.batches.len(),
        reconciler.pending == model.reconciler.pending.drop_first(),
        reconciler.mirror.geometry == model.reconciler.mirror.geometry,
        model.queue.len() == 1 ==> retiring.len() == 0,
    ensures
        (DispatcherModel {
            reconciler,
            queue: model.queue.drop_first(),
            resident: model.resident - batch@.byte_len,
            retiring,
            ..model
        }).valid(),
        batch@.byte_len <= model.resident,
{
    let entry = model.queue[0];
    let n = entry.plan.batches.len() as int;
    let done = entry.received.len() as int;
    assert(entry_aligned(entry, model.reconciler.pending[0]));
    lemma_batch_accepted(model, batch, mapped);
    lemma_bytes_step(entry, batch);
    assert(entry.plan.batches.subrange(n, n) =~= Seq::empty());
    lemma_front_queue_bytes(model.queue);
    let rest = model.queue.drop_first();
    let after = DispatcherModel {
        reconciler,
        queue: rest,
        resident: model.resident - batch@.byte_len,
        retiring,
        ..model
    };
    assert forall|i: int|
        #![trigger after.queue[i]]
        0 <= i < after.queue.len() implies {
        &&& entry_aligned(after.queue[i], after.reconciler.pending[i])
        &&& structures_ordered(
            after.reconciler.mirror.geometry,
            after.queue[i].plan.revision,
            after.queue[i].after,
        )
        &&& forall|b: int|
            0 <= b < after.queue[i].plan.batches.len() ==> 0 <= (
            #[trigger] after.queue[i].plan.batches[b]).byte_len <= after.max_staging
        &&& i > 0 ==> entry_untouched(after.queue[i])
    } by {
        assert(after.queue[i] == model.queue[i + 1]);
        assert(entry_aligned(model.queue[i + 1], model.reconciler.pending[i + 1]));
    }
    assert forall|i: int, j: int, k: int|
        #![trigger after.queue[i].after[k], after.queue[j]]
        0 <= i < j < after.queue.len() && 0 <= k < after.queue[i].after.len() implies
        after.queue[i].after[k].revision.0 < after.queue[j].plan.revision.0 by {
        assert(model.queue[i + 1].after[k].revision.0 < model.queue[j + 1].plan.revision.0);
    }
    assert forall|i: int| 0 <= i < rest.len() implies entry_bytes(#[trigger] rest[i]) >= 0 by {
        assert(rest[i] == model.queue[i + 1]);
        let entry = model.queue[i + 1];
        assert(entry_aligned(entry, model.reconciler.pending[i + 1]));
        lemma_nonnegative_bytes(
            entry.plan.batches.subrange(
                entry.received.len() as int,
                entry.plan.batches.len() as int,
            ),
        );
    }
    lemma_queue_bytes_nonnegative(rest);
}

proof fn lemma_nonnegative_bytes(batches: Seq<BatchPlanModel>)
    requires
        forall|b: int| 0 <= b < batches.len() ==> 0 <= (#[trigger] batches[b]).byte_len,
    ensures
        batch_bytes(batches) >= 0,
    decreases batches.len(),
{
    if batches.len() > 0 {
        lemma_nonnegative_bytes(batches.drop_last());
    }
}

proof fn lemma_queue_bytes_nonnegative(queue: Seq<QueuedModel>)
    requires
        forall|i: int| 0 <= i < queue.len() ==> entry_bytes(#[trigger] queue[i]) >= 0,
    ensures
        queue_bytes(queue) >= 0,
    decreases queue.len(),
{
    if queue.len() > 0 {
        assert forall|i: int| 0 <= i < queue.drop_last().len() implies entry_bytes(
            #[trigger] queue.drop_last()[i],
        ) >= 0 by {
            assert(queue.drop_last()[i] == queue[i]);
        }
        lemma_queue_bytes_nonnegative(queue.drop_last());
        assert(queue.last() == queue[queue.len() - 1]);
    }
}

/// Why the limits leave no room for a single block, if they do not.
pub open spec fn budget_error(max_snapshot: u64, max_staging: u64) -> Option<
    GpuMirrorDispatchError,
> {
    if max_snapshot < GPU_UNDO_BLOCK_BYTES {
        Some(
            GpuMirrorDispatchError::InvalidSnapshotBudget {
                requested: max_snapshot,
                minimum: GPU_UNDO_BLOCK_BYTES,
            },
        )
    } else if max_staging < GPU_UNDO_BLOCK_BYTES {
        Some(
            GpuMirrorDispatchError::InvalidStagingBudget {
                requested: max_staging,
                minimum: GPU_UNDO_BLOCK_BYTES,
            },
        )
    } else {
        None
    }
}

/// A dispatcher with nothing under way.
pub open spec fn idle_dispatcher(mirror: MirrorModel, max_snapshot: u64, max_staging: u64) -> DispatcherModel {
    DispatcherModel {
        reconciler: ReconcilerModel { mirror, latest: mirror.revision, pending: Seq::empty() },
        queue: Seq::empty(),
        resident: 0,
        max_snapshot,
        max_staging,
        retiring: Seq::empty(),
    }
}

/// Every batch that has not been read back, the active ones included.
pub open spec fn batches_left(queue: Seq<QueuedModel>) -> int
    decreases queue.len(),
{
    if queue.len() == 0 {
        0
    } else {
        batches_left(queue.drop_last()) + queue.last().capture.queued.len() + (if queue.last().capture.active is Some {
            1int
        } else {
            0int
        })
    }
}

impl GpuMirrorDispatcher {
    pub open(crate) spec fn wf(self) -> bool {
        &&& self.reconciler.wf()
        &&& forall|i: int| 0 <= i < self.queue@.len() ==> (#[trigger] self.queue@[i]).wf()
        &&& self@.valid()
    }

    /// A dispatcher that goes on from where the mirror is.
    pub fn from_mirror(mirror: GpuCpuMirror, max_snapshot_bytes: u64, max_staging_bytes: u64) -> (
    dispatcher: Result<GpuMirrorDispatcher, GpuMirrorDispatchError>)
        requires
            mirror.wf(),
        ensures
            match dispatcher {
                Ok(dispatcher) => {
                    &&& budget_error(max_snapshot_bytes, max_staging_bytes) is None
                    &&& dispatcher.wf()
                    &&& dispatcher@ == idle_dispatcher(
                        mirror@,
                        max_snapshot_bytes,
                        max_staging_bytes,
                    )
                },
                Err(error) => budget_error(max_snapshot_bytes, max_staging_bytes) == Some(error),
            },
    {
        if max_snapshot_bytes < GPU_UNDO_BLOCK_BYTES {
            return Err(
                GpuMirrorDispatchError::InvalidSnapshotBudget {
                    requested: max_snapshot_bytes,
                    minimum: GPU_UNDO_BLOCK_BYTES,
                },
            );
        }
        if max_staging_bytes < GPU_UNDO_BLOCK_BYTES {
            return Err(
                GpuMirrorDispatchError::InvalidStagingBudget {
                    requested: max_staging_bytes,
                    minimum: GPU_UNDO_BLOCK_BYTES,
                },
            );
        }
        let dispatcher = GpuMirrorDispatcher {
            reconciler: GpuMirrorReconciler::from_mirror(mirror),
            queue: Vec::new(),
            resident_snapshot_bytes: 0,
            max_snapshot_bytes,
            max_staging_bytes,
            retiring: Vec::new(),
        };
        assert(dispatcher@.queue =~= Seq::empty());
        assert(dispatcher@.retiring =~= Seq::empty());
        Ok(dispatcher)
    }

    pub fn new(
        width: u32,
        height: u32,
        tile_size: u32,
        initial_revision: DocumentRevision,
        max_snapshot_bytes: u64,
        max_staging_bytes: u64,
    ) -> (dispatcher: Result<GpuMirrorDispatcher, GpuMirrorDispatchError>)
        ensures
            match dispatcher {
                Ok(dispatcher) => {
                    &&& budget_error(max_snapshot_bytes, max_staging_bytes) is None
                    &&& mirror_geometry(width, height, tile_size).valid()
                    &&& dispatcher.wf()
                    &&& dispatcher@ == idle_dispatcher(
                        MirrorModel {
                            revision: initial_revision,
                            geometry: mirror_geometry(width, height, tile_size),
                            tiles: Map::empty(),
                        },
                        max_snapshot_bytes,
                        max_staging_bytes,
                    )
                },
                Err(error) => match budget_error(max_snapshot_bytes, max_staging_bytes) {
                    Some(expected) => error == expected,
                    None => !mirror_geometry(width, height, tile_size).valid() && error
                        == GpuMirrorDispatchError::Reconcile(
                        if width == 0 || height == 0 {
                            GpuMirrorReconcileError::EmptyCanvas
                        } else if tile_size == 0 {
                            GpuMirrorReconcileError::InvalidTileSize
                        } else {
                            GpuMirrorReconcileError::TileStorageOverflow
                        },
                    ),
                },
            },
    {
        if max_snapshot_bytes < GPU_UNDO_BLOCK_BYTES {
            return Err(
                GpuMirrorDispatchError::InvalidSnapshotBudget {
                    requested: max_snapshot_bytes,
                    minimum: GPU_UNDO_BLOCK_BYTES,
                },
            );
        }
        if max_staging_bytes < GPU_UNDO_BLOCK_BYTES {
            return Err(
                GpuMirrorDispatchError::InvalidStagingBudget {
                    requested: max_staging_bytes,
                    minimum: GPU_UNDO_BLOCK_BYTES,
                },
            );
        }
        match GpuCpuMirror::new(width, height, tile_size, initial_revision) {
            Ok(mirror) => GpuMirrorDispatcher::from_mirror(
                mirror,
                max_snapshot_bytes,
                max_staging_bytes,
            ),
            Err(error) => Err(GpuMirrorDispatchError::Reconcile(error)),
        }
    }

    /// Whether there is room for what the plan reads back.
    pub fn check_capacity(&self, plan: &GpuMirrorReadbackPlan) -> (checked: Result<
        (),
        GpuMirrorDispatchError,
    >)
        ensures
            match checked {
                Ok(_) => capacity_error(self@, plan@) is None,
                Err(error) => capacity_error(self@, plan@) == Some(error),
            },
    {
        let batches = plan.batches();
        let ghost models = plan@.batches;
        if batches.len() == 0 {
            return Err(GpuMirrorDispatchError::EmptyRevisionPlan);
        }
        let mut i: usize = 0;
        assert(models.subrange(0, 0) =~= Seq::empty());
        while i < batches.len()
            invariant
                models == plan@.batches,
                models == crate::gpu_document_mirror::batch_models(batches@),
                models.len() > 0,
                i <= batches@.len(),
                first_over_budget(models.subrange(0, i as int), self.max_staging_bytes) is None,
            decreases batches@.len() - i,
        {
            let byte_len: u64 = batches[i].byte_len();
            proof {
                assert(models[i as int] == batches@[i as int]@);
                assert(models.subrange(0, i as int + 1).drop_last() =~= models.subrange(
                    0,
                    i as int,
                ));
            }
            if byte_len > self.max_staging_bytes {
                proof {
                    lemma_over_budget(models, self.max_staging_bytes, i as int + 1);
                }
                return Err(
                    GpuMirrorDispatchError::BatchExceedsStagingBudget {
                        revision: plan.revision(),
                        index: batches[i].index(),
                        requested: byte_len,
                        maximum: self.max_staging_bytes,
                    },
                );
            }
            i += 1;
        }
        assert(models.subrange(0, i as int) =~= models);
        let byte_len: u64 = plan.byte_len();
        if byte_len > self.max_snapshot_bytes {
            return Err(
                GpuMirrorDispatchError::CaptureExceedsSnapshotBudget {
                    requested: byte_len,
                    maximum: self.max_snapshot_bytes,
                },
            );
        }
        match self.resident_snapshot_bytes.checked_add(byte_len) {
            Some(combined) => {
                if combined > self.max_snapshot_bytes {
                    Err(
                        GpuMirrorDispatchError::SnapshotBudgetExhausted {
                            resident: self.resident_snapshot_bytes,
                            requested: byte_len,
                            maximum: self.max_snapshot_bytes,
                        },
                    )
                } else {
                    Ok(())
                }
            },
            None => Err(GpuMirrorDispatchError::SnapshotByteOverflow),
        }
    }

    fn newest(&self) -> (revision: DocumentRevision)
        ensures
            revision == self@.newest(),
    {
        let n: usize = self.queue.len();
        if n > 0 {
            let last = &self.queue[n - 1];
            let m: usize = last.after.len();
            assert(self@.queue.last() == last@);
            if m > 0 {
                assert(self@.queue.last().after.last().revision == last.after@[m - 1].revision);
                return last.after[m - 1].revision;
            }
        }
        self.reconciler.latest_registered
    }

    /// Whether the plan would be taken.
    pub fn check_plan(&self, plan: &GpuMirrorReadbackPlan) -> (checked: Result<
        (),
        GpuMirrorDispatchError,
    >)
        requires
            self.wf(),
        ensures
            match checked {
                Ok(_) => plan_error(self@, plan@) is None,
                Err(error) => plan_error(self@, plan@) == Some(error),
            },
    {
        match self.check_capacity(plan) {
            Ok(_) => {},
            Err(error) => {
                return Err(error);
            },
        }
        let newest = self.newest();
        if self.reconciler.latest_registered.0 < newest.0 && plan.revision().0 <= newest.0 {
            return Err(
                GpuMirrorDispatchError::Reconcile(
                    GpuMirrorReconcileError::RevisionNotNewer {
                        latest: newest,
                        requested: plan.revision(),
                    },
                ),
            );
        }
        match self.reconciler.check_plan(plan) {
            Ok(_) => Ok(()),
            Err(error) => Err(GpuMirrorDispatchError::Reconcile(error)),
        }
    }

    /// Whether the capture would be taken once it has been submitted.
    pub fn check_prepared_capture(
        &self,
        plan: &GpuMirrorReadbackPlan,
        capture: &GpuMirrorRevisionCapture,
    ) -> (checked: Result<(), GpuMirrorDispatchError>)
        requires
            self.wf(),
        ensures
            match checked {
                Ok(_) => capture_refusal(self@, plan@, capture@) is None,
                Err(error) => capture_refusal(self@, plan@, capture@) == Some(error),
            },
    {
        if !capture.matches_plan(plan) {
            return Err(GpuMirrorDispatchError::CapturePlanMismatch);
        }
        self.check_plan(plan)
    }

    /// Takes a submitted capture of everything that the plan reads back.
    pub fn enqueue(&mut self, plan: &GpuMirrorReadbackPlan, capture: GpuMirrorRevisionCapture) -> (
    queued: Result<(), Box<GpuMirrorEnqueueFailure>>)
        requires
            old(self).wf(),
            plan.wf(),
            capture.wf(),
        ensures
            final(self).wf(),
            match queued {
                Ok(_) => enqueue_error(old(self)@, plan@, capture@) is None && final(self)@
                    == enqueued(old(self)@, plan@, capture@),
                Err(failure) => enqueue_error(old(self)@, plan@, capture@) == Some(failure.error)
                    && failure.capture == capture && *final(self) == *old(self),
            },
    {
        if !capture.capture_submission_acknowledged() {
            return Err(
                Box::new(
                    GpuMirrorEnqueueFailure {
                        error: GpuMirrorDispatchError::CaptureNotSubmitted,
                        capture,
                    },
                ),
            );
        }
        match self.check_prepared_capture(plan, &capture) {
            Ok(_) => {},
            Err(error) => {
                return Err(Box::new(GpuMirrorEnqueueFailure { error, capture }));
            },
        }
        let ghost before = self@;
        match self.reconciler.register_plan(plan) {
            Ok(_) => {},
            Err(error) => {
                return Err(
                    Box::new(
                        GpuMirrorEnqueueFailure {
                            error: GpuMirrorDispatchError::Reconcile(error),
                            capture,
                        },
                    ),
                );
            },
        }
        self.resident_snapshot_bytes = self.resident_snapshot_bytes + capture.byte_len();
        let ghost model = capture@;
        let added = QueuedRevision {
            plan: plan.duplicate(),
            capture,
            received: Vec::new(),
            after: Vec::new(),
        };
        proof {
            assert(added@.after =~= Seq::empty());
            assert(added@.received =~= Seq::empty());
        }
        self.queue.push(added);
        proof {
            let after = enqueued(before, plan@, model);
            assert(self@.queue =~= after.queue);
            assert(self@ == after);
            lemma_enqueued_valid(before, plan, model);
            assert forall|i: int| 0 <= i < self.queue@.len() implies (
            #[trigger] self.queue@[i]).wf() by {
                if i < self.queue@.len() - 1 {
                    assert(self.queue@[i] == old(self).queue@[i]);
                }
            }
        }
        Ok(())
    }

    /// Prepares the next batch of the oldest revision, and says whether there was one.
    #[verifier::spinoff_prover]
    #[verifier::rlimit(40)]
    pub fn encode_next_readback(&mut self, limits: DeviceLimits) -> (prepared: Result<
        bool,
        GpuMirrorDispatchError,
    >)
        requires
            old(self).wf(),
        ensures
            final(self).wf(),
            match prepared {
                Ok(prepared) => if old(self)@.queue.len() == 0 {
                    !prepared && final(self)@ == old(self)@
                } else {
                    let capture = old(self)@.queue[0].capture;
                    &&& next_readback_error(capture, limits) is None
                    &&& prepared == (capture.queued.len() > 0)
                    &&& final(self)@ == old(self)@.with_front_capture(readback_prepared(capture))
                },
                Err(error) => {
                    &&& old(self)@.queue.len() > 0
                    &&& match next_readback_error(old(self)@.queue[0].capture, limits) {
                        Some(refusal) => error == GpuMirrorDispatchError::Readback(refusal),
                        None => false,
                    }
                    &&& final(self)@ == old(self)@
                },
            },
    {
        if self.queue.len() == 0 {
            return Ok(false);
        }
        let ghost before = self@;
        let ghost entries = self.queue@;
        assert(before.queue[0] == entries[0]@);
        assert(entry_aligned(before.queue[0], before.reconciler.pending[0]));
        let mut front = self.queue.remove(0);
        let prepared = front.capture.encode_next_readback(limits);
        self.queue.insert(0, front);
        proof {
            lemma_front_put_back(entries, self.queue@);
            if prepared is Ok {
                let capture = readback_prepared(before.queue[0].capture);
                let batches = before.queue[0].plan.batches;
                let done = before.queue[0].received.len() as int;
                if before.queue[0].capture.queued.len() > 0 {
                    assert(batches.subrange(done, batches.len() as int)[0] == batches[done]);
                    assert(batches.subrange(done, batches.len() as int).drop_first()
                        =~= batches.subrange(done + 1, batches.len() as int));
                }
                assert(self@.queue =~= before.with_front_capture(capture).queue);
                lemma_front_capture_valid(before, capture);
            } else {
                assert(self@.queue =~= before.queue);
            }
        }
        match prepared {
            Ok(prepared) => Ok(prepared),
            Err(error) => Err(GpuMirrorDispatchError::Readback(error)),
        }
    }
}

/// Putting the front back changes nothing but the front.
proof fn lemma_front_put_back(before: Seq<QueuedRevision>, after: Seq<QueuedRevision>)
    requires
        before.len() > 0,
        after.len() == before.len(),
        forall|i: int| 0 < i < before.len() ==> after[i] == before[i],
    ensures
        forall|i: int|
            0 < i < before.len() ==> (#[trigger] queue_models(after)[i]) == queue_models(before)[i],
        forall|i: int| 0 < i < before.len() ==> (#[trigger] after[i]) == before[i],
{
}

/// A capture that has moved on, but not past what was received, leaves the rest in order.
proof fn lemma_front_capture_valid(model: DispatcherModel, capture: CaptureModel)
    requires
        model.valid(),
        model.queue.len() > 0,
        capture.valid(),
        capture.submitted,
        capture.revision == model.queue[0].capture.revision,
        capture_follows(QueuedModel { capture, ..model.queue[0] }),
    ensures
        model.with_front_capture(capture).valid(),
{
    let after = model.with_front_capture(capture);
    let entry = QueuedModel { capture, ..model.queue[0] };
    assert(arrived(entry) =~= arrived(model.queue[0]));
    assert(entry_aligned(model.queue[0], model.reconciler.pending[0]));
    lemma_same_bytes(model.queue, 0, entry);
    assert forall|i: int|
        #![trigger after.queue[i]]
        0 <= i < after.queue.len() implies {
        &&& entry_aligned(after.queue[i], after.reconciler.pending[i])
        &&& structures_ordered(
            after.reconciler.mirror.geometry,
            after.queue[i].plan.revision,
            after.queue[i].after,
        )
        &&& forall|b: int|
            0 <= b < after.queue[i].plan.batches.len() ==> 0 <= (
            #[trigger] after.queue[i].plan.batches[b]).byte_len <= after.max_staging
        &&& i > 0 ==> entry_untouched(after.queue[i])
    } by {
        assert(entry_aligned(model.queue[i], model.reconciler.pending[i]));
    }
    assert forall|i: int, j: int, k: int|
        #![trigger after.queue[i].after[k], after.queue[j]]
        0 <= i < j < after.queue.len() && 0 <= k < after.queue[i].after.len() implies
        after.queue[i].after[k].revision.0 < after.queue[j].plan.revision.0 by {
        assert(model.queue[i].after[k].revision.0 < model.queue[j].plan.revision.0);
    }
}

/// A batch that is put back stands where it stood.
proof fn lemma_returned_follows(entry: QueuedModel)
    requires
        entry.received.len() < entry.plan.batches.len(),
        entry.capture.active is Some,
        capture_follows(entry),
    ensures
        capture_follows(QueuedModel { capture: readback_returned(entry.capture), ..entry }),
{
    let batches = entry.plan.batches;
    let done = entry.received.len() as int;
    assert(readback_returned(entry.capture).queued =~= batches.subrange(
        done,
        batches.len() as int,
    ));
}

proof fn lemma_enqueued_valid(
    model: DispatcherModel,
    plan: &GpuMirrorReadbackPlan,
    capture: CaptureModel,
)
    requires
        reconciler_valid(model.reconciler),
        model.valid(),
        plan.wf(),
        capture.valid(),
        enqueue_error(model, plan@, capture) is None,
    ensures
        enqueued(model, plan@, capture).valid(),
{
    let after = enqueued(model, plan@, capture);
    let n = model.queue.len() as int;
    let added = after.queue[n];
    let batches = plan@.batches;
    assert(arrived(added) =~= awaited(plan@).received);
    assert(batches.subrange(0, batches.len() as int) =~= batches);
    assert(after.queue.drop_last() =~= model.queue);
    assert(entry_aligned(added, after.reconciler.pending[n]));
    assert forall|i: int|
        #![trigger after.queue[i]]
        0 <= i < after.queue.len() implies {
        &&& entry_aligned(after.queue[i], after.reconciler.pending[i])
        &&& structures_ordered(
            after.reconciler.mirror.geometry,
            after.queue[i].plan.revision,
            after.queue[i].after,
        )
        &&& forall|b: int|
            0 <= b < after.queue[i].plan.batches.len() ==> 0 <= (
            #[trigger] after.queue[i].plan.batches[b]).byte_len <= after.max_staging
        &&& i > 0 ==> entry_untouched(after.queue[i])
    } by {
        if i < n {
            assert(after.queue[i] == model.queue[i]);
            assert(entry_aligned(model.queue[i], model.reconciler.pending[i]));
        } else {
            assert forall|b: int| 0 <= b < batches.len() implies 0 <= (
            #[trigger] batches[b]).byte_len <= after.max_staging by {
                lemma_within_budget(batches, model.max_staging, b);
                assert(batches[b] == plan.batches@[b]@);
            }
        }
    }
    assert forall|i: int, j: int, k: int|
        #![trigger after.queue[i].after[k], after.queue[j]]
        0 <= i < j < after.queue.len() && 0 <= k < after.queue[i].after.len() implies
        after.queue[i].after[k].revision.0 < after.queue[j].plan.revision.0 by {
        assert(after.queue[i] == model.queue[i]);
        if j < n {
            assert(model.queue[i].after[k].revision.0 < model.queue[j].plan.revision.0);
        } else if i < n - 1 {
            assert(model.queue[i].after[k].revision.0 < model.queue[n - 1].plan.revision.0);
            assert(entry_aligned(model.queue[n - 1], model.reconciler.pending[n - 1]));
            assert(model.queue[n - 1].plan.revision.0 <= model.reconciler.latest.0);
        } else {
            let last = model.queue[n - 1];
            assert(structures_ordered(
                model.reconciler.mirror.geometry,
                last.plan.revision,
                last.after,
            ));
            assert(last.after[k].revision.0 <= last.after.last().revision.0);
            assert(entry_aligned(last, model.reconciler.pending[n - 1]));
            assert(last.plan.revision == model.reconciler.latest);
        }
    }
}

/// Why the oldest revision does not take a step, if it does not.
pub open spec fn front_error(
    model: DispatcherModel,
    refusal: Option<GpuMirrorReadbackError>,
) -> Option<GpuMirrorDispatchError> {
    if model.queue.len() == 0 {
        Some(GpuMirrorDispatchError::NoPendingRevision)
    } else {
        match refusal {
            Some(error) => Some(GpuMirrorDispatchError::Readback(error)),
            None => None,
        }
    }
}

impl GpuMirrorDispatcher {
    pub fn readback_submitted(&mut self) -> (submitted: Result<(), GpuMirrorDispatchError>)
        requires
            old(self).wf(),
        ensures
            final(self).wf(),
            ({
                let capture = old(self)@.queue[0].capture;
                let expected = front_error(old(self)@, submission_error(capture));
                match submitted {
                    Ok(_) => expected is None && final(self)@ == old(self)@.with_front_capture(
                        readback_sent(capture),
                    ),
                    Err(error) => expected == Some(error) && final(self)@ == old(self)@,
                }
            }),
    {
        if self.queue.len() == 0 {
            return Err(GpuMirrorDispatchError::NoPendingRevision);
        }
        let ghost before = self@;
        let ghost entries = self.queue@;
        assert(before.queue[0] == entries[0]@);
        assert(entry_aligned(before.queue[0], before.reconciler.pending[0]));
        let mut front = self.queue.remove(0);
        let submitted = front.capture.readback_submitted();
        self.queue.insert(0, front);
        proof {
            lemma_front_put_back(entries, self.queue@);
            if submitted is Ok {
                let capture = readback_sent(before.queue[0].capture);
                assert(self@.queue =~= before.with_front_capture(capture).queue);
                lemma_front_capture_valid(before, capture);
            } else {
                assert(self@.queue =~= before.queue);
            }
        }
        match submitted {
            Ok(_) => Ok(()),
            Err(error) => Err(GpuMirrorDispatchError::Readback(error)),
        }
    }

    #[verifier::spinoff_prover]
    #[verifier::rlimit(40)]
    pub fn readback_discarded(&mut self) -> (discarded: Result<(), GpuMirrorDispatchError>)
        requires
            old(self).wf(),
        ensures
            final(self).wf(),
            ({
                let capture = old(self)@.queue[0].capture;
                let expected = front_error(old(self)@, discard_error(capture));
                match discarded {
                    Ok(_) => expected is None && final(self)@ == old(self)@.with_front_capture(
                        readback_returned(capture),
                    ),
                    Err(error) => expected == Some(error) && final(self)@ == old(self)@,
                }
            }),
    {
        if self.queue.len() == 0 {
            return Err(GpuMirrorDispatchError::NoPendingRevision);
        }
        let ghost before = self@;
        let ghost entries = self.queue@;
        assert(before.queue[0] == entries[0]@);
        assert(entry_aligned(before.queue[0], before.reconciler.pending[0]));
        let mut front = self.queue.remove(0);
        let discarded = front.capture.readback_discarded();
        self.queue.insert(0, front);
        proof {
            lemma_front_put_back(entries, self.queue@);
            if discarded is Ok {
                let capture = readback_returned(before.queue[0].capture);
                lemma_returned_follows(before.queue[0]);
                assert(self@.queue =~= before.with_front_capture(capture).queue);
                lemma_front_capture_valid(before, capture);
            } else {
                assert(self@.queue =~= before.queue);
            }
        }
        match discarded {
            Ok(_) => Ok(()),
            Err(error) => Err(GpuMirrorDispatchError::Readback(error)),
        }
    }

    pub fn begin_map(&mut self) -> (begun: Result<(), GpuMirrorDispatchError>)
        requires
            old(self).wf(),
        ensures
            final(self).wf(),
            ({
                let capture = old(self)@.queue[0].capture;
                let expected = front_error(old(self)@, map_begin_error(capture));
                match begun {
                    Ok(_) => expected is None && final(self)@ == old(self)@.with_front_capture(
                        map_begun(capture),
                    ),
                    Err(error) => expected == Some(error) && final(self)@ == old(self)@,
                }
            }),
    {
        if self.queue.len() == 0 {
            return Err(GpuMirrorDispatchError::NoPendingRevision);
        }
        let ghost before = self@;
        let ghost entries = self.queue@;
        assert(before.queue[0] == entries[0]@);
        assert(entry_aligned(before.queue[0], before.reconciler.pending[0]));
        let mut front = self.queue.remove(0);
        let begun = front.capture.begin_map();
        self.queue.insert(0, front);
        proof {
            lemma_front_put_back(entries, self.queue@);
            if begun is Ok {
                let capture = map_begun(before.queue[0].capture);
                assert(self@.queue =~= before.with_front_capture(capture).queue);
                lemma_front_capture_valid(before, capture);
            } else {
                assert(self@.queue =~= before.queue);
            }
        }
        match begun {
            Ok(_) => Ok(()),
            Err(error) => Err(GpuMirrorDispatchError::Readback(error)),
        }
    }

    /// Makes the changes of whole layers that waited for the revision that was just mirrored.
    fn apply_structures(&mut self, after: &Vec<StructuralRevision>) -> (revisions: Vec<
        DocumentRevision,
    >)
        requires
            old(self).reconciler.wf(),
            structures_ordered(
                old(self)@.reconciler.mirror.geometry,
                old(self)@.reconciler.mirror.revision,
                structural_models(after@),
            ),
            forall|k: int|
                0 <= k < after@.len() ==> (#[trigger] after@[k]).change.wf(),
            forall|k: int, i: int|
                #![trigger after@[k], old(self)@.reconciler.pending[i]]
                0 <= k < after@.len() && 0 <= i < old(self)@.reconciler.pending.len()
                    ==> after@[k].revision.0 < old(self)@.reconciler.pending[i].revision.0,
        ensures
            final(self).reconciler.wf(),
            final(self).reconciler@ == structures_applied(
                old(self)@.reconciler,
                structural_models(after@),
            ),
            final(self).reconciler@.pending == old(self).reconciler@.pending,
            final(self).reconciler@.mirror.geometry == old(self).reconciler@.mirror.geometry,
            final(self).queue == old(self).queue,
            final(self).resident_snapshot_bytes == old(self).resident_snapshot_bytes,
            final(self).max_snapshot_bytes == old(self).max_snapshot_bytes,
            final(self).max_staging_bytes == old(self).max_staging_bytes,
            final(self).retiring == old(self).retiring,
            revisions@ == structural_revisions(structural_models(after@)),
    {
        let ghost start = self.reconciler@;
        let ghost models = structural_models(after@);
        let mut revisions: Vec<DocumentRevision> = Vec::new();
        let mut k: usize = 0;
        assert(models.subrange(0, 0) =~= Seq::empty());
        while k < after.len()
            invariant
                start == old(self)@.reconciler,
                models == structural_models(after@),
                structures_ordered(start.mirror.geometry, start.mirror.revision, models),
                forall|k: int|
                    0 <= k < after@.len() ==> (#[trigger] after@[k]).change.wf(),
                forall|k: int, i: int|
                    #![trigger after@[k], start.pending[i]]
                    0 <= k < after@.len() && 0 <= i < start.pending.len() ==> after@[k].revision.0
                        < start.pending[i].revision.0,
                k <= after@.len(),
                self.reconciler.wf(),
                self.reconciler@ == structures_applied(start, models.subrange(0, k as int)),
                self.reconciler@.pending == start.pending,
                self.reconciler@.mirror.geometry == start.mirror.geometry,
                self.reconciler@.mirror.revision == if k == 0 {
                    start.mirror.revision
                } else {
                    models[k - 1].revision
                },
                self.queue == old(self).queue,
                self.resident_snapshot_bytes == old(self).resident_snapshot_bytes,
                self.max_snapshot_bytes == old(self).max_snapshot_bytes,
                self.max_staging_bytes == old(self).max_staging_bytes,
                self.retiring == old(self).retiring,
                revisions@ == structural_revisions(models).subrange(0, k as int),
            decreases after@.len() - k,
        {
            let revision = after[k].revision;
            proof {
                assert(models[k as int].revision == revision);
                if k > 0 {
                    assert(models[k - 1].revision.0 < models[k as int].revision.0);
                }
                assert(models.subrange(0, k as int + 1).drop_last() =~= models.subrange(
                    0,
                    k as int,
                ));
                assert forall|i: int| 0 <= i < self.reconciler@.pending.len() implies revision.0 < (
                #[trigger] self.reconciler@.pending[i]).revision.0 by {
                    assert(after@[k as int].revision.0 < start.pending[i].revision.0);
                }
            }
            self.reconciler.restructure(revision, &after[k].change);
            revisions.push(revision);
            k += 1;
            assert(revisions@ =~= structural_revisions(models).subrange(0, k as int));
        }
        assert(models.subrange(0, k as int) =~= models);
        assert(revisions@ =~= structural_revisions(models));
        revisions
    }

    /// Drops the layers that waited for the queue to run empty.
    fn drop_retiring(&mut self)
        requires
            old(self).reconciler.wf(),
        ensures
            final(self).reconciler.wf(),
            final(self).reconciler@ == layers_dropped(old(self)@.reconciler, old(self)@.retiring),
            final(self).reconciler@.pending == old(self).reconciler@.pending,
            final(self).reconciler@.mirror.geometry == old(self).reconciler@.mirror.geometry,
            final(self).queue == old(self).queue,
            final(self).resident_snapshot_bytes == old(self).resident_snapshot_bytes,
            final(self).max_snapshot_bytes == old(self).max_snapshot_bytes,
            final(self).max_staging_bytes == old(self).max_staging_bytes,
            final(self).retiring@ == Seq::<LayerId>::empty(),
    {
        let ghost start = self.reconciler@;
        let ghost layers = self.retiring@;
        let mut i: usize = 0;
        assert(layers.subrange(0, 0) =~= Seq::empty());
        while i < self.retiring.len()
            invariant
                start == old(self)@.reconciler,
                layers == old(self)@.retiring,
                self.retiring@ == layers,
                i <= layers.len(),
                self.reconciler.wf(),
                self.reconciler@ == layers_dropped(start, layers.subrange(0, i as int)),
                self.reconciler@.pending == start.pending,
                self.reconciler@.mirror.geometry == start.mirror.geometry,
                self.queue == old(self).queue,
                self.resident_snapshot_bytes == old(self).resident_snapshot_bytes,
                self.max_snapshot_bytes == old(self).max_snapshot_bytes,
                self.max_staging_bytes == old(self).max_staging_bytes,
            decreases layers.len() - i,
        {
            let layer = self.retiring[i];
            proof {
                assert(layers.subrange(0, i as int + 1).drop_last() =~= layers.subrange(
                    0,
                    i as int,
                ));
            }
            self.reconciler.remove_layer(layer);
            i += 1;
        }
        assert(layers.subrange(0, i as int) =~= layers);
        self.retiring = Vec::new();
        assert(self.retiring@ =~= Seq::empty());
    }

    /// Takes the pixels of the active batch once they are mapped. The last batch of
    /// a revision brings the revision into the mirror, and with it what waited for it.
    pub fn try_finish(&mut self, event: GpuMirrorMapEvent) -> (finished: Result<
        Option<GpuMirrorDispatchCompletion>,
        GpuMirrorDispatchError,
    >)
        requires
            old(self).wf(),
        ensures
            final(self).wf(),
            finish_reported(old(self)@, event, final(self)@, finished),
    {
        if self.queue.len() == 0 {
            return Err(GpuMirrorDispatchError::NoPendingRevision);
        }
        let ghost before = self@;
        let ghost entries = self.queue@;
        let ghost entry = before.queue[0];
        let ghost mapped = mapped_bytes(entry.capture, event);
        assert(entry == entries[0]@);
        assert(entry_aligned(entry, before.reconciler.pending[0]));
        let mut front = self.queue.remove(0);
        let batch = match front.capture.try_finish(event) {
            Ok(Some(batch)) => batch,
            Ok(None) => {
                self.queue.insert(0, front);
                proof {
                    lemma_front_put_back(entries, self.queue@);
                    assert(self@.queue =~= before.queue);
                }
                return Ok(None);
            },
            Err(error) => {
                self.queue.insert(0, front);
                proof {
                    let capture = self.queue@[0].capture@;
                    lemma_front_put_back(entries, self.queue@);
                    assert(self@.queue =~= before.with_front_capture(capture).queue);
                    lemma_front_capture_valid(before, capture);
                }
                return Err(GpuMirrorDispatchError::Readback(error));
            },
        };
        let complete = front.capture.is_complete();
        let revision = batch.revision();
        let batch_index: u32 = batch.index();
        let byte_len: u64 = batch.byte_len();
        let kept = batch.duplicate();
        proof {
            lemma_batch_accepted(before, batch, mapped);
            lemma_batch_drains(before, batch, mapped);
            assert(self.reconciler@ == before.reconciler);
        }
        if !complete {
            proof {
                lemma_batch_accepted(before, kept, mapped);
                lemma_batch_taken_valid(before, kept, mapped);
                lemma_taken_bytes(before, kept, mapped);
            }
            front.received.push(kept);
            self.queue.insert(0, front);
            let ghost queued = self.queue@;
            match self.reconciler.complete_batch(batch) {
                Ok(applied_revisions) => {
                    self.resident_snapshot_bytes = self.resident_snapshot_bytes - byte_len;
                    proof {
                        lemma_front_put_back(entries, self.queue@);
                        assert(self@.queue =~= batch_taken(before, kept).queue);
                        assert(self@ == batch_taken(before, kept));
                    }
                    return Ok(
                        Some(
                            GpuMirrorDispatchCompletion {
                                revision,
                                batch_index,
                                byte_len,
                                applied_revisions,
                                recovery_transition: None,
                                recovery_snapshot: None,
                            },
                        ),
                    );
                },
                Err(error) => {
                    return Err(GpuMirrorDispatchError::Reconcile(error));
                },
            }
        }
        let ghost received = entry.received.push(kept);
        let mut batches: Vec<GpuMirrorPatchBatch> = Vec::new();
        std::mem::swap(&mut batches, &mut front.received);
        let ghost first_batches = batches@;
        let copies = copy_batches(&batches);
        batches.push(kept);
        assert(batches@ == received);
        let base = self.reconciler.snapshot();
        let transition = match GpuExactRasterRecoveryTransition::from_mirror_revision(
            &base,
            &front.plan,
            batches,
        ) {
            Ok(transition) => transition,
            Err(error) => {
                front.received = copies;
                self.queue.insert(0, front);
                proof {
                    lemma_front_put_back(entries, self.queue@);
                    assert(self@.queue =~= before.queue.update(0, self@.queue[0]));
                    lemma_stalled_valid(before, self@);
                }
                return Err(GpuMirrorDispatchError::Transition(error));
            },
        };
        proof {
            lemma_batch_accepted(before, kept, mapped);
            lemma_taken_bytes(before, kept, mapped);
        }
        match self.reconciler.complete_batch(batch) {
            Ok(applied) => {
                let mut applied_revisions = applied;
                let snapshot = self.reconciler.snapshot();
                self.resident_snapshot_bytes = self.resident_snapshot_bytes - byte_len;
                proof {
                    lemma_structures_can_follow(before, self@.reconciler, front.after@);
                    assert(self@.queue =~= before.queue.drop_first());
                    assert forall|k: int| 0 <= k < front.after@.len() implies (
                    #[trigger] front.after@[k]).change.wf() by {
                        assert(entries[0].after@[k].change.wf());
                    }
                }
                let mut structural = self.apply_structures(&front.after);
                applied_revisions.append(&mut structural);
                if self.queue.len() == 0 {
                    self.drop_retiring();
                }
                proof {
                    let model = revision_finished(before, batch@);
                    assert(with_received(before.reconciler.pending, kept@) == with_received(
                        before.reconciler.pending,
                        batch@,
                    ));
                    assert(self@.queue =~= model.queue);
                    assert(self@ == model);
                    lemma_front_gone_valid(
                        before,
                        self@.reconciler,
                        self@.retiring,
                        kept,
                        mapped,
                    );
                    assert forall|i: int| 0 <= i < self.queue@.len() implies (
                    #[trigger] self.queue@[i]).wf() by {
                        assert(self.queue@[i] == entries[i + 1]);
                    }
                }
                Ok(
                    Some(
                        GpuMirrorDispatchCompletion {
                            revision,
                            batch_index,
                            byte_len,
                            applied_revisions,
                            recovery_transition: Some(transition),
                            recovery_snapshot: Some(snapshot),
                        },
                    ),
                )
            },
            Err(error) => Err(GpuMirrorDispatchError::Reconcile(error)),
        }
    }
}

/// What comes of asking for the pixels of the batch that is being read back.
pub open(crate) spec fn finish_reported(
    model: DispatcherModel,
    event: GpuMirrorMapEvent,
    after: DispatcherModel,
    finished: Result<Option<GpuMirrorDispatchCompletion>, GpuMirrorDispatchError>,
) -> bool {
    match front_error(model, finish_error(model.queue[0].capture, event)) {
        Some(GpuMirrorDispatchError::NoPendingRevision) => finished == Err::<
            Option<GpuMirrorDispatchCompletion>,
            GpuMirrorDispatchError,
        >(GpuMirrorDispatchError::NoPendingRevision) && after == model,
        Some(expected) => {
            let capture = model.queue[0].capture;
            &&& finished matches Err(error) && error == expected
            &&& after == model.with_front_capture(
                after_finish_error(capture, finish_error(capture, event)->0),
            )
        },
        None => finish_outcome(model, event, after, finished),
    }
}

/// What comes of a step for which nothing stands in the way of reading the mapped bytes.
pub open(crate) spec fn finish_outcome(
    model: DispatcherModel,
    event: GpuMirrorMapEvent,
    after: DispatcherModel,
    finished: Result<Option<GpuMirrorDispatchCompletion>, GpuMirrorDispatchError>,
) -> bool {
    let entry = model.queue[0];
    let capture = entry.capture;
    let plan = capture.active->0.plan;
    if still_pending(capture, event) {
        finished == Ok::<Option<GpuMirrorDispatchCompletion>, GpuMirrorDispatchError>(None)
            && after == model
    } else {
        match finished {
            Ok(None) => false,
            Ok(Some(completion)) => exists|batch: GpuMirrorPatchBatch| #[trigger]
                batch_read(plan, mapped_bytes(capture, event), batch@) && completed_with(
                    model,
                    batch,
                    after,
                    completion,
                ),
            Err(GpuMirrorDispatchError::Readback(error)) => {
                &&& error == GpuMirrorReadbackError::InvalidMappedRegion
                &&& has_pixels(plan)
                &&& after == model.with_front_capture(
                    capture.with_state(ReadbackMapState::Finished),
                )
            },
            Err(GpuMirrorDispatchError::Transition(error)) => exists|batch: GpuMirrorPatchBatch|
                #[trigger] batch_read(plan, mapped_bytes(capture, event), batch@)
                    && transition_refused(model, batch, after, error),
            Err(_) => false,
        }
    }
}

/// A batch was taken. The last one of a revision also mirrors the revision.
pub open(crate) spec fn completed_with(
    model: DispatcherModel,
    batch: GpuMirrorPatchBatch,
    after: DispatcherModel,
    completion: GpuMirrorDispatchCompletion,
) -> bool {
    let entry = model.queue[0];
    &&& completion.revision == entry.plan.revision
    &&& completion.batch_index == entry.received.len()
    &&& completion.byte_len == batch@.byte_len
    &&& if entry.received.len() + 1 < entry.plan.batches.len() {
        &&& after == batch_taken(model, batch)
        &&& completion.applied_revisions@ == Seq::<DocumentRevision>::empty()
        &&& completion.recovery_transition is None
        &&& completion.recovery_snapshot is None
    } else {
        &&& after == revision_finished(model, batch@)
        &&& completion.applied_revisions@ == seq![entry.plan.revision] + structural_revisions(
            entry.after,
        )
        &&& completion.recovery_transition matches Some(transition) && transition.wf()
            && transition_built(
            model.reconciler.mirror,
            entry.plan,
            entry.received.push(batch),
            transition@,
        )
        &&& completion.recovery_snapshot matches Some(snapshot) && snapshot.wf() && snapshot@
            == revision_mirrored(model, batch@)
    }
}

/// The last batch of a revision was read, but makes no recovery command. The
/// revision stays where it is.
pub open(crate) spec fn transition_refused(
    model: DispatcherModel,
    batch: GpuMirrorPatchBatch,
    after: DispatcherModel,
    error: GpuExactRasterRecoveryTransitionError,
) -> bool {
    let entry = model.queue[0];
    &&& entry.received.len() + 1 == entry.plan.batches.len()
    &&& transition_fails(
        model.reconciler.mirror,
        entry.plan,
        entry.received.push(batch),
        error,
    )
    &&& after.queue.len() == model.queue.len()
    &&& same_batches(after.queue[0].received, entry.received)
    &&& after == DispatcherModel {
        queue: model.queue.update(
            0,
            QueuedModel {
                capture: entry.capture.finished(),
                received: after.queue[0].received,
                ..entry
            },
        ),
        ..model
    }
}

pub open(crate) spec fn same_batches(
    first: Seq<GpuMirrorPatchBatch>,
    second: Seq<GpuMirrorPatchBatch>,
) -> bool {
    &&& first.len() == second.len()
    &&& forall|i: int| 0 <= i < first.len() ==> (#[trigger] first[i])@ == second[i]@
}

fn copy_batches(batches: &Vec<GpuMirrorPatchBatch>) -> (copies: Vec<GpuMirrorPatchBatch>)
    ensures
        same_batches(copies@, batches@),
{
    let mut copies: Vec<GpuMirrorPatchBatch> = Vec::new();
    let mut i: usize = 0;
    while i < batches.len()
        invariant
            i <= batches@.len(),
            copies@.len() == i,
            forall|k: int| 0 <= k < i ==> (#[trigger] copies@[k])@ == batches@[k]@,
        decreases batches@.len() - i,
    {
        copies.push(batches[i].duplicate());
        i += 1;
    }
    copies
}

/// The bytes of the batch that is being read are still counted.
proof fn lemma_taken_bytes(model: DispatcherModel, batch: GpuMirrorPatchBatch, mapped: Seq<u8>)
    requires
        reconciler_valid(model.reconciler),
        model.valid(),
        model.queue.len() > 0,
        model.queue[0].capture.active is Some,
        batch_read(model.queue[0].capture.active->0.plan, mapped, batch@),
    ensures
        batch@.byte_len <= model.resident,
{
    let entry = model.queue[0];
    let n = entry.plan.batches.len() as int;
    let done = entry.received.len() as int;
    assert(entry_aligned(entry, model.reconciler.pending[0]));
    lemma_bytes_step(entry, batch);
    lemma_front_queue_bytes(model.queue);
    lemma_nonnegative_bytes(entry.plan.batches.subrange(done + 1, n));
    let rest = model.queue.drop_first();
    assert forall|i: int| 0 <= i < rest.len() implies entry_bytes(#[trigger] rest[i]) >= 0 by {
        assert(rest[i] == model.queue[i + 1]);
        let entry = model.queue[i + 1];
        assert(entry_aligned(entry, model.reconciler.pending[i + 1]));
        lemma_nonnegative_bytes(
            entry.plan.batches.subrange(
                entry.received.len() as int,
                entry.plan.batches.len() as int,
            ),
        );
    }
    lemma_queue_bytes_nonnegative(rest);
}

/// A revision whose last batch was refused leaves everything else in order.
proof fn lemma_stalled_valid(model: DispatcherModel, after: DispatcherModel)
    requires
        model.valid(),
        model.queue.len() > 0,
        model.queue[0].capture.active is Some,
        model.queue[0].capture.finished().valid(),
        model.queue[0].received.len() + 1 == model.queue[0].plan.batches.len(),
        after.queue.len() == model.queue.len(),
        same_batches(after.queue[0].received, model.queue[0].received),
        after == (DispatcherModel {
            queue: model.queue.update(
                0,
                QueuedModel {
                    capture: model.queue[0].capture.finished(),
                    received: after.queue[0].received,
                    ..model.queue[0]
                },
            ),
            ..model
        }),
    ensures
        after.valid(),
{
    let entry = model.queue[0];
    let next = after.queue[0];
    let n = entry.plan.batches.len() as int;
    assert(entry_aligned(entry, model.reconciler.pending[0]));
    assert(arrived(next) =~= arrived(entry));
    assert(entry.capture.queued == entry.plan.batches.subrange(n, n));
    assert(capture_follows(next));
    lemma_same_bytes(model.queue, 0, next);
    assert forall|i: int|
        #![trigger after.queue[i]]
        0 <= i < after.queue.len() implies {
        &&& entry_aligned(after.queue[i], after.reconciler.pending[i])
        &&& structures_ordered(
            after.reconciler.mirror.geometry,
            after.queue[i].plan.revision,
            after.queue[i].after,
        )
        &&& forall|b: int|
            0 <= b < after.queue[i].plan.batches.len() ==> 0 <= (
            #[trigger] after.queue[i].plan.batches[b]).byte_len <= after.max_staging
        &&& i > 0 ==> entry_untouched(after.queue[i])
    } by {
        assert(entry_aligned(model.queue[i], model.reconciler.pending[i]));
    }
    assert forall|i: int, j: int, k: int|
        #![trigger after.queue[i].after[k], after.queue[j]]
        0 <= i < j < after.queue.len() && 0 <= k < after.queue[i].after.len() implies
        after.queue[i].after[k].revision.0 < after.queue[j].plan.revision.0 by {
        assert(model.queue[i].after[k].revision.0 < model.queue[j].plan.revision.0);
    }
}

/// What waits for the front comes after it and before everything else that is awaited.
proof fn lemma_structures_can_follow(
    model: DispatcherModel,
    reconciler: ReconcilerModel,
    after: Seq<StructuralRevision>,
)
    requires
        model.valid(),
        model.queue.len() > 0,
        model.queue[0].after == structural_models(after),
        reconciler.pending == model.reconciler.pending.drop_first(),
        reconciler.mirror.revision == model.queue[0].plan.revision,
        reconciler.mirror.geometry == model.reconciler.mirror.geometry,
    ensures
        structures_ordered(
            reconciler.mirror.geometry,
            reconciler.mirror.revision,
            structural_models(after),
        ),
        forall|k: int, i: int|
            #![trigger after[k], reconciler.pending[i]]
            0 <= k < after.len() && 0 <= i < reconciler.pending.len() ==> after[k].revision.0
                < reconciler.pending[i].revision.0,
{
    let entry = model.queue[0];
    assert(entry_aligned(entry, model.reconciler.pending[0]));
    assert forall|k: int, i: int|
        #![trigger after[k], reconciler.pending[i]]
        0 <= k < after.len() && 0 <= i < reconciler.pending.len() implies after[k].revision.0
        < reconciler.pending[i].revision.0 by {
        assert(reconciler.pending[i] == model.reconciler.pending[i + 1]);
        assert(entry_aligned(model.queue[i + 1], model.reconciler.pending[i + 1]));
        assert(entry.after[k].revision == after[k].revision);
        assert(model.queue[0].after[k].revision.0 < model.queue[i + 1].plan.revision.0);
    }
}

proof fn lemma_structure_registered_valid(model: DispatcherModel, structural: StructuralModel)
    requires
        reconciler_valid(model.reconciler),
        model.valid(),
        model.newest().0 < structural.revision.0,
        structure_fits(model.reconciler.mirror.geometry, structural.change),
    ensures
        structure_registered(model, structural).valid(),
{
    let after = structure_registered(model, structural);
    if model.queue.len() > 0 {
        let n = model.queue.len() - 1;
        let last = model.queue[n];
        assert(entry_aligned(last, model.reconciler.pending[n]));
        assert(last.plan.revision == model.reconciler.latest);
        assert(arrived(after.queue[n]) =~= arrived(last));
        lemma_same_bytes(model.queue, n, after.queue[n]);
        assert(structures_ordered(
            model.reconciler.mirror.geometry,
            last.plan.revision,
            last.after,
        ));
        let grown = after.queue[n].after;
        assert(structures_ordered(
            model.reconciler.mirror.geometry,
            last.plan.revision,
            grown,
        )) by {
            assert forall|j: int, k: int|
                #![trigger grown[j], grown[k]]
                0 <= j < k < grown.len() implies grown[j].revision.0 < grown[k].revision.0 by {
                assert(grown[j] == last.after[j]);
                if k < last.after.len() {
                    assert(grown[k] == last.after[k]);
                } else {
                    assert(last.after[j].revision.0 <= last.after.last().revision.0);
                }
            }
        }
        assert forall|i: int|
            #![trigger after.queue[i]]
            0 <= i < after.queue.len() implies {
            &&& entry_aligned(after.queue[i], after.reconciler.pending[i])
            &&& structures_ordered(
                after.reconciler.mirror.geometry,
                after.queue[i].plan.revision,
                after.queue[i].after,
            )
            &&& forall|b: int|
                0 <= b < after.queue[i].plan.batches.len() ==> 0 <= (
                #[trigger] after.queue[i].plan.batches[b]).byte_len <= after.max_staging
            &&& i > 0 ==> entry_untouched(after.queue[i])
        } by {
            assert(entry_aligned(model.queue[i], model.reconciler.pending[i]));
        }
        assert forall|i: int, j: int, k: int|
            #![trigger after.queue[i].after[k], after.queue[j]]
            0 <= i < j < after.queue.len() && 0 <= k < after.queue[i].after.len() implies
            after.queue[i].after[k].revision.0 < after.queue[j].plan.revision.0 by {
            assert(after.queue[i] == model.queue[i]);
            assert(model.queue[i].after[k].revision.0 < model.queue[j].plan.revision.0);
        }
    }
}

impl GpuMirrorDispatcher {
    /// Whether a change of whole layers may follow as the next revision.
    pub fn check_structural_revision(
        &self,
        source: DocumentRevision,
        revision: DocumentRevision,
        change: &GpuMirrorStructure,
    ) -> (checked: Result<(), GpuMirrorDispatchError>)
        requires
            self.wf(),
        ensures
            match checked {
                Ok(_) => structure_error(self@, source, revision, change@) is None,
                Err(error) => structure_error(self@, source, revision, change@) == Some(error),
            },
    {
        let latest = self.newest();
        if source.0 != latest.0 || source.0 == u64::MAX || revision.0 != source.0 + 1 {
            return Err(GpuMirrorDispatchError::RevisionNotNext { latest, source, revision });
        }
        if let GpuMirrorStructure::InstallLayer(command) = change {
            let mirror = &self.reconciler.mirror;
            if command.width != mirror.width || command.height != mirror.height
                || command.tile_size != mirror.tile_size {
                return Err(GpuMirrorDispatchError::LayerGeometryMismatch(command.layer));
            }
        }
        Ok(())
    }

    /// Takes a change of whole layers as the next revision.
    pub fn register_structural_revision(
        &mut self,
        source: DocumentRevision,
        revision: DocumentRevision,
        change: GpuMirrorStructure,
    ) -> (registered: Result<(), GpuMirrorDispatchError>)
        requires
            old(self).wf(),
            change.wf(),
        ensures
            final(self).wf(),
            match registered {
                Ok(_) => {
                    &&& structure_error(old(self)@, source, revision, change@) is None
                    &&& final(self)@ == structure_registered(
                        old(self)@,
                        StructuralModel { revision, change: change@ },
                    )
                },
                Err(error) => structure_error(old(self)@, source, revision, change@) == Some(error)
                    && *final(self) == *old(self),
            },
    {
        match self.check_structural_revision(source, revision, &change) {
            Ok(_) => {},
            Err(error) => {
                return Err(error);
            },
        }
        let ghost before = self@;
        let ghost entries = self.queue@;
        let ghost structural = StructuralModel { revision, change: change@ };
        proof {
            lemma_structure_registered_valid(before, structural);
        }
        if self.queue.len() == 0 {
            self.reconciler.restructure(revision, &change);
            assert(self@.queue =~= before.queue);
            return Ok(());
        }
        let n: usize = self.queue.len() - 1;
        let mut last = self.queue.remove(n);
        let ghost was = last;
        last.after.push(StructuralRevision { revision, change });
        proof {
            assert(last@.after =~= was@.after.push(structural));
            assert forall|i: int| 0 <= i < last.after@.len() implies (
            #[trigger] last.after@[i]).change.wf() by {
                if i < was.after@.len() {
                    assert(last.after@[i] == was.after@[i]);
                }
            }
        }
        self.queue.push(last);
        proof {
            assert(self@.queue =~= structure_registered(before, structural).queue);
            assert forall|i: int| 0 <= i < self.queue@.len() implies (
            #[trigger] self.queue@[i]).wf() by {
                if i < n {
                    assert(self.queue@[i] == entries[i]);
                }
            }
        }
        Ok(())
    }

    /// Drops the tiles of a layer that no one can reach any more, and says how many
    /// went at once. While something is being read back, they go when it is done.
    pub fn retire_layer_when_idle(&mut self, layer: LayerId) -> (count: usize)
        requires
            old(self).wf(),
        ensures
            final(self).wf(),
            if old(self)@.queue.len() == 0 {
                &&& layer_tiles(old(self)@.reconciler.mirror.tiles, layer).dom().finite()
                &&& count == layer_tiles(old(self)@.reconciler.mirror.tiles, layer).dom().len()
                &&& final(self)@ == (DispatcherModel {
                    reconciler: ReconcilerModel {
                        mirror: MirrorModel {
                            tiles: with_layer(
                                old(self)@.reconciler.mirror.tiles,
                                layer,
                                Map::empty(),
                            ),
                            ..old(self)@.reconciler.mirror
                        },
                        ..old(self)@.reconciler
                    },
                    ..old(self)@
                })
            } else {
                count == 0 && final(self)@ == (DispatcherModel {
                    retiring: old(self)@.retiring.push(layer),
                    ..old(self)@
                })
            },
    {
        let ghost before = self@;
        if self.queue.len() == 0 {
            let count: usize = self.reconciler.remove_layer(layer);
            assert(self@.queue =~= before.queue);
            count
        } else {
            self.retiring.push(layer);
            assert(self@.queue =~= before.queue);
            0
        }
    }

    pub fn mirror(&self) -> (mirror: &GpuCpuMirror)
        requires
            self.wf(),
        ensures
            mirror.wf(),
            mirror@ == self@.reconciler.mirror,
    {
        self.reconciler.mirror()
    }

    pub fn snapshot(&self) -> (snapshot: GpuCpuMirrorSnapshot)
        requires
            self.wf(),
        ensures
            snapshot.wf(),
            snapshot@ == self@.reconciler.mirror,
    {
        self.reconciler.snapshot()
    }

    pub fn pending_revision_count(&self) -> (count: usize)
        ensures
            count == self@.queue.len(),
    {
        self.queue.len()
    }

    /// How many batches have not been read back. A count past the largest number
    /// of its type stays at that number.
    pub fn pending_batch_count(&self) -> (count: usize)
        ensures
            count == if batches_left(self@.queue) <= usize::MAX {
                batches_left(self@.queue)
            } else {
                usize::MAX as int
            },
    {
        let ghost models = self@.queue;
        let mut count: usize = 0;
        let mut i: usize = 0;
        assert(models.subrange(0, 0) =~= Seq::empty());
        while i < self.queue.len()
            invariant
                models == queue_models(self.queue@),
                i <= self.queue@.len(),
                batches_left(models.subrange(0, i as int)) >= 0,
                count == if batches_left(models.subrange(0, i as int)) <= usize::MAX {
                    batches_left(models.subrange(0, i as int))
                } else {
                    usize::MAX as int
                },
            decreases self.queue@.len() - i,
        {
            let capture = &self.queue[i].capture;
            let queued: usize = capture.queued.len();
            proof {
                assert(models.subrange(0, i as int + 1).drop_last() =~= models.subrange(
                    0,
                    i as int,
                ));
                assert(models[i as int].capture == capture@);
                assert(capture@.queued.len() == queued);
            }
            count = if queued <= usize::MAX - count {
                count + queued
            } else {
                usize::MAX
            };
            if capture.active.is_some() && count < usize::MAX {
                count += 1;
            }
            i += 1;
        }
        assert(models.subrange(0, i as int) =~= models);
        count
    }

    pub fn resident_snapshot_bytes(&self) -> (bytes: u64)
        ensures
            bytes == self@.resident,
    {
        self.resident_snapshot_bytes
    }

    pub fn staging_byte_len(&self) -> (len: u64)
        ensures
            len == if self@.queue.len() > 0 {
                self@.queue[0].capture.staging()
            } else {
                0
            },
    {
        if self.queue.len() > 0 {
            assert(self@.queue[0] == self.queue@[0]@);
            self.queue[0].capture.staging_byte_len()
        } else {
            0
        }
    }

    pub fn max_snapshot_bytes(&self) -> (bytes: u64)
        ensures
            bytes == self@.max_snapshot,
    {
        self.max_snapshot_bytes
    }

    pub fn max_staging_bytes(&self) -> (bytes: u64)
        ensures
            bytes == self@.max_staging,
    {
        self.max_staging_bytes
    }
}

/// What a staging buffer holds never exceeds its limit.
pub proof fn law_staging_stays_within_its_limit(dispatcher: &GpuMirrorDispatcher)
    requires
        dispatcher.wf(),
        dispatcher@.queue.len() > 0,
    ensures
        dispatcher@.queue[0].capture.staging() <= dispatcher@.max_staging,
{
    let entry = dispatcher@.queue[0];
    assert(entry_aligned(entry, dispatcher@.reconciler.pending[0]));
    assert(entry.plan.batches[entry.received.len() as int].byte_len <= dispatcher@.max_staging);
}

/// What all snapshots hold never exceeds its limit, and is what has not reached the mirror.
pub proof fn law_snapshots_stay_within_their_limit(dispatcher: &GpuMirrorDispatcher)
    requires
        dispatcher.wf(),
    ensures
        dispatcher@.resident == queue_bytes(dispatcher@.queue),
        dispatcher@.resident <= dispatcher@.max_snapshot,
{
}

} // verus!
