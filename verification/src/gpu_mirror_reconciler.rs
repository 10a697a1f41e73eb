//! Brings batches that arrive in any order into the mirror, revision by revision.

use crate::document::{DocumentRevision, LayerId};
use crate::gpu_cpu_mirror::{
    apply_batches, borrowed_batches, bounds_error, copy_shapes, layer_tiles, mirror_geometry,
    patch_applies, patch_batch_models, patch_shapes, patches_error, plan_shapes, revision_error,
    shape_error, shapes_error, GpuCpuMirror, GpuCpuMirrorSnapshot, GpuMirrorPatchBatch,
    GpuMirrorPatchRegion, GpuMirrorReconcileError, MirrorModel, PatchBatchModel,
};
use crate::gpu_document_mirror::{
    batch_models, BatchPlanModel, GpuMirrorBatchPlan, GpuMirrorCopyRegion, GpuMirrorReadbackPlan,
    ReadbackPlanModel,
};
use crate::gpu_mirror_structure::{restructured, structure_fits, with_layer, GpuMirrorStructure};
use crate::gpu_raster_recovery::flat_regions;
use crate::keyed_map::Key;
use crate::raster_layer::RasterGeometry;
use vstd::prelude::*;

verus! {

#[derive(Debug)]
pub(crate) struct PendingMirrorRevision {
    pub(crate) revision: DocumentRevision,
    pub(crate) expected_batches: Vec<GpuMirrorBatchPlan>,
    pub(crate) batches: Vec<Option<GpuMirrorPatchBatch>>,
}

/// A revision that waits: what it expects, and what has arrived of it.
pub struct PendingModel {
    pub revision: DocumentRevision,
    pub expected: Seq<BatchPlanModel>,
    pub received: Seq<Option<PatchBatchModel>>,
}

pub(crate) open(crate) spec fn received_models(batches: Seq<Option<GpuMirrorPatchBatch>>) -> Seq<
    Option<PatchBatchModel>,
> {
    Seq::new(
        batches.len(),
        |i: int|
            match batches[i] {
                Some(batch) => Some(batch@),
                None => None,
            },
    )
}

impl View for PendingMirrorRevision {
    type V = PendingModel;

    open(crate) spec fn view(&self) -> PendingModel {
        PendingModel {
            revision: self.revision,
            expected: batch_models(self.expected_batches@),
            received: received_models(self.batches@),
        }
    }
}

pub(crate) open(crate) spec fn pending_models(pending: Seq<PendingMirrorRevision>) -> Seq<
    PendingModel,
> {
    Seq::new(pending.len(), |i: int| pending[i]@)
}

/// A batch whose every patch can be written.
pub open spec fn batch_applies(geometry: RasterGeometry, batch: PatchBatchModel) -> bool {
    forall|r: int|
        0 <= r < batch.regions.len() ==> patch_applies(geometry, #[trigger] batch.regions[r])
}

/// A waiting revision: one place for each expected batch, and whatever has
/// arrived can be written.
pub open spec fn pending_valid(geometry: RasterGeometry, pending: PendingModel) -> bool {
    &&& pending.received.len() == pending.expected.len()
    &&& pending.expected.len() > 0
    &&& forall|i: int|
        0 <= i < pending.expected.len() ==> (#[trigger] pending.expected[i]).index == i
            && pending.expected[i].revision == pending.revision
    &&& shapes_error(
        geometry,
        plan_shapes(pending.expected),
        plan_shapes(pending.expected).len() as int,
    ) is None
    &&& forall|i: int|
        #![trigger pending.received[i]]
        0 <= i < pending.received.len() && pending.received[i] is Some ==> batch_applies(
            geometry,
            pending.received[i]->0,
        )
}

pub open spec fn is_complete(pending: PendingModel) -> bool {
    forall|i: int| 0 <= i < pending.received.len() ==> (#[trigger] pending.received[i]) is Some
}

pub open spec fn received_batches(pending: PendingModel) -> Seq<PatchBatchModel> {
    Seq::new(pending.received.len(), |i: int| pending.received[i]->0)
}

/// The mirror after a complete revision has been written.
pub open spec fn advanced(mirror: MirrorModel, pending: PendingModel) -> MirrorModel {
    MirrorModel {
        revision: pending.revision,
        geometry: mirror.geometry,
        tiles: apply_batches(mirror.geometry, mirror.tiles, received_batches(pending)),
    }
}

pub struct ReconcilerModel {
    pub mirror: MirrorModel,
    pub latest: DocumentRevision,
    pub pending: Seq<PendingModel>,
}

/// Writes complete revisions from the front until one is not complete. Says
/// what is left, and which revisions were written.
pub open spec fn drained(mirror: MirrorModel, pending: Seq<PendingModel>) -> (
    MirrorModel,
    Seq<PendingModel>,
    Seq<DocumentRevision>,
)
    decreases pending.len(),
{
    if pending.len() > 0 && is_complete(pending[0]) {
        let rest = drained(advanced(mirror, pending[0]), pending.drop_first());
        (rest.0, rest.1, seq![pending[0].revision] + rest.2)
    } else {
        (mirror, pending, Seq::empty())
    }
}

pub open spec fn pending_position(pending: Seq<PendingModel>, revision: DocumentRevision) -> Option<
    int,
> {
    if exists|i: int| 0 <= i < pending.len() && (#[trigger] pending[i]).revision == revision {
        Some(choose|i: int| 0 <= i < pending.len() && (#[trigger] pending[i]).revision == revision)
    } else {
        None
    }
}

/// Later places hold later revisions.
pub open spec fn revisions_increase(pending: Seq<PendingModel>) -> bool {
    forall|i: int, j: int|
        #![trigger pending[i], pending[j]]
        0 <= i < j < pending.len() ==> pending[i].revision.0 < pending[j].revision.0
}

/// Why a plan is not taken, if it is not.
pub open spec fn registration_error(model: ReconcilerModel, plan: ReadbackPlanModel) -> Option<
    GpuMirrorReconcileError,
> {
    let geometry = model.mirror.geometry;
    let shapes = plan_shapes(plan.batches);
    if plan.layout@.tile_size != geometry.tile_size {
        Some(
            GpuMirrorReconcileError::TileSizeMismatch {
                expected: geometry.tile_size as u32,
                actual: plan.layout@.tile_size as u32,
            },
        )
    } else if plan.revision.0 <= model.latest.0 {
        Some(
            GpuMirrorReconcileError::RevisionNotNewer {
                latest: model.latest,
                requested: plan.revision,
            },
        )
    } else if plan.batches.len() == 0 {
        Some(GpuMirrorReconcileError::EmptyRevisionPlan)
    } else if exists|i: int|
        0 <= i < plan.batches.len() && ((#[trigger] plan.batches[i]).index != i
            || plan.batches[i].revision != plan.revision) {
        Some(GpuMirrorReconcileError::MalformedRevisionPlan)
    } else {
        shapes_error(geometry, shapes, shapes.len() as int)
    }
}

/// The revision that a plan leaves waiting.
pub open spec fn awaited(plan: ReadbackPlanModel) -> PendingModel {
    PendingModel {
        revision: plan.revision,
        expected: plan.batches,
        received: Seq::new(plan.batches.len(), |i: int| None::<PatchBatchModel>),
    }
}

/// Why a batch is not taken, if it is not.
pub open(crate) spec fn completion_error(model: ReconcilerModel, batch: &GpuMirrorPatchBatch) -> Option<
    GpuMirrorReconcileError,
> {
    let revision = batch@.revision;
    let index = batch@.index;
    match patches_error(model.mirror.geometry, batch.regions@, batch.regions@.len() as int) {
        Some(error) => Some(error),
        None => match pending_position(model.pending, revision) {
            None => Some(GpuMirrorReconcileError::UnknownRevision(revision)),
            Some(p) => {
                let pending = model.pending[p];
                if index >= pending.received.len() {
                    Some(
                        GpuMirrorReconcileError::BatchIndexOutOfRange {
                            revision,
                            index: index as u32,
                            count: pending.received.len() as usize,
                        },
                    )
                } else if pending.received[index] is Some {
                    Some(
                        GpuMirrorReconcileError::DuplicateBatch { revision, index: index as u32 },
                    )
                } else if pending.expected[index].byte_len != batch@.byte_len {
                    Some(
                        GpuMirrorReconcileError::BatchByteMismatch {
                            revision,
                            index: index as u32,
                            expected: pending.expected[index].byte_len as u64,
                            actual: batch@.byte_len as u64,
                        },
                    )
                } else if copy_shapes(pending.expected[index].regions) != patch_shapes(
                    batch.regions@,
                ) {
                    Some(
                        GpuMirrorReconcileError::BatchShapeMismatch {
                            revision,
                            index: index as u32,
                        },
                    )
                } else {
                    None
                }
            },
        },
    }
}

/// The waiting revisions after a batch has arrived.
pub open spec fn with_received(pending: Seq<PendingModel>, batch: PatchBatchModel) -> Seq<
    PendingModel,
> {
    let p = pending_position(pending, batch.revision)->0;
    pending.update(
        p,
        PendingModel {
            received: pending[p].received.update(batch.index, Some(batch)),
            ..pending[p]
        },
    )
}

/// Collects readback batches and writes each revision once it is complete and
/// every earlier one has been written.
#[derive(Debug)]
pub struct GpuMirrorReconciler {
    pub(crate) mirror: GpuCpuMirror,
    pub(crate) latest_registered: DocumentRevision,
    pub(crate) pending: Vec<PendingMirrorRevision>,
}

impl View for GpuMirrorReconciler {
    type V = ReconcilerModel;

    open(crate) spec fn view(&self) -> ReconcilerModel {
        ReconcilerModel {
            mirror: self.mirror@,
            latest: self.latest_registered,
            pending: pending_models(self.pending@),
        }
    }
}

/// What every operation of a reconciler keeps.
pub open spec fn reconciler_valid(model: ReconcilerModel) -> bool {
    &&& revisions_increase(model.pending)
    &&& forall|i: int|
        #![trigger model.pending[i]]
        0 <= i < model.pending.len() ==> {
            &&& pending_valid(model.mirror.geometry, model.pending[i])
            &&& model.mirror.revision.0 < model.pending[i].revision.0
            &&& model.pending[i].revision.0 <= model.latest.0
        }
    &&& model.mirror.revision.0 <= model.latest.0
    &&& model.pending.len() == 0 ==> model.mirror.revision == model.latest
    &&& model.pending.len() > 0 ==> {
        &&& model.pending.last().revision == model.latest
        &&& !is_complete(model.pending[0])
    }
}

impl GpuMirrorReconciler {
    pub open(crate) spec fn wf(self) -> bool {
        &&& self.mirror.wf()
        &&& reconciler_valid(self@)
    }

    pub fn new(
        width: u32,
        height: u32,
        tile_size: u32,
        initial_revision: DocumentRevision,
    ) -> (reconciler: Result<GpuMirrorReconciler, GpuMirrorReconcileError>)
        ensures
            match reconciler {
                Ok(reconciler) => {
                    &&& reconciler.wf()
                    &&& reconciler@ == (ReconcilerModel {
                        mirror: MirrorModel {
                            revision: initial_revision,
                            geometry: mirror_geometry(width, height, tile_size),
                            tiles: Map::empty(),
                        },
                        latest: initial_revision,
                        pending: Seq::empty(),
                    })
                },
                Err(GpuMirrorReconcileError::EmptyCanvas) => width == 0 || height == 0,
                Err(GpuMirrorReconcileError::InvalidTileSize) => width > 0 && height > 0
                    && tile_size == 0,
                Err(GpuMirrorReconcileError::TileStorageOverflow) => width > 0 && height > 0
                    && tile_size > 0 && !mirror_geometry(width, height, tile_size).valid(),
                Err(_) => false,
            },
            reconciler is Ok <==> mirror_geometry(width, height, tile_size).valid(),
    {
        match GpuCpuMirror::new(width, height, tile_size, initial_revision) {
            Ok(mirror) => {
                let reconciler = GpuMirrorReconciler {
                    mirror,
                    latest_registered: initial_revision,
                    pending: Vec::new(),
                };
                assert(reconciler@.pending =~= Seq::<PendingModel>::empty());
                Ok(reconciler)
            },
            Err(error) => Err(error),
        }
    }

    /// A reconciler that goes on from where the mirror is.
    pub fn from_mirror(mirror: GpuCpuMirror) -> (reconciler: GpuMirrorReconciler)
        requires
            mirror.wf(),
        ensures
            reconciler.wf(),
            reconciler@ == (ReconcilerModel {
                mirror: mirror@,
                latest: mirror@.revision,
                pending: Seq::empty(),
            }),
    {
        let latest_registered = mirror.revision;
        let reconciler = GpuMirrorReconciler { mirror, latest_registered, pending: Vec::new() };
        assert(reconciler@.pending =~= Seq::<PendingModel>::empty());
        reconciler
    }

    /// Makes a change of whole layers that comes before everything that is awaited.
    pub(crate) fn restructure(&mut self, revision: DocumentRevision, change: &GpuMirrorStructure)
        requires
            old(self).wf(),
            change.wf(),
            structure_fits(old(self)@.mirror.geometry, change@),
            old(self)@.mirror.revision.0 < revision.0,
            forall|i: int|
                0 <= i < old(self)@.pending.len() ==> revision.0 < (#[trigger] old(self)@.pending[
                    i
                ]).revision.0,
        ensures
            final(self).wf(),
            final(self)@ == (ReconcilerModel {
                mirror: MirrorModel {
                    revision,
                    geometry: old(self)@.mirror.geometry,
                    tiles: restructured(old(self)@.mirror.tiles, change@),
                },
                latest: if old(self)@.pending.len() == 0 {
                    revision
                } else {
                    old(self)@.latest
                },
                pending: old(self)@.pending,
            }),
    {
        let ghost before = self@;
        self.mirror.restructure(revision, change);
        if self.pending.len() == 0 {
            self.latest_registered = revision;
        }
        proof {
            assert(self@.pending =~= before.pending);
            if before.pending.len() > 0 {
                assert(revision.0 < before.pending[before.pending.len() - 1].revision.0);
            }
        }
    }

    /// Drops the tiles of one layer, and says how many there were.
    pub(crate) fn remove_layer(&mut self, layer: LayerId) -> (count: usize)
        requires
            old(self).wf(),
        ensures
            final(self).wf(),
            final(self)@ == (ReconcilerModel {
                mirror: MirrorModel {
                    tiles: with_layer(old(self)@.mirror.tiles, layer, Map::empty()),
                    ..old(self)@.mirror
                },
                ..old(self)@
            }),
            layer_tiles(old(self)@.mirror.tiles, layer).dom().finite(),
            count == layer_tiles(old(self)@.mirror.tiles, layer).dom().len(),
    {
        let ghost before = self@;
        let count: usize = self.mirror.remove_layer(layer);
        assert(self@.pending =~= before.pending);
        count
    }

    /// Checks whether the batches of `plan` may be awaited.
    #[verifier::loop_isolation(false)]
    pub fn check_plan(&self, plan: &GpuMirrorReadbackPlan) -> (checked: Result<
        (),
        GpuMirrorReconcileError,
    >)
        requires
            self.wf(),
        ensures
            match checked {
                Ok(_) => registration_error(self@, plan@) is None,
                Err(error) => registration_error(self@, plan@) == Some(error),
            },
    {
        let tile_size: u32 = plan.layout().tile_size();
        if tile_size != self.mirror.tile_size {
            return Err(
                GpuMirrorReconcileError::TileSizeMismatch {
                    expected: self.mirror.tile_size,
                    actual: tile_size,
                },
            );
        }
        if plan.revision().get() <= self.latest_registered.get() {
            return Err(
                GpuMirrorReconcileError::RevisionNotNewer {
                    latest: self.latest_registered,
                    requested: plan.revision(),
                },
            );
        }
        let batches = plan.batches();
        if batches.len() == 0 {
            return Err(GpuMirrorReconcileError::EmptyRevisionPlan);
        }
        let ghost models = plan@.batches;
        let mut i: usize = 0;
        while i < batches.len()
            invariant
                models == plan@.batches,
                models == batch_models(batches@),
                i <= batches@.len(),
                forall|j: int|
                    0 <= j < i ==> (#[trigger] models[j]).index == j && models[j].revision
                        == plan@.revision,
            decreases batches@.len() - i,
        {
            assert(models[i as int] == batches@[i as int]@);
            if batches[i].index() as usize != i || batches[i].revision().get()
                != plan.revision().get() {
                return Err(GpuMirrorReconcileError::MalformedRevisionPlan);
            }
            i += 1;
        }
        self.mirror.validate_plan(plan)
    }

    /// Takes note that the batches of `plan` will arrive.
    pub fn register_plan(&mut self, plan: &GpuMirrorReadbackPlan) -> (registered: Result<
        (),
        GpuMirrorReconcileError,
    >)
        requires
            old(self).wf(),
        ensures
            final(self).wf(),
            match registered {
                Ok(_) => {
                    &&& registration_error(old(self)@, plan@) is None
                    &&& final(self)@ == (ReconcilerModel {
                        mirror: old(self)@.mirror,
                        latest: plan@.revision,
                        pending: old(self)@.pending.push(awaited(plan@)),
                    })
                },
                Err(error) => registration_error(old(self)@, plan@) == Some(error)
                    && *final(self) == *old(self),
            },
    {
        match self.check_plan(plan) {
            Ok(_) => {},
            Err(error) => {
                return Err(error);
            },
        }
        let batches = plan.batches();
        let ghost models = plan@.batches;
        let mut expected_batches: Vec<GpuMirrorBatchPlan> = Vec::new();
        let mut awaiting: Vec<Option<GpuMirrorPatchBatch>> = Vec::new();
        let mut i: usize = 0;
        while i < batches.len()
            invariant
                models == batch_models(batches@),
                i <= batches@.len(),
                expected_batches@.len() == i,
                awaiting@.len() == i,
                forall|j: int| 0 <= j < i ==> (#[trigger] expected_batches@[j])@ == models[j],
                forall|j: int| 0 <= j < i ==> (#[trigger] awaiting@[j]) is None,
            decreases batches@.len() - i,
        {
            expected_batches.push(batches[i].duplicate());
            awaiting.push(None);
            i += 1;
        }
        let ghost before = self@;
        let added = PendingMirrorRevision {
            revision: plan.revision(),
            expected_batches,
            batches: awaiting,
        };
        proof {
            assert(added@.expected =~= models);
            assert(added@.received =~= awaited(plan@).received);
            assert(added@ == awaited(plan@));
        }
        self.pending.push(added);
        self.latest_registered = plan.revision();
        proof {
            assert(self@.pending =~= before.pending.push(awaited(plan@)));
            assert(awaited(plan@).received[0] is None);
            assert forall|j: int|
                #![trigger self@.pending[j]]
                0 <= j < self@.pending.len() implies {
                &&& pending_valid(self@.mirror.geometry, self@.pending[j])
                &&& self@.mirror.revision.0 < self@.pending[j].revision.0
                &&& self@.pending[j].revision.0 <= self@.latest.0
            } by {
                if j < before.pending.len() {
                    assert(self@.pending[j] == before.pending[j]);
                }
            }
            assert(revisions_increase(self@.pending)) by {
                assert forall|a: int, b: int|
                    #![trigger self@.pending[a], self@.pending[b]]
                    0 <= a < b < self@.pending.len() implies self@.pending[a].revision.0
                    < self@.pending[b].revision.0 by {
                    assert(self@.pending[a] == before.pending[a]);
                    if b < before.pending.len() {
                        assert(self@.pending[b] == before.pending[b]);
                    }
                }
            }
            if before.pending.len() > 0 {
                assert(self@.pending[0] == before.pending[0]);
            }
        }
        Ok(())
    }

    fn position(&self, revision: DocumentRevision) -> (position: Option<usize>)
        requires
            revisions_increase(self@.pending),
        ensures
            match position {
                Some(p) => pending_position(self@.pending, revision) == Some(p as int) && p
                    < self@.pending.len() && self@.pending[p as int].revision == revision,
                None => pending_position(self@.pending, revision) is None,
            },
    {
        let ghost models = self@.pending;
        let mut p: usize = 0;
        while p < self.pending.len()
            invariant
                models == self@.pending,
                revisions_increase(models),
                p <= self.pending@.len(),
                forall|j: int| 0 <= j < p ==> (#[trigger] models[j]).revision != revision,
            decreases self.pending@.len() - p,
        {
            assert(models[p as int] == self.pending@[p as int]@);
            if self.pending[p].revision.get() == revision.get() {
                proof {
                    let found = choose|i: int|
                        0 <= i < models.len() && (#[trigger] models[i]).revision == revision;
                    assert(models[p as int].revision == revision);
                    if found < p {
                        assert(models[found].revision.0 < models[p as int].revision.0);
                    } else if p < found {
                        assert(models[p as int].revision.0 < models[found].revision.0);
                    }
                }
                return Some(p);
            }
            p += 1;
        }
        None
    }

    /// Takes a batch that has arrived. Says which revisions it let through.
    pub fn complete_batch(&mut self, batch: GpuMirrorPatchBatch) -> (applied: Result<
        Vec<DocumentRevision>,
        GpuMirrorReconcileError,
    >)
        requires
            old(self).wf(),
        ensures
            final(self).wf(),
            match applied {
                Ok(applied) => {
                    let waiting = with_received(old(self)@.pending, batch@);
                    let after = drained(old(self)@.mirror, waiting);
                    &&& completion_error(old(self)@, &batch) is None
                    &&& final(self)@ == (ReconcilerModel {
                        mirror: after.0,
                        latest: old(self)@.latest,
                        pending: after.1,
                    })
                    &&& applied@ == after.2
                },
                Err(error) => completion_error(old(self)@, &batch) == Some(error) && final(self)@
                    == old(self)@,
            },
    {
        let ghost before = self@;
        let ghost model = batch@;
        let arrived = vec![&batch];
        proof {
            let all = borrowed_batches(arrived@);
            assert(all =~= seq![batch]);
            assert(all.drop_last() =~= Seq::<GpuMirrorPatchBatch>::empty());
            assert(flat_regions(all) =~= batch.regions@);
            assert(all.subrange(0, 1) =~= all);
            assert(revision_error(before.mirror.geometry, batch.revision, all, 0) is None);
        }
        match self.mirror.validate_revision(batch.revision(), &arrived) {
            Ok(_) => {
                assert(*arrived@[0] == batch);
            },
            Err(error) => {
                return Err(error);
            },
        }
        let revision = batch.revision();
        let p = match self.position(revision) {
            Some(p) => p,
            None => {
                return Err(GpuMirrorReconcileError::UnknownRevision(revision));
            },
        };
        let ghost pending = before.pending[p as int];
        assert(pending == self.pending@[p as int]@);
        assert(pending_valid(before.mirror.geometry, pending));
        let index: usize = batch.index() as usize;
        if index >= self.pending[p].batches.len() {
            return Err(
                GpuMirrorReconcileError::BatchIndexOutOfRange {
                    revision,
                    index: batch.index(),
                    count: self.pending[p].batches.len(),
                },
            );
        }
        assert(pending.received[index as int] is Some == self.pending@[p as int].batches@[
            index as int
        ] is Some);
        if self.pending[p].batches[index].is_some() {
            return Err(
                GpuMirrorReconcileError::DuplicateBatch { revision, index: batch.index() },
            );
        }
        let expected = &self.pending[p].expected_batches[index];
        assert(expected@ == pending.expected[index as int]);
        if expected.byte_len() != batch.byte_len() {
            return Err(
                GpuMirrorReconcileError::BatchByteMismatch {
                    revision,
                    index: batch.index(),
                    expected: expected.byte_len(),
                    actual: batch.byte_len(),
                },
            );
        }
        if !shapes_match(&expected.regions, &batch.regions) {
            return Err(
                GpuMirrorReconcileError::BatchShapeMismatch { revision, index: batch.index() },
            );
        }
        proof {
            lemma_valid_batch_applies(before.mirror.geometry, batch.regions@);
            assert(batch_applies(before.mirror.geometry, model));
        }
        let mut slot = self.pending.remove(p);
        slot.batches.set(index, Some(batch));
        proof {
            assert(slot@.received =~= pending.received.update(model.index, Some(model)));
        }
        self.pending.insert(p, slot);
        proof {
            assert(self@.pending =~= with_received(before.pending, model));
            lemma_received_valid(before, model);
        }
        let applied = self.apply_ready();
        Ok(applied)
    }

    pub fn mirror(&self) -> (mirror: &GpuCpuMirror)
        requires
            self.wf(),
        ensures
            mirror.wf(),
            mirror@ == self@.mirror,
    {
        &self.mirror
    }

    pub fn snapshot(&self) -> (snapshot: GpuCpuMirrorSnapshot)
        requires
            self.wf(),
        ensures
            snapshot.wf(),
            snapshot@ == self@.mirror,
    {
        self.mirror.snapshot()
    }

    pub fn pending_revision_count(&self) -> (count: usize)
        ensures
            count == self@.pending.len(),
    {
        self.pending.len()
    }

    /// Writes complete revisions from the front.
    fn apply_ready(&mut self) -> (applied: Vec<DocumentRevision>)
        requires
            old(self).mirror.wf(),
            waiting_valid(old(self)@),
        ensures
            final(self).wf(),
            ({
                let after = drained(old(self)@.mirror, old(self)@.pending);
                &&& final(self)@ == (ReconcilerModel {
                    mirror: after.0,
                    latest: old(self)@.latest,
                    pending: after.1,
                })
                &&& applied@ == after.2
            }),
    {
        let ghost target = drained(self@.mirror, self@.pending);
        let mut applied: Vec<DocumentRevision> = Vec::new();
        assert(applied@ + target.2 =~= target.2);
        while self.pending.len() > 0 && all_received(&self.pending[0])
            invariant
                self.mirror.wf(),
                waiting_valid(self@),
                self@.latest == old(self)@.latest,
                ({
                    let rest = drained(self@.mirror, self@.pending);
                    &&& target.0 == rest.0
                    &&& target.1 == rest.1
                    &&& target.2 == applied@ + rest.2
                }),
            decreases self.pending@.len(),
        {
            let ghost mid = self@;
            let ghost rest = drained(mid.mirror, mid.pending);
            let ghost first = mid.pending[0];
            assert(first == self.pending@[0]@);
            assert(pending_valid(mid.mirror.geometry, first));
            let front = self.pending.remove(0);
            let revision = front.revision;
            assert(is_complete(first));
            proof {
                assert forall|i: int| 0 <= i < front.batches@.len() implies #[trigger] front.batches@[
                    i
                ] is Some by {
                    assert(first.received[i] is Some);
                }
            }
            let ghost received = front.batches@;
            let batches = unwrap_batches(front.batches);
            proof {
                assert(patch_batch_models(batches@) =~= received_batches(first)) by {
                    assert forall|i: int| 0 <= i < batches@.len() implies batches@[i]@
                        == first.received[i]->0 by {
                        assert(received[i] == Some(batches@[i]));
                    }
                }
                assert forall|b: int, r: int|
                    #![trigger batches@[b].regions@[r]]
                    0 <= b < batches@.len() && 0 <= r < batches@[b].regions@.len() implies
                    patch_applies(mid.mirror.geometry, batches@[b].regions@[r]@) by {
                    assert(first.received[b] == Some(batches@[b]@));
                    assert(batch_applies(mid.mirror.geometry, first.received[b]->0));
                    assert(batches@[b]@.regions[r] == batches@[b].regions@[r]@);
                }
            }
            self.mirror.apply_validated_revision(revision, &batches);
            proof {
                assert(self@.pending =~= mid.pending.drop_first());
                assert(self@.mirror == advanced(mid.mirror, first));
                lemma_advance_valid(mid);
                let next = drained(self@.mirror, self@.pending);
                assert(rest.2 == seq![revision] + next.2);
                assert(applied@ + rest.2 =~= applied@.push(revision) + next.2);
            }
            applied.push(revision);
        }
        proof {
            let rest = drained(self@.mirror, self@.pending);
            assert(applied@ + rest.2 =~= applied@) by {
                if self@.pending.len() > 0 {
                    assert(self@.pending[0] == self.pending@[0]@);
                }
            }
        }
        applied
    }
}

/// As `reconciler_valid`, but the front may be complete.
pub open spec fn waiting_valid(model: ReconcilerModel) -> bool {
    &&& revisions_increase(model.pending)
    &&& forall|i: int|
        #![trigger model.pending[i]]
        0 <= i < model.pending.len() ==> {
            &&& pending_valid(model.mirror.geometry, model.pending[i])
            &&& model.mirror.revision.0 < model.pending[i].revision.0
            &&& model.pending[i].revision.0 <= model.latest.0
        }
    &&& model.mirror.revision.0 <= model.latest.0
    &&& model.pending.len() == 0 ==> model.mirror.revision == model.latest
    &&& model.pending.len() > 0 ==> model.pending.last().revision == model.latest
}

proof fn lemma_advance_valid(model: ReconcilerModel)
    requires
        waiting_valid(model),
        model.pending.len() > 0,
    ensures
        waiting_valid(
            ReconcilerModel {
                mirror: advanced(model.mirror, model.pending[0]),
                latest: model.latest,
                pending: model.pending.drop_first(),
            },
        ),
{
    let rest = model.pending.drop_first();
    let next = ReconcilerModel {
        mirror: advanced(model.mirror, model.pending[0]),
        latest: model.latest,
        pending: rest,
    };
    assert forall|i: int|
        #![trigger next.pending[i]]
        0 <= i < next.pending.len() implies {
        &&& pending_valid(next.mirror.geometry, next.pending[i])
        &&& next.mirror.revision.0 < next.pending[i].revision.0
        &&& next.pending[i].revision.0 <= next.latest.0
    } by {
        assert(rest[i] == model.pending[i + 1]);
        assert(model.pending[0].revision.0 < model.pending[i + 1].revision.0);
    }
    assert forall|i: int, j: int|
        #![trigger rest[i], rest[j]]
        0 <= i < j < rest.len() implies rest[i].revision.0 < rest[j].revision.0 by {
        assert(rest[i] == model.pending[i + 1] && rest[j] == model.pending[j + 1]);
    }
    if rest.len() > 0 {
        assert(rest.last() == model.pending.last());
    } else {
        assert(model.pending.last() == model.pending[0]);
    }
}

proof fn lemma_received_valid(model: ReconcilerModel, batch: PatchBatchModel)
    requires
        reconciler_valid(model),
        pending_position(model.pending, batch.revision) is Some,
        0 <= batch.index < model.pending[pending_position(model.pending, batch.revision)->0].received.len(),
        batch_applies(model.mirror.geometry, batch),
    ensures
        waiting_valid(
            ReconcilerModel { pending: with_received(model.pending, batch), ..model },
        ),
{
    let p = pending_position(model.pending, batch.revision)->0;
    let after = with_received(model.pending, batch);
    assert(0 <= p < model.pending.len());
    assert forall|i: int|
        #![trigger after[i]]
        0 <= i < after.len() implies {
        &&& pending_valid(model.mirror.geometry, after[i])
        &&& model.mirror.revision.0 < after[i].revision.0
        &&& after[i].revision.0 <= model.latest.0
    } by {
        assert(pending_valid(model.mirror.geometry, model.pending[i]));
        if i == p {
            let old_one = model.pending[p];
            let new_one = after[p];
            assert forall|k: int|
                #![trigger new_one.received[k]]
                0 <= k < new_one.received.len() && new_one.received[k] is Some implies batch_applies(
                model.mirror.geometry,
                new_one.received[k]->0,
            ) by {
                if k != batch.index {
                    assert(new_one.received[k] == old_one.received[k]);
                }
            }
        }
    }
    assert forall|i: int, j: int|
        #![trigger after[i], after[j]]
        0 <= i < j < after.len() implies after[i].revision.0 < after[j].revision.0 by {
        assert(model.pending[i].revision.0 < model.pending[j].revision.0);
    }
    if after.len() > 0 {
        assert(after.last().revision == model.pending.last().revision);
    }
}

/// Patches that pass the check can be written.
proof fn lemma_valid_batch_applies(geometry: RasterGeometry, regions: Seq<GpuMirrorPatchRegion>)
    requires
        geometry.valid(),
        patches_error(geometry, regions, regions.len() as int) is None,
        forall|r: int|
            0 <= r < regions.len() && (#[trigger] regions[r]).initialized
                ==> regions[r].local_bounds@.nonempty(),
    ensures
        forall|r: int|
            0 <= r < regions.len() ==> patch_applies(geometry, (#[trigger] regions[r])@),
{
    assert forall|r: int| 0 <= r < regions.len() implies patch_applies(
        geometry,
        (#[trigger] regions[r])@,
    ) by {
        lemma_patches_ok(geometry, regions, regions.len() as int, r);
        assert(shape_error(geometry, patch_shapes(regions), r) is None);
        assert(bounds_error(geometry, regions[r].key, regions[r].local_bounds) is None);
    }
}

proof fn lemma_patches_ok(
    geometry: RasterGeometry,
    regions: Seq<GpuMirrorPatchRegion>,
    n: int,
    r: int,
)
    requires
        patches_error(geometry, regions, n) is None,
        0 <= r < n,
    ensures
        shape_error(geometry, patch_shapes(regions), r) is None,
        crate::gpu_cpu_mirror::pixel_error(regions[r]@) is None,
    decreases n,
{
    if r < n - 1 {
        lemma_patches_ok(geometry, regions, n - 1, r);
    }
}

fn all_received(pending: &PendingMirrorRevision) -> (all: bool)
    ensures
        all == is_complete(pending@),
{
    let mut i: usize = 0;
    while i < pending.batches.len()
        invariant
            i <= pending.batches@.len(),
            forall|j: int| 0 <= j < i ==> (#[trigger] pending@.received[j]) is Some,
        decreases pending.batches@.len() - i,
    {
        if pending.batches[i].is_none() {
            assert(pending@.received[i as int] is None);
            return false;
        }
        i += 1;
    }
    true
}

/// Whether a batch brings exactly the regions that were asked for.
pub(crate) fn shapes_match(
    expected: &Vec<GpuMirrorCopyRegion>,
    actual: &Vec<GpuMirrorPatchRegion>,
) -> (matches: bool)
    ensures
        matches == (copy_shapes(expected@) == patch_shapes(actual@)),
        matches ==> expected@.len() == actual@.len(),
{
    let ghost wanted = copy_shapes(expected@);
    let ghost found = patch_shapes(actual@);
    if expected.len() != actual.len() {
        assert(wanted.len() != found.len());
        return false;
    }
    let mut i: usize = 0;
    while i < expected.len()
        invariant
            wanted == copy_shapes(expected@),
            found == patch_shapes(actual@),
            expected@.len() == actual@.len(),
            i <= expected@.len(),
            forall|j: int| 0 <= j < i ==> #[trigger] wanted[j] == found[j],
        decreases expected@.len() - i,
    {
        if !(expected[i].key.same(actual[i].key) && expected[i].local_bounds.same(
            actual[i].local_bounds,
        ) && expected[i].initialized == actual[i].initialized) {
            assert(wanted[i as int] != found[i as int]);
            return false;
        }
        i += 1;
    }
    assert(wanted =~= found);
    true
}

/// The batches of a revision that is complete.
fn unwrap_batches(batches: Vec<Option<GpuMirrorPatchBatch>>) -> (unwrapped: Vec<
    GpuMirrorPatchBatch,
>)
    requires
        forall|i: int| 0 <= i < batches@.len() ==> (#[trigger] batches@[i]) is Some,
    ensures
        unwrapped@.len() == batches@.len(),
        forall|i: int|
            0 <= i < batches@.len() ==> batches@[i] == Some(#[trigger] unwrapped@[i]),
{
    let ghost all = batches@;
    let mut remaining = batches;
    let mut unwrapped: Vec<GpuMirrorPatchBatch> = Vec::new();
    while remaining.len() > 0
        invariant
            remaining@.len() + unwrapped@.len() == all.len(),
            forall|i: int| 0 <= i < all.len() ==> (#[trigger] all[i]) is Some,
            remaining@ == all.subrange(unwrapped@.len() as int, all.len() as int),
            forall|i: int|
                0 <= i < unwrapped@.len() ==> all[i] == Some(#[trigger] unwrapped@[i]),
        decreases remaining@.len(),
    {
        let ghost done = unwrapped@.len() as int;
        assert(remaining@[0] == all[done]);
        match remaining.remove(0) {
            Some(batch) => {
                unwrapped.push(batch);
            },
            None => {},
        }
        assert(remaining@ =~= all.subrange(done + 1, all.len() as int));
    }
    unwrapped
}

/// Revisions are applied in the order in which they were registered, none before it is complete
/// and none past one that is not, whatever the order in which their batches arrive.
pub proof fn law_revisions_apply_in_registration_order(
    mirror: MirrorModel,
    pending: Seq<PendingModel>,
)
    ensures
        ({
            let (after, rest, applied) = drained(mirror, pending);
            &&& applied.len() + rest.len() == pending.len()
            &&& rest == pending.subrange(applied.len() as int, pending.len() as int)
            &&& forall|i: int|
                #![trigger applied[i]]
                0 <= i < applied.len() ==> applied[i] == pending[i].revision && is_complete(
                    pending[i],
                )
            &&& rest.len() > 0 ==> !is_complete(rest[0])
            &&& after.geometry == mirror.geometry
            &&& applied.len() == 0 ==> after == mirror
            &&& applied.len() > 0 ==> after.revision == applied.last()
        }),
    decreases pending.len(),
{
    let (after, rest, applied) = drained(mirror, pending);
    if pending.len() > 0 && is_complete(pending[0]) {
        let tail = pending.drop_first();
        let next = advanced(mirror, pending[0]);
        law_revisions_apply_in_registration_order(next, tail);
        let (_, _, later) = drained(next, tail);
        assert(applied == seq![pending[0].revision] + later);
        assert(rest =~= pending.subrange(applied.len() as int, pending.len() as int));
        assert forall|i: int| #![trigger applied[i]] 0 <= i < applied.len() implies applied[i]
            == pending[i].revision && is_complete(pending[i]) by {
            if i > 0 {
                assert(applied[i] == later[i - 1]);
                assert(tail[i - 1] == pending[i]);
            }
        }
        if later.len() > 0 {
            assert(applied.last() == later.last());
        }
    } else {
        assert(rest =~= pending.subrange(0, pending.len() as int));
    }
}

} // verus!
