//! Bringing the pixels of a resident document back to the CPU.

use crate::device::DeviceLimits;
use crate::document::{DocumentRevision, LayerId};
use crate::gpu_cpu_mirror::{GpuMirrorPatchBatch, MirrorModel, PatchBatchModel};
use crate::gpu_document_mirror_dispatcher::{
    completed_with, finish_reported, front_error, layers_dropped, revision_finished,
    revision_mirrored, structures_applied, DispatcherModel, GpuMirrorDispatchCompletion,
    GpuMirrorDispatchError, StructuralModel,
};
use crate::gpu_live_recovery::{
    GpuLiveRecovery, GpuMirrorRecoveryCommit, GpuMirrorRecoveryPurpose, LiveModel,
};
use crate::gpu_mirror_capture::{
    batch_read, discard_error, map_begin_error, map_begun, mapped_bytes, next_readback_error, readback_prepared,
    readback_returned, readback_sent, submission_error, GpuMirrorMapEvent,
};
use crate::gpu_mirror_reconciler::ReconcilerModel;
use crate::gpu_raster_transition::TransitionModel;
use crate::gpu_recovery_journal::{record_bytes, record_models};
use crate::gpu_resident_document::{
    GpuResidentDocument, GpuResidentDocumentError, HandoffModel, PendingGpuResidentMirrorHandoff,
    ResidentModel,
};
use vstd::pervasive::unreached;
use vstd::prelude::*;

verus! {

/// A batch whose copy into a readable buffer was encoded.
#[derive(Debug)]
pub struct PreparedGpuResidentMirrorReadback {
    pub(crate) staging_bytes: u64,
}

#[derive(Clone, Copy, Debug, PartialEq, Eq, Structural)]
pub struct GpuResidentMirrorReadbackSubmission {
    pub staging_bytes: u64,
}

/// A batch that arrived. Where it was the last one of its revision, recovery has taken the
/// pixels.
#[derive(Debug)]
pub struct GpuResidentMirrorCompletion {
    pub revision: DocumentRevision,
    pub batch_index: u32,
    pub byte_len: u64,
    pub applied_revisions: Vec<DocumentRevision>,
    pub handoff: Option<GpuMirrorRecoveryCommit>,
}

/// A step that was undone meanwhile has no use for its pixels.
pub open spec fn resolved_purpose(
    recovery: LiveModel,
    requested: GpuMirrorRecoveryPurpose,
    revision: DocumentRevision,
) -> GpuMirrorRecoveryPurpose {
    match requested {
        GpuMirrorRecoveryPurpose::History(id) => if recovery.waiting(revision) != Some(id) {
            GpuMirrorRecoveryPurpose::ReconcileOnly
        } else {
            requested
        },
        GpuMirrorRecoveryPurpose::ReconcileOnly => requested,
    }
}

/// What recovery says of the pixels that it took.
pub open(crate) spec fn handoff_reported(
    recovery: LiveModel,
    purpose: GpuMirrorRecoveryPurpose,
    snapshot: MirrorModel,
    transition: TransitionModel,
    commit: GpuMirrorRecoveryCommit,
) -> bool {
    let journal = recovery.timeline.journal;
    &&& commit.purpose == purpose
    &&& commit.attachment == recovery.attachment(purpose, transition)
    &&& match commit.unused_transition {
        Some(unused) => purpose is ReconcileOnly && unused.wf() && unused@ == transition,
        None => purpose is History,
    }
    &&& commit.advance.previous_base.wf()
    &&& commit.advance.previous_base@ == recovery.timeline.base
    &&& commit.advance.retirement.previous_revision == journal.mirrored
    &&& commit.advance.retirement.mirrored_revision == snapshot.revision
    &&& commit.advance.retirement.retired_bytes == record_bytes(journal.retired(snapshot.revision))
    &&& record_models(commit.advance.retirement.records@) == journal.retired(snapshot.revision)
}

/// What comes of offering recovery the pixels that it has not taken yet.
pub open(crate) spec fn handoff_retried(
    model: ResidentModel,
    handoff: HandoffModel,
    result: Result<GpuResidentMirrorCompletion, GpuResidentDocumentError>,
    after: ResidentModel,
) -> bool {
    let purpose = resolved_purpose(model.recovery, handoff.purpose, handoff.transition.revision);
    match model.recovery.handoff_error(purpose, handoff.snapshot, handoff.transition) {
        Some(error) => {
            &&& result matches Err(found) && found == GpuResidentDocumentError::Recovery(error)
            &&& after == (ResidentModel {
                handoff: Some(HandoffModel { last_error: Some(error), ..handoff }),
                ..model
            })
        },
        None => {
            &&& result matches Ok(completion)
            &&& completion.revision == handoff.revision
            &&& completion.batch_index == handoff.batch_index
            &&& completion.byte_len == handoff.byte_len
            &&& completion.applied_revisions@ == handoff.applied
            &&& completion.handoff matches Some(commit)
            &&& handoff_reported(
                model.recovery,
                purpose,
                handoff.snapshot,
                handoff.transition,
                commit,
            )
            &&& after == (ResidentModel {
                recovery: model.recovery.handed_off(
                    purpose,
                    handoff.snapshot,
                    handoff.transition,
                ).base_advanced(model.mirror.reconciler.mirror),
                purposes: model.purposes.drop_first(),
                handoff: None,
                ..model
            })
        },
    }
}

/// The document that owes recovery the pixels of a revision.
pub open(crate) spec fn owing(
    model: ResidentModel,
    mirror: DispatcherModel,
    completion: GpuMirrorDispatchCompletion,
) -> ResidentModel {
    ResidentModel {
        mirror,
        handoff: Some(
            HandoffModel {
                revision: completion.revision,
                batch_index: completion.batch_index,
                byte_len: completion.byte_len,
                applied: completion.applied_revisions@,
                purpose: model.purposes[0],
                snapshot: completion.recovery_snapshot->0@,
                transition: completion.recovery_transition->0@,
                last_error: None,
            },
        ),
        ..model
    }
}

/// What comes of a batch that the dispatcher has dealt with.
pub open(crate) spec fn batch_reported(
    model: ResidentModel,
    mirror: DispatcherModel,
    finished: Result<Option<GpuMirrorDispatchCompletion>, GpuMirrorDispatchError>,
    result: Result<Option<GpuResidentMirrorCompletion>, GpuResidentDocumentError>,
    after: ResidentModel,
) -> bool {
    match finished {
        Err(error) => {
            &&& result matches Err(found) && found == GpuResidentDocumentError::MirrorDispatch(
                error,
            )
            &&& after == (ResidentModel { mirror, ..model })
        },
        Ok(None) => {
            &&& result matches Ok(completion) && completion is None
            &&& after == (ResidentModel { mirror, ..model })
        },
        Ok(Some(completion)) => match completion.recovery_transition {
            None => {
                &&& result matches Ok(Some(reported))
                &&& reported.revision == completion.revision
                &&& reported.batch_index == completion.batch_index
                &&& reported.byte_len == completion.byte_len
                &&& reported.applied_revisions@ == completion.applied_revisions@
                &&& reported.handoff is None
                &&& after == (ResidentModel { mirror, ..model })
            },
            Some(_) => {
                let owed = owing(model, mirror, completion);
                handoff_retried(owed, owed.handoff->0, some_of(result), after)
            },
        },
    }
}

/// A result that holds something.
pub open spec fn some_of(
    result: Result<Option<GpuResidentMirrorCompletion>, GpuResidentDocumentError>,
) -> Result<GpuResidentMirrorCompletion, GpuResidentDocumentError> {
    match result {
        Ok(completion) => Ok(completion->0),
        Err(error) => Err(error),
    }
}

impl ResidentModel {
    /// Why no batch can be read back now, if none can.
    pub open spec fn readback_error(self, limits: DeviceLimits) -> Option<
        GpuResidentDocumentError,
    > {
        if let Some(handoff) = self.handoff {
            Some(GpuResidentDocumentError::MirrorHandoffPending(handoff.revision))
        } else if self.mirror.queue.len() == 0 {
            None
        } else {
            match next_readback_error(self.mirror.queue[0].capture, limits) {
                Some(error) => Some(
                    GpuResidentDocumentError::MirrorDispatch(
                        GpuMirrorDispatchError::Readback(error),
                    ),
                ),
                None => None,
            }
        }
    }
}

/// What a readback is for once it arrives.
pub fn resolve_mirror_purpose(
    recovery: &GpuLiveRecovery,
    requested: GpuMirrorRecoveryPurpose,
    revision: DocumentRevision,
) -> (purpose: GpuMirrorRecoveryPurpose)
    requires
        recovery.wf(),
    ensures
        purpose == resolved_purpose(recovery@, requested, revision),
{
    match requested {
        GpuMirrorRecoveryPurpose::History(id) => {
            let waits = match recovery.spills().id_for_revision(revision) {
                Some(waiting) => waiting.get() == id.get(),
                None => false,
            };
            if waits {
                requested
            } else {
                GpuMirrorRecoveryPurpose::ReconcileOnly
            }
        },
        GpuMirrorRecoveryPurpose::ReconcileOnly => requested,
    }
}

impl GpuResidentDocument {
    /// Encodes the copy of the next batch, if one is left.
    pub fn prepare_next_mirror_readback(&mut self, limits: DeviceLimits) -> (prepared: Result<
        Option<PreparedGpuResidentMirrorReadback>,
        GpuResidentDocumentError,
    >)
        requires
            old(self).wf(),
        ensures
            final(self).wf(),
            match old(self)@.readback_error(limits) {
                Some(expected) => {
                    &&& prepared matches Err(error) && error == expected
                    &&& final(self)@ == old(self)@
                },
                None => if old(self)@.mirror.queue.len() == 0 {
                    &&& prepared matches Ok(batch) && batch is None
                    &&& final(self)@ == old(self)@
                } else {
                    let capture = old(self)@.mirror.queue[0].capture;
                    &&& prepared matches Ok(batch) && (batch is Some) == (capture.queued.len() > 0)
                    &&& final(self)@ == (ResidentModel {
                        mirror: old(self)@.mirror.with_front_capture(readback_prepared(capture)),
                        ..old(self)@
                    })
                },
            },
    {
        if let Some(pending) = &self.pending_mirror_handoff {
            return Err(GpuResidentDocumentError::MirrorHandoffPending(pending.revision));
        }
        match self.mirror.encode_next_readback(limits) {
            Ok(encoded) => if encoded {
                Ok(
                    Some(
                        PreparedGpuResidentMirrorReadback {
                            staging_bytes: self.mirror.staging_byte_len(),
                        },
                    ),
                )
            } else {
                Ok(None)
            },
            Err(error) => Err(GpuResidentDocumentError::MirrorDispatch(error)),
        }
    }

    /// Notes that a batch was handed to the device, and that its buffer is being mapped.
    pub fn submit_mirror_readback(&mut self, prepared: PreparedGpuResidentMirrorReadback) -> (
    submission: Result<GpuResidentMirrorReadbackSubmission, GpuResidentDocumentError>)
        requires
            old(self).wf(),
        ensures
            final(self).wf(),
            ({
                let capture = old(self)@.mirror.queue[0].capture;
                let sent = old(self)@.mirror.with_front_capture(readback_sent(capture));
                match front_error(old(self)@.mirror, submission_error(capture)) {
                    Some(expected) => {
                        &&& submission matches Err(error) && error
                            == GpuResidentDocumentError::MirrorDispatch(expected)
                        &&& final(self)@ == old(self)@
                    },
                    None => match front_error(sent, map_begin_error(readback_sent(capture))) {
                        Some(expected) => {
                            &&& submission matches Err(error) && error
                                == GpuResidentDocumentError::MirrorDispatch(expected)
                            &&& final(self)@ == (ResidentModel { mirror: sent, ..old(self)@ })
                        },
                        None => {
                            &&& submission matches Ok(submitted) && submitted.staging_bytes
                                == capture.staging()
                            &&& final(self)@ == (ResidentModel {
                                mirror: sent.with_front_capture(map_begun(readback_sent(capture))),
                                ..old(self)@
                            })
                        },
                    },
                }
            }),
    {
        let staging_bytes: u64 = self.mirror.staging_byte_len();
        match self.mirror.readback_submitted() {
            Ok(_) => {},
            Err(error) => {
                return Err(GpuResidentDocumentError::MirrorDispatch(error));
            },
        }
        match self.mirror.begin_map() {
            Ok(_) => Ok(GpuResidentMirrorReadbackSubmission { staging_bytes }),
            Err(error) => Err(GpuResidentDocumentError::MirrorDispatch(error)),
        }
    }

    /// Notes that a batch was not handed to the device.
    pub fn discard_mirror_readback(&mut self, prepared: PreparedGpuResidentMirrorReadback) -> (
    discarded: Result<(), GpuResidentDocumentError>)
        requires
            old(self).wf(),
        ensures
            final(self).wf(),
            ({
                let capture = old(self)@.mirror.queue[0].capture;
                match front_error(old(self)@.mirror, discard_error(capture)) {
                    Some(expected) => {
                        &&& discarded matches Err(error) && error
                            == GpuResidentDocumentError::MirrorDispatch(expected)
                        &&& final(self)@ == old(self)@
                    },
                    None => {
                        &&& discarded is Ok
                        &&& final(self)@ == (ResidentModel {
                            mirror: old(self)@.mirror.with_front_capture(
                                readback_returned(capture),
                            ),
                            ..old(self)@
                        })
                    },
                }
            }),
    {
        match self.mirror.readback_discarded() {
            Ok(_) => Ok(()),
            Err(error) => Err(GpuResidentDocumentError::MirrorDispatch(error)),
        }
    }

    fn retry_pending_mirror_handoff(&mut self) -> (completion: Result<
        GpuResidentMirrorCompletion,
        GpuResidentDocumentError,
    >)
        requires
            old(self).wf(),
            old(self)@.handoff is Some,
        ensures
            final(self).wf(),
            handoff_retried(old(self)@, old(self)@.handoff->0, completion, final(self)@),
    {
        let ghost model = self@;
        let ghost owed = model.handoff->0;
        let pending = match self.pending_mirror_handoff.take() {
            Some(pending) => pending,
            None => unreached(),
        };
        let PendingGpuResidentMirrorHandoff {
            revision,
            batch_index,
            byte_len,
            applied_revisions,
            requested_purpose,
            snapshot,
            transition,
            last_error,
        } = pending;
        let purpose = resolve_mirror_purpose(
            &self.recovery,
            requested_purpose,
            transition.revision(),
        );
        let prepared = match self.recovery.prepare_mirror_handoff(purpose, snapshot, transition) {
            Ok(prepared) => prepared,
            Err(failure) => {
                let failure = *failure;
                let error = failure.error;
                self.pending_mirror_handoff = Some(
                    PendingGpuResidentMirrorHandoff {
                        revision,
                        batch_index,
                        byte_len,
                        applied_revisions,
                        requested_purpose,
                        snapshot: failure.snapshot,
                        transition: failure.transition,
                        last_error: Some(error),
                    },
                );
                return Err(GpuResidentDocumentError::Recovery(error));
            },
        };
        let handoff = match self.recovery.commit_mirror_handoff(prepared) {
            Ok(handoff) => handoff,
            Err(_) => unreached(),
        };
        let queued = self.mirror_purposes.remove(0);
        self.recovery.advance_structural_mirror(self.mirror.snapshot());
        proof {
            assert(self@.purposes =~= model.purposes.drop_first());
        }
        Ok(
            GpuResidentMirrorCompletion {
                revision,
                batch_index,
                byte_len,
                applied_revisions,
                handoff: Some(handoff),
            },
        )
    }

    /// Takes what the device says of the buffer that is being mapped. Once a revision is
    /// complete, recovery is offered its pixels; what it refuses is offered again.
    pub fn try_finish_mirror(&mut self, event: GpuMirrorMapEvent) -> (completion: Result<
        Option<GpuResidentMirrorCompletion>,
        GpuResidentDocumentError,
    >)
        requires
            old(self).wf(),
        ensures
            final(self).wf(),
            match old(self)@.handoff {
                Some(handoff) => {
                    &&& completion matches Ok(found) ==> found is Some
                    &&& handoff_retried(
                        old(self)@,
                        handoff,
                        some_of(completion),
                        final(self)@,
                    )
                },
                None => exists|
                    mirror: DispatcherModel,
                    finished: Result<Option<GpuMirrorDispatchCompletion>, GpuMirrorDispatchError>,
                |
                    {
                        &&& #[trigger] finish_reported(
                            old(self)@.mirror,
                            event,
                            mirror,
                            finished,
                        )
                        &&& batch_reported(old(self)@, mirror, finished, completion, final(self)@)
                    },
            },
    {
        if self.pending_mirror_handoff.is_some() {
            return match self.retry_pending_mirror_handoff() {
                Ok(completion) => Ok(Some(completion)),
                Err(error) => Err(error),
            };
        }
        let ghost model = self@;
        let finished = self.mirror.try_finish(event);
        let ghost mirror = self.mirror@;
        let ghost outcome = finished;
        assert(finish_reported(model.mirror, event, mirror, outcome));
        let completion = match finished {
            Ok(Some(completion)) => completion,
            Ok(None) => {
                proof {
                    lemma_queue_kept(model.mirror, event, mirror, outcome);
                }
                assert(batch_reported(model, mirror, outcome, Ok(None), self@));
                return Ok(None);
            },
            Err(error) => {
                proof {
                    lemma_queue_kept(model.mirror, event, mirror, outcome);
                }
                let result = Err(GpuResidentDocumentError::MirrorDispatch(error));
                assert(batch_reported(model, mirror, outcome, result, self@));
                return result;
            },
        };
        proof {
            lemma_queue_kept(model.mirror, event, mirror, outcome);
        }
        let ghost found = completion;
        let GpuMirrorDispatchCompletion {
            revision,
            batch_index,
            byte_len,
            applied_revisions,
            recovery_transition,
            recovery_snapshot,
        } = completion;
        let transition = match recovery_transition {
            Some(transition) => transition,
            None => {
                let result = Ok(
                    Some(
                        GpuResidentMirrorCompletion {
                            revision,
                            batch_index,
                            byte_len,
                            applied_revisions,
                            handoff: None,
                        },
                    ),
                );
                assert(batch_reported(model, mirror, outcome, result, self@));
                return result;
            },
        };
        let snapshot = match recovery_snapshot {
            Some(snapshot) => snapshot,
            None => unreached(),
        };
        let requested_purpose = self.mirror_purposes[0];
        self.pending_mirror_handoff = Some(
            PendingGpuResidentMirrorHandoff {
                revision,
                batch_index,
                byte_len,
                applied_revisions,
                requested_purpose,
                snapshot,
                transition,
                last_error: None,
            },
        );
        assert(self@ == owing(model, mirror, found));
        let result = match self.retry_pending_mirror_handoff() {
            Ok(completion) => Ok(Some(completion)),
            Err(error) => Err(error),
        };
        assert(batch_reported(model, mirror, outcome, result, self@));
        result
    }
}

proof fn lemma_structures_keep_canvas(reconciler: ReconcilerModel, after: Seq<StructuralModel>)
    ensures
        structures_applied(reconciler, after).mirror.geometry == reconciler.mirror.geometry,
    decreases after.len(),
{
    if after.len() > 0 {
        lemma_structures_keep_canvas(reconciler, after.drop_last());
    }
}

proof fn lemma_drops_keep_canvas(reconciler: ReconcilerModel, layers: Seq<LayerId>)
    ensures
        layers_dropped(reconciler, layers).mirror.geometry == reconciler.mirror.geometry,
    decreases layers.len(),
{
    if layers.len() > 0 {
        lemma_drops_keep_canvas(reconciler, layers.drop_last());
    }
}

proof fn lemma_finished_keeps_canvas(model: DispatcherModel, batch: PatchBatchModel)
    ensures
        revision_finished(model, batch).reconciler.mirror.geometry
            == model.reconciler.mirror.geometry,
{
    let start = ReconcilerModel {
        mirror: revision_mirrored(model, batch),
        latest: model.reconciler.latest,
        pending: model.reconciler.pending.drop_first(),
    };
    lemma_structures_keep_canvas(start, model.queue[0].after);
    lemma_drops_keep_canvas(structures_applied(start, model.queue[0].after), model.retiring);
}

/// A batch takes a revision off the queue exactly when it completes the revision, and the
/// mirror keeps its canvas.
proof fn lemma_queue_kept(
    model: DispatcherModel,
    event: GpuMirrorMapEvent,
    after: DispatcherModel,
    finished: Result<Option<GpuMirrorDispatchCompletion>, GpuMirrorDispatchError>,
)
    requires
        model.valid(),
        after.valid(),
        finish_reported(model, event, after, finished),
    ensures
        after.reconciler.mirror.geometry == model.reconciler.mirror.geometry,
        match finished {
            Ok(Some(completion)) => {
                &&& model.queue.len() > 0
                &&& if completion.recovery_transition is Some {
                    &&& after.queue.len() == model.queue.len() - 1
                    &&& completion.recovery_transition->0.wf()
                    &&& completion.recovery_snapshot matches Some(snapshot) && snapshot.wf()
                } else {
                    after.queue.len() == model.queue.len()
                }
            },
            _ => after.queue.len() == model.queue.len(),
        },
{
    if let Ok(Some(completion)) = finished {
        let capture = model.queue[0].capture;
        let plan = capture.active->0.plan;
        let batch = choose|batch: GpuMirrorPatchBatch| #[trigger]
            batch_read(plan, mapped_bytes(capture, event), batch@) && completed_with(
                model,
                batch,
                after,
                completion,
            );
        lemma_finished_keeps_canvas(model, batch@);
    }
}

} // verus!
