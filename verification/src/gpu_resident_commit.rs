//! Commits of strokes to a resident document.

use crate::device::DeviceLimits;
use crate::document::{DocumentRevision, LayerId};
use crate::document_metadata::MetadataModel;
use crate::gpu_document_history::{
    entry_models, memento_error, raster_ids, GpuHistoryEntry, GpuHistoryId, GpuHistoryRecordPreview,
    PayloadModel, PreviewModel,
};
use crate::gpu_document_mirror::{
    readback_plan, GpuMirrorPlanError, GpuMirrorReadbackPlan, ReadbackPlanModel,
};
use crate::gpu_document_mirror_dispatcher::{capture_refusal, enqueued, plan_error};
use crate::gpu_document_target::{
    commit_kept, commit_token_error, ColorCommitStats, EncodedCommitModel,
    EncodedGpuDocumentCommit, GpuDocumentTarget, TargetModel,
};
use crate::gpu_history_recovery::{spill_bytes, spill_models, GpuHistoryRecoveryEntry};
use crate::gpu_live_recovery::{
    GpuMirrorRecoveryPurpose, PreparedGpuHistoryRecoveryRecord, PreparedRecordModel,
};
use crate::gpu_mirror_capture::{
    capture_error, captured, encode_gpu_mirror_revision_capture, CaptureModel,
    GpuMirrorRevisionCapture,
};
use crate::gpu_recovery_replay::{command_byte_len, GpuRasterRecoveryCommand};
use crate::gpu_resident_document::{
    GpuResidentDocument, GpuResidentDocumentError, GpuResidentRoundStrokeId, ResidentModel,
};
use crate::gpu_resident_metadata::{
    candidate_layers, reclaimed, CommitReport, GpuResidentLayerReclamation,
};
use vstd::pervasive::unreached;
use vstd::prelude::*;

verus! {

/// A commit that is ready to be handed to the device.
#[derive(Debug)]
pub struct PreparedGpuResidentDocumentCommit {
    pub(crate) revision: DocumentRevision,
    pub(crate) encoded: EncodedGpuDocumentCommit,
    pub(crate) history: GpuHistoryRecordPreview,
    pub(crate) recovery: PreparedGpuHistoryRecoveryRecord,
    pub(crate) plan: GpuMirrorReadbackPlan,
    pub(crate) capture: GpuMirrorRevisionCapture,
}

pub struct PreparedCommitModel {
    pub revision: DocumentRevision,
    pub encoded: EncodedCommitModel,
    pub history: PreviewModel,
    pub recovery: PreparedRecordModel,
    pub plan: ReadbackPlanModel,
    pub capture: CaptureModel,
}

impl View for PreparedGpuResidentDocumentCommit {
    type V = PreparedCommitModel;

    open(crate) spec fn view(&self) -> PreparedCommitModel {
        PreparedCommitModel {
            revision: self.revision,
            encoded: self.encoded@,
            history: self.history@,
            recovery: self.recovery@,
            plan: self.plan@,
            capture: self.capture@,
        }
    }
}

impl PreparedGpuResidentDocumentCommit {
    /// All parts were prepared for one revision and one entry of the history.
    pub open(crate) spec fn wf(self) -> bool {
        &&& self.encoded.wf()
        &&& self.recovery.wf()
        &&& self.plan.wf()
        &&& self.capture.wf()
        &&& !self.capture@.submitted
        &&& self.recovery@.revision == self.revision
        &&& self.recovery@.id == self.history@.id
        &&& self.recovery@.evicted_ids == self.history@.evicted
    }

    pub fn revision(&self) -> (revision: DocumentRevision)
        ensures
            revision == self@.revision,
    {
        self.revision
    }

    pub fn stats(&self) -> (stats: ColorCommitStats)
        ensures
            stats == self@.encoded.stats,
    {
        self.encoded.stats()
    }

    pub fn history(&self) -> (preview: &GpuHistoryRecordPreview)
        ensures
            preview@ == self@.history,
    {
        &self.history
    }

    pub fn mirror_plan(&self) -> (plan: &GpuMirrorReadbackPlan)
        requires
            self.wf(),
        ensures
            plan.wf(),
            plan@ == self@.plan,
    {
        &self.plan
    }

    /// What has to be discarded if the commit is not handed to the device.
    pub fn into_discard_parts(self) -> (parts: (EncodedGpuDocumentCommit, GpuRasterRecoveryCommand))
        requires
            self.wf(),
        ensures
            parts.0.wf(),
            parts.0@ == self@.encoded,
            parts.1 == self@.recovery.command,
    {
        (self.encoded, self.recovery.into_command())
    }
}

#[derive(Debug)]
pub struct GpuResidentDocumentPrepareFailure {
    pub error: GpuResidentDocumentError,
    pub encoded: EncodedGpuDocumentCommit,
    pub recovery_command: GpuRasterRecoveryCommand,
}

#[derive(Debug)]
pub struct GpuResidentDocumentSubmitFailure {
    pub error: GpuResidentDocumentError,
    pub prepared: PreparedGpuResidentDocumentCommit,
}

#[derive(Debug)]
pub struct GpuResidentDocumentCommit {
    pub revision: DocumentRevision,
    pub history_id: GpuHistoryId,
    pub stats: ColorCommitStats,
    pub evicted_history: Vec<GpuHistoryEntry>,
    pub evicted_spills: Vec<GpuHistoryRecoveryEntry>,
    pub freed_spill_bytes: u64,
    pub reclamation: GpuResidentLayerReclamation,
}

impl View for GpuResidentDocumentCommit {
    type V = CommitReport;

    open(crate) spec fn view(&self) -> CommitReport {
        CommitReport {
            revision: self.revision,
            history_id: self.history_id,
            evicted_history: entry_models(self.evicted_history@),
            evicted_spills: spill_models(self.evicted_spills@),
            freed_spill_bytes: self.freed_spill_bytes as int,
            reclamation: self.reclamation,
        }
    }
}

/// How a commit is read back into the mirror.
pub open(crate) spec fn commit_plan(model: ResidentModel, encoded: EncodedCommitModel) -> Result<
    ReadbackPlanModel,
    GpuMirrorPlanError,
> {
    readback_plan(
        model.next_revision()->0,
        encoded.memento.plan,
        encoded.memento.states,
        model.mirror.max_staging,
    )
}

/// Why a commit cannot be prepared, if it cannot.
pub open(crate) spec fn prepare_error(
    model: ResidentModel,
    stroke: Option<GpuResidentRoundStrokeId>,
    target: TargetModel,
    limits: DeviceLimits,
    encoded: EncodedCommitModel,
    command: GpuRasterRecoveryCommand,
) -> Option<GpuResidentDocumentError> {
    let preview = model.history.preview(encoded.memento.plan.byte_len);
    if let Some(error) = model.stroke_error(stroke) {
        Some(error)
    } else if let Some(error) = model.target_error(target.id) {
        Some(error)
    } else if let Some(error) = model.layout_error(target.layout) {
        Some(error)
    } else if let Some(error) = commit_token_error(target, encoded.target_id, encoded.serial) {
        Some(GpuResidentDocumentError::Target(error))
    } else if model.next_revision() is None {
        Some(GpuResidentDocumentError::RevisionExhausted)
    } else if let Some(error) = memento_error(
        model.history,
        model.layout@,
        model.places,
        encoded.memento,
    ) {
        Some(GpuResidentDocumentError::HistoryRecord(error))
    } else {
        match commit_plan(model, encoded) {
            Err(error) => Some(GpuResidentDocumentError::MirrorPlan(error)),
            Ok(plan) => if let Some(error) = plan_error(model.mirror, plan) {
                Some(GpuResidentDocumentError::MirrorDispatch(error))
            } else if let Some(error) = model.recovery.record_error(
                preview.id,
                preview.evicted,
                model.recovery.revision(),
                model.next_revision()->0,
                command_byte_len(command) as u64,
            ) {
                Some(GpuResidentDocumentError::Recovery(error))
            } else if let Some(error) = capture_error(target, limits, plan) {
                Some(GpuResidentDocumentError::MirrorReadback(error))
            } else {
                None
            },
        }
    }
}

/// The commit as it is prepared.
pub open(crate) spec fn commit_prepared(
    model: ResidentModel,
    encoded: EncodedCommitModel,
    command: GpuRasterRecoveryCommand,
) -> PreparedCommitModel {
    let preview = model.history.preview(encoded.memento.plan.byte_len);
    let plan = commit_plan(model, encoded)->Ok_0;
    PreparedCommitModel {
        revision: model.next_revision()->0,
        encoded,
        history: preview,
        recovery: PreparedRecordModel {
            id: preview.id,
            evicted_ids: preview.evicted,
            source_revision: model.recovery.revision(),
            revision: model.next_revision()->0,
            byte_len: command_byte_len(command) as u64,
            command,
        },
        plan,
        capture: captured(plan),
    }
}

/// Why a prepared commit cannot be handed to the device any more, if it cannot.
pub open(crate) spec fn submit_error(
    model: ResidentModel,
    target: TargetModel,
    prepared: PreparedCommitModel,
) -> Option<GpuResidentDocumentError> {
    let encoded = prepared.encoded;
    if let Some(error) = model.target_error(target.id) {
        Some(error)
    } else if let Some(error) = commit_token_error(target, encoded.target_id, encoded.serial) {
        Some(GpuResidentDocumentError::Target(error))
    } else if let Some(error) = memento_error(
        model.history,
        model.layout@,
        model.places,
        encoded.memento,
    ) {
        Some(GpuResidentDocumentError::HistoryRecord(error))
    } else if model.history.preview(encoded.memento.plan.byte_len) != prepared.history {
        Some(GpuResidentDocumentError::HistoryPreviewChanged)
    } else if let Some(error) = model.recovery.commit_error(prepared.recovery) {
        Some(GpuResidentDocumentError::Recovery(error))
    } else if let Some(error) = capture_refusal(model.mirror, prepared.plan, prepared.capture) {
        Some(GpuResidentDocumentError::MirrorDispatch(error))
    } else {
        None
    }
}

/// The document after a commit, before layers are given up.
pub open(crate) spec fn commit_recorded(
    model: ResidentModel,
    prepared: PreparedCommitModel,
) -> ResidentModel {
    let memento = prepared.encoded.memento;
    ResidentModel {
        metadata: MetadataModel { revision: prepared.revision, ..model.metadata },
        history: model.history.recorded(PayloadModel::Raster(memento), memento.plan.byte_len),
        recovery: model.recovery.with_record(prepared.recovery),
        mirror: enqueued(
            model.mirror,
            prepared.plan,
            CaptureModel { submitted: true, ..prepared.capture },
        ),
        purposes: model.purposes.push(
            GpuMirrorRecoveryPurpose::History(GpuHistoryId(model.history.next_id)),
        ),
        ..model
    }
}

/// What is reported of a commit, and the document once unreachable layers are given up.
pub open(crate) spec fn commit_reported(
    model: ResidentModel,
    prepared: PreparedCommitModel,
    report: CommitReport,
    after: ResidentModel,
) -> bool {
    let recorded = commit_recorded(model, prepared);
    let evicted = model.history.evicted(prepared.encoded.memento.plan.byte_len);
    &&& report.revision == prepared.revision
    &&& report.history_id == GpuHistoryId(model.history.next_id)
    &&& report.evicted_history == evicted
    &&& report.evicted_spills == model.recovery.spills.evicted(raster_ids(evicted))
    &&& report.freed_spill_bytes == spill_bytes(model.recovery.spills.entries) - spill_bytes(
        recorded.recovery.spills.entries,
    )
    &&& exists|layers: Seq<LayerId>| #[trigger]
        candidate_layers(evicted, layers) && reclaimed(recorded, layers) == (
            after,
            report.reclamation,
        )
}

fn prepare_failure(
    error: GpuResidentDocumentError,
    encoded: EncodedGpuDocumentCommit,
    recovery_command: GpuRasterRecoveryCommand,
) -> (failure: Box<GpuResidentDocumentPrepareFailure>)
    ensures
        *failure == (GpuResidentDocumentPrepareFailure { error, encoded, recovery_command }),
{
    Box::new(GpuResidentDocumentPrepareFailure { error, encoded, recovery_command })
}

impl GpuResidentDocument {
    /// Checks all that a commit needs, and changes nothing. What the device has encoded and
    /// the command are given back where something is missing.
    pub fn prepare_commit(
        &self,
        target: &GpuDocumentTarget,
        limits: DeviceLimits,
        encoded: EncodedGpuDocumentCommit,
        recovery_command: GpuRasterRecoveryCommand,
    ) -> (prepared: Result<
        PreparedGpuResidentDocumentCommit,
        Box<GpuResidentDocumentPrepareFailure>,
    >)
        requires
            self.wf(),
            target.wf(),
            encoded.wf(),
            recovery_command.wf(),
        ensures
            ({
                let error = prepare_error(
                    self@,
                    None,
                    target@,
                    limits,
                    encoded@,
                    recovery_command,
                );
                match prepared {
                    Ok(prepared) => {
                        &&& error is None
                        &&& prepared.wf()
                        &&& prepared@ == commit_prepared(self@, encoded@, recovery_command)
                    },
                    Err(failure) => {
                        &&& error == Some(failure.error)
                        &&& failure.encoded == encoded
                        &&& failure.recovery_command == recovery_command
                    },
                }
            }),
    {
        self.prepare_commit_internal(None, target, limits, encoded, recovery_command)
    }

    /// As [`Self::prepare_commit`], for the stroke in progress.
    pub fn prepare_round_stroke_commit(
        &self,
        stroke: GpuResidentRoundStrokeId,
        target: &GpuDocumentTarget,
        limits: DeviceLimits,
        encoded: EncodedGpuDocumentCommit,
        recovery_command: GpuRasterRecoveryCommand,
    ) -> (prepared: Result<
        PreparedGpuResidentDocumentCommit,
        Box<GpuResidentDocumentPrepareFailure>,
    >)
        requires
            self.wf(),
            target.wf(),
            encoded.wf(),
            recovery_command.wf(),
        ensures
            ({
                let error = prepare_error(
                    self@,
                    Some(stroke),
                    target@,
                    limits,
                    encoded@,
                    recovery_command,
                );
                match prepared {
                    Ok(prepared) => {
                        &&& error is None
                        &&& prepared.wf()
                        &&& prepared@ == commit_prepared(self@, encoded@, recovery_command)
                    },
                    Err(failure) => {
                        &&& error == Some(failure.error)
                        &&& failure.encoded == encoded
                        &&& failure.recovery_command == recovery_command
                    },
                }
            }),
    {
        self.prepare_commit_internal(Some(stroke), target, limits, encoded, recovery_command)
    }

    fn prepare_commit_internal(
        &self,
        active_stroke: Option<GpuResidentRoundStrokeId>,
        target: &GpuDocumentTarget,
        limits: DeviceLimits,
        encoded: EncodedGpuDocumentCommit,
        recovery_command: GpuRasterRecoveryCommand,
    ) -> (prepared: Result<
        PreparedGpuResidentDocumentCommit,
        Box<GpuResidentDocumentPrepareFailure>,
    >)
        requires
            self.wf(),
            target.wf(),
            encoded.wf(),
            recovery_command.wf(),
        ensures
            ({
                let error = prepare_error(
                    self@,
                    active_stroke,
                    target@,
                    limits,
                    encoded@,
                    recovery_command,
                );
                match prepared {
                    Ok(prepared) => {
                        &&& error is None
                        &&& prepared.wf()
                        &&& prepared@ == commit_prepared(self@, encoded@, recovery_command)
                    },
                    Err(failure) => {
                        &&& error == Some(failure.error)
                        &&& failure.encoded == encoded
                        &&& failure.recovery_command == recovery_command
                    },
                }
            }),
    {
        match self.check_active_round_stroke(active_stroke) {
            Ok(_) => {},
            Err(error) => {
                return Err(prepare_failure(error, encoded, recovery_command));
            },
        }
        match self.check_target(target) {
            Ok(_) => {},
            Err(error) => {
                return Err(prepare_failure(error, encoded, recovery_command));
            },
        }
        match self.check_layout(target) {
            Ok(_) => {},
            Err(error) => {
                return Err(prepare_failure(error, encoded, recovery_command));
            },
        }
        match target.check_encoded_commit(&encoded) {
            Ok(_) => {},
            Err(error) => {
                return Err(
                    prepare_failure(
                        GpuResidentDocumentError::Target(error),
                        encoded,
                        recovery_command,
                    ),
                );
            },
        }
        let source_revision = self.recovery.revision();
        let revision = match source_revision.checked_next() {
            Some(revision) => revision,
            None => {
                return Err(
                    prepare_failure(
                        GpuResidentDocumentError::RevisionExhausted,
                        encoded,
                        recovery_command,
                    ),
                );
            },
        };
        let history = match self.history.check_record(&self.atlas, encoded.memento()) {
            Ok(preview) => preview,
            Err(error) => {
                return Err(
                    prepare_failure(
                        GpuResidentDocumentError::HistoryRecord(error),
                        encoded,
                        recovery_command,
                    ),
                );
            },
        };
        let plan = match GpuMirrorReadbackPlan::from_memento(
            revision,
            encoded.memento(),
            self.mirror.max_staging_bytes(),
        ) {
            Ok(plan) => plan,
            Err(error) => {
                return Err(
                    prepare_failure(
                        GpuResidentDocumentError::MirrorPlan(error),
                        encoded,
                        recovery_command,
                    ),
                );
            },
        };
        match self.mirror.check_plan(&plan) {
            Ok(_) => {},
            Err(error) => {
                return Err(
                    prepare_failure(
                        GpuResidentDocumentError::MirrorDispatch(error),
                        encoded,
                        recovery_command,
                    ),
                );
            },
        }
        let recovery = match self.recovery.prepare_history_record(
            history.id(),
            history.evicted_raster_ids(),
            revision,
            recovery_command,
        ) {
            Ok(recovery) => recovery,
            Err(failure) => {
                let failure = *failure;
                return Err(
                    prepare_failure(
                        GpuResidentDocumentError::Recovery(failure.error),
                        encoded,
                        failure.command,
                    ),
                );
            },
        };
        let capture = match encode_gpu_mirror_revision_capture(target, limits, &plan) {
            Ok(capture) => capture,
            Err(error) => {
                return Err(
                    prepare_failure(
                        GpuResidentDocumentError::MirrorReadback(error),
                        encoded,
                        recovery.into_command(),
                    ),
                );
            },
        };
        assert(capture_refusal(self@.mirror, plan@, capture@) is None);
        Ok(
            PreparedGpuResidentDocumentCommit {
                revision,
                encoded,
                history,
                recovery,
                plan,
                capture,
            },
        )
    }

    /// Whether a prepared commit can still be handed to the device.
    pub fn check_prepared_commit(
        &self,
        target: &GpuDocumentTarget,
        prepared: &PreparedGpuResidentDocumentCommit,
    ) -> (checked: Result<(), GpuResidentDocumentError>)
        requires
            self.wf(),
            prepared.wf(),
        ensures
            match checked {
                Ok(_) => submit_error(self@, target@, prepared@) is None,
                Err(error) => submit_error(self@, target@, prepared@) == Some(error),
            },
    {
        match self.check_target(target) {
            Ok(_) => {},
            Err(error) => {
                return Err(error);
            },
        }
        match target.check_encoded_commit(&prepared.encoded) {
            Ok(_) => {},
            Err(error) => {
                return Err(GpuResidentDocumentError::Target(error));
            },
        }
        match self.history.check_record(&self.atlas, prepared.encoded.memento()) {
            Ok(preview) => {
                if !preview.same(&prepared.history) {
                    return Err(GpuResidentDocumentError::HistoryPreviewChanged);
                }
            },
            Err(error) => {
                return Err(GpuResidentDocumentError::HistoryRecord(error));
            },
        }
        match self.recovery.check_prepared_history_record(&prepared.recovery) {
            Ok(_) => {},
            Err(error) => {
                return Err(GpuResidentDocumentError::Recovery(error));
            },
        }
        match self.mirror.check_prepared_capture(&prepared.plan, &prepared.capture) {
            Ok(_) => Ok(()),
            Err(error) => Err(GpuResidentDocumentError::MirrorDispatch(error)),
        }
    }

    /// Records a commit that was handed to the device: in the history, for recovery and
    /// for the mirror.
    pub fn submit_commit(
        &mut self,
        target: &mut GpuDocumentTarget,
        prepared: PreparedGpuResidentDocumentCommit,
    ) -> (commit: Result<GpuResidentDocumentCommit, Box<GpuResidentDocumentSubmitFailure>>)
        requires
            old(self).wf(),
            old(target).wf(),
            prepared.wf(),
        ensures
            final(self).wf(),
            final(target).wf(),
            match commit {
                Ok(commit) => {
                    &&& submit_error(old(self)@, old(target)@, prepared@) is None
                    &&& final(target)@ == commit_kept(old(target)@)
                    &&& commit.stats == prepared@.encoded.stats
                    &&& commit_reported(old(self)@, prepared@, commit@, final(self)@)
                },
                Err(failure) => {
                    &&& submit_error(old(self)@, old(target)@, prepared@) == Some(failure.error)
                    &&& failure.prepared == prepared
                    &&& *final(self) == *old(self)
                    &&& *final(target) == *old(target)
                },
            },
    {
        match self.check_prepared_commit(target, &prepared) {
            Ok(_) => {},
            Err(error) => {
                return Err(Box::new(GpuResidentDocumentSubmitFailure { error, prepared }));
            },
        }
        let ghost model = self@;
        let ghost ready = prepared@;
        let stats = prepared.encoded.stats();
        let PreparedGpuResidentDocumentCommit {
            revision,
            encoded,
            history: preview,
            recovery,
            plan,
            capture,
        } = prepared;
        let mut capture = capture;
        let memento = match target.commit_submitted_with_memento(encoded) {
            Ok(memento) => memento,
            Err(_) => unreached(),
        };
        let acknowledged = capture.capture_submitted();
        assert(acknowledged is Ok);
        let history = match self.history.record(&self.atlas, memento) {
            Ok(history) => history,
            Err(_) => unreached(),
        };
        let recovered = match self.recovery.commit_history_record(recovery) {
            Ok(recovered) => recovered,
            Err(_) => unreached(),
        };
        let queued = self.mirror.enqueue(&plan, capture);
        assert(queued is Ok);
        self.mirror_purposes.push(GpuMirrorRecoveryPurpose::History(history.id));
        self.metadata.set_revision(revision);
        assert(self@ == commit_recorded(model, ready));
        let reclamation = self.reclaim_unreachable_layers(&history.evicted);
        Ok(
            GpuResidentDocumentCommit {
                revision,
                history_id: history.id,
                stats,
                evicted_history: history.evicted,
                evicted_spills: recovered.evicted_spills,
                freed_spill_bytes: recovered.freed_spill_bytes,
                reclamation,
            },
        )
    }
}

} // verus!
