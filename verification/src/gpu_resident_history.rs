//! Undo and redo of the pixels of a resident document.

use crate::device::DeviceLimits;
use crate::document::DocumentRevision;
use crate::document_metadata::MetadataModel;
use crate::gpu_document_history::{
    EntryModel, GpuDocumentHistoryError, GpuHistoryDirection, GpuHistoryEntryKind, GpuHistoryId,
    HistoryModel, PayloadModel,
};
use crate::gpu_document_mirror::{
    readback_plan, GpuMirrorPlanError, GpuMirrorReadbackPlan, ReadbackPlanModel,
};
use crate::gpu_document_mirror_dispatcher::{capture_refusal, enqueued, plan_error};
use crate::gpu_document_target::{
    swap_encoded, swap_fails, swap_token_error, swap_undone, EncodedGpuUndoSwap, EncodedSwapModel,
    GpuDocumentTarget, GpuUndoSwapStats, TargetModel,
};
use crate::gpu_document_undo::{
    law_state_swap_is_its_own_inverse, swapped_states, MementoModel,
};
use crate::gpu_history_archive::ArchiveError;
use crate::gpu_live_recovery::{
    swap_byte_len, GpuMirrorRecoveryPurpose, PreparedGpuHistoryRecoverySwap, PreparedSwapModel,
};
use crate::gpu_mirror_capture::{
    capture_error, captured, encode_gpu_mirror_revision_capture, CaptureModel,
    GpuMirrorRevisionCapture,
};
use crate::gpu_recovery_replay::GpuRasterRecoveryCommand;
use crate::gpu_resident_document::{
    GpuResidentDocument, GpuResidentDocumentError, ResidentModel,
};
use vstd::pervasive::unreached;
use vstd::prelude::*;

verus! {

/// A step through the history that is ready to be handed to the device.
#[derive(Debug)]
pub struct PreparedGpuResidentHistorySwap {
    pub(crate) revision: DocumentRevision,
    pub(crate) history_id: GpuHistoryId,
    pub(crate) direction: GpuHistoryDirection,
    pub(crate) encoded: EncodedGpuUndoSwap,
    pub(crate) recovery: PreparedGpuHistoryRecoverySwap,
    pub(crate) plan: GpuMirrorReadbackPlan,
    pub(crate) capture: GpuMirrorRevisionCapture,
}

pub struct PreparedHistorySwapModel {
    pub revision: DocumentRevision,
    pub history_id: GpuHistoryId,
    pub direction: GpuHistoryDirection,
    pub encoded: EncodedSwapModel,
    pub recovery: PreparedSwapModel,
    pub plan: ReadbackPlanModel,
    pub capture: CaptureModel,
}

impl View for PreparedGpuResidentHistorySwap {
    type V = PreparedHistorySwapModel;

    open(crate) spec fn view(&self) -> PreparedHistorySwapModel {
        PreparedHistorySwapModel {
            revision: self.revision,
            history_id: self.history_id,
            direction: self.direction,
            encoded: self.encoded@,
            recovery: self.recovery@,
            plan: self.plan@,
            capture: self.capture@,
        }
    }
}

impl PreparedGpuResidentHistorySwap {
    /// All parts were prepared for one revision.
    pub open(crate) spec fn wf(self) -> bool {
        &&& self.recovery.wf()
        &&& self.plan.wf()
        &&& self.capture.wf()
        &&& !self.capture@.submitted
        &&& self.recovery@.revision == self.revision
    }

    pub fn revision(&self) -> (revision: DocumentRevision)
        ensures
            revision == self@.revision,
    {
        self.revision
    }

    pub fn history_id(&self) -> (id: GpuHistoryId)
        ensures
            id == self@.history_id,
    {
        self.history_id
    }

    pub fn direction(&self) -> (direction: GpuHistoryDirection)
        ensures
            direction == self@.direction,
    {
        self.direction
    }

    pub fn stats(&self) -> (stats: GpuUndoSwapStats)
        ensures
            stats == self@.encoded.stats,
    {
        self.encoded.stats()
    }
}

#[derive(Clone, Copy, Debug, PartialEq, Eq, Structural)]
pub struct GpuResidentHistorySwapCommit {
    pub revision: DocumentRevision,
    pub history_id: GpuHistoryId,
    pub direction: GpuHistoryDirection,
    pub stats: GpuUndoSwapStats,
}

#[derive(Debug)]
pub struct GpuResidentHistorySwapPrepareFailure {
    pub error: GpuResidentDocumentError,
}

#[derive(Debug)]
pub struct GpuResidentHistorySwapSubmitFailure {
    pub error: GpuResidentDocumentError,
    pub prepared: PreparedGpuResidentHistorySwap,
}

/// Why a step through the history cannot begin, if it cannot. A step that finds nothing is
/// no error.
pub open spec fn step_refusal(
    model: ResidentModel,
    target: TargetModel,
    direction: GpuHistoryDirection,
) -> Option<GpuResidentDocumentError> {
    if let Some(error) = model.stroke_error(None) {
        Some(error)
    } else if let Some(error) = model.target_error(target.id) {
        Some(error)
    } else if model.next_revision() is None {
        Some(GpuResidentDocumentError::RevisionExhausted)
    } else if let Some(error) = model.history.pending_error() {
        Some(GpuResidentDocumentError::History(error))
    } else {
        match model.history.top(direction) {
            None => None,
            Some(entry) => if entry.kind() == GpuHistoryEntryKind::Metadata {
                Some(
                    GpuResidentDocumentError::History(
                        GpuDocumentHistoryError::EntryKindMismatch {
                            expected: GpuHistoryEntryKind::Raster,
                            actual: GpuHistoryEntryKind::Metadata,
                        },
                    ),
                )
            } else {
                None
            },
        }
    }
}

/// Why the pixels for the next step in that direction cannot come back to the device, if they
/// cannot. `restored` is what the store said of them; it counts only where they are not there.
pub open spec fn restore_error(
    history: HistoryModel,
    direction: GpuHistoryDirection,
    restored: Result<(), ArchiveError>,
) -> Option<ArchiveError> {
    if history.incoming(direction) == 0 {
        None
    } else if history.resident() + history.incoming(direction) > history.max_bytes {
        Some(ArchiveError::Full)
    } else {
        match restored {
            Ok(_) => None,
            Err(error) => Some(error),
        }
    }
}

/// The document once the pixels for the next step in that direction are on the device.
pub open spec fn step_ready(model: ResidentModel, direction: GpuHistoryDirection) -> ResidentModel {
    ResidentModel { history: model.history.restored(direction), ..model }
}

pub open spec fn turned(memento: MementoModel) -> MementoModel {
    MementoModel { plan: memento.plan, states: swapped_states(memento.states) }
}

/// How a step through the history is read back into the mirror.
pub open(crate) spec fn step_plan(model: ResidentModel, memento: MementoModel) -> Result<
    ReadbackPlanModel,
    GpuMirrorPlanError,
> {
    readback_plan(
        model.next_revision()->0,
        memento.plan,
        swapped_states(memento.states),
        model.mirror.max_staging,
    )
}

/// Why the mirror cannot follow a step that the device has encoded, if it cannot.
pub open(crate) spec fn follow_error(
    model: ResidentModel,
    memento: MementoModel,
    encoded: TargetModel,
    limits: DeviceLimits,
) -> Option<GpuResidentDocumentError> {
    match step_plan(model, memento) {
        Err(error) => Some(GpuResidentDocumentError::MirrorPlan(error)),
        Ok(plan) => if let Some(error) = plan_error(model.mirror, plan) {
            Some(GpuResidentDocumentError::MirrorDispatch(error))
        } else if let Some(error) = capture_error(encoded, limits, plan) {
            Some(GpuResidentDocumentError::MirrorReadback(error))
        } else {
            None
        },
    }
}

/// The step as it is prepared.
pub open(crate) spec fn step_prepared(
    model: ResidentModel,
    target: TargetModel,
    entry: EntryModel,
    direction: GpuHistoryDirection,
    prepared: PreparedHistorySwapModel,
) -> bool {
    let memento = entry.payload->Raster_0;
    let plan = step_plan(model, memento)->Ok_0;
    let command = model.recovery.spills.command_for(entry.id, direction)->Ok_0;
    &&& prepared.revision == model.next_revision()->0
    &&& prepared.history_id == entry.id
    &&& prepared.direction == direction
    &&& prepared.encoded == (EncodedSwapModel {
        target_id: target.id,
        stats: GpuUndoSwapStats {
            copy_regions: memento.plan.regions.len() as u32,
            blocks: memento.plan.block_count as u32,
            bytes_copied: (memento.plan.byte_len * 3) as u64,
        },
        serial: target.next_swap,
    })
    &&& prepared.recovery.id == entry.id
    &&& prepared.recovery.direction == direction
    &&& prepared.recovery.source_revision == model.recovery.revision()
    &&& prepared.recovery.revision == model.next_revision()->0
    &&& prepared.recovery.byte_len == swap_byte_len(command)
    &&& prepared.recovery.command matches GpuRasterRecoveryCommand::Exact(exact) && exact@
        == command
    &&& prepared.plan == plan
    &&& prepared.capture == captured(plan)
}

/// What comes of preparing a step that has something to step over.
pub open(crate) spec fn step_reported(
    before: ResidentModel,
    target: TargetModel,
    limits: DeviceLimits,
    entry: EntryModel,
    direction: GpuHistoryDirection,
    result: Result<
        Option<PreparedGpuResidentHistorySwap>,
        Box<GpuResidentHistorySwapPrepareFailure>,
    >,
    after: ResidentModel,
    target_after: TargetModel,
) -> bool {
    let memento = entry.payload->Raster_0;
    match result {
        Ok(Some(prepared)) => {
            &&& swap_encoded(target, memento, target_after)
            &&& follow_error(before, memento, target_after, limits) is None
            &&& prepared.wf()
            &&& step_prepared(before, target, entry, direction, prepared@)
            &&& after == (ResidentModel {
                history: before.history.begun(direction).with_pending_memento(turned(memento)),
                ..before
            })
        },
        Ok(None) => false,
        Err(failure) => {
            &&& after == before
            &&& step_failed(before, target, limits, memento, failure.error, target_after)
        },
    }
}

/// Why a step failed, and what that leaves of the target.
pub open(crate) spec fn step_failed(
    before: ResidentModel,
    target: TargetModel,
    limits: DeviceLimits,
    memento: MementoModel,
    error: GpuResidentDocumentError,
    target_after: TargetModel,
) -> bool {
    ||| (error matches GpuResidentDocumentError::Target(refusal) && swap_fails(
        target,
        memento,
        refusal,
        target_after,
    ))
    ||| exists|encoded: TargetModel| #[trigger]
        swap_encoded(target, memento, encoded) && follow_error(before, memento, encoded, limits)
            == Some(error) && target_after == swap_undone(encoded)
}

/// Why a prepared step cannot be handed to the device any more, if it cannot.
pub open(crate) spec fn step_submit_error(
    model: ResidentModel,
    target: TargetModel,
    prepared: PreparedHistorySwapModel,
) -> Option<GpuResidentDocumentError> {
    let pending_matches = match model.history.pending {
        Some((entry, direction)) => entry.id == prepared.history_id && direction
            == prepared.direction,
        None => false,
    };
    if let Some(error) = swap_token_error(
        target,
        prepared.encoded.target_id,
        prepared.encoded.serial,
    ) {
        Some(GpuResidentDocumentError::Target(error))
    } else if !pending_matches {
        Some(GpuResidentDocumentError::HistorySwapChanged)
    } else if let Some(error) = model.recovery.swap_commit_error(prepared.recovery) {
        Some(GpuResidentDocumentError::Recovery(error))
    } else if let Some(error) = capture_refusal(model.mirror, prepared.plan, prepared.capture) {
        Some(GpuResidentDocumentError::MirrorDispatch(error))
    } else {
        None
    }
}

/// The document after a step through the history.
pub open(crate) spec fn stepped(model: ResidentModel, prepared: PreparedHistorySwapModel) -> ResidentModel {
    ResidentModel {
        metadata: MetadataModel { revision: prepared.revision, ..model.metadata },
        history: model.history.finished(),
        recovery: model.recovery.with_swap(prepared.recovery),
        mirror: enqueued(
            model.mirror,
            prepared.plan,
            CaptureModel { submitted: true, ..prepared.capture },
        ),
        purposes: model.purposes.push(GpuMirrorRecoveryPurpose::ReconcileOnly),
        ..model
    }
}

/// Why a prepared step cannot be taken back, if it cannot.
pub open spec fn step_discard_error(
    model: ResidentModel,
    target: TargetModel,
    encoded: EncodedSwapModel,
) -> Option<GpuResidentDocumentError> {
    if let Some(error) = model.target_error(target.id) {
        Some(error)
    } else {
        match model.history.pending {
            None => Some(
                GpuResidentDocumentError::History(GpuDocumentHistoryError::NoPendingOperation),
            ),
            Some((entry, _)) => if entry.kind() == GpuHistoryEntryKind::Metadata {
                Some(
                    GpuResidentDocumentError::History(
                        GpuDocumentHistoryError::EntryKindMismatch {
                            expected: GpuHistoryEntryKind::Raster,
                            actual: GpuHistoryEntryKind::Metadata,
                        },
                    ),
                )
            } else {
                match swap_token_error(target, encoded.target_id, encoded.serial) {
                    Some(error) => Some(GpuResidentDocumentError::Target(error)),
                    None => None,
                }
            },
        }
    }
}

/// Beginning a step, turning its memento over twice and taking it back changes nothing.
proof fn lemma_step_taken_back(
    history: HistoryModel,
    direction: GpuHistoryDirection,
    memento: MementoModel,
)
    requires
        history.pending is None,
        history.top(direction) matches Some(entry) && entry.payload == PayloadModel::Raster(memento),
    ensures
        history.begun(direction).cancelled() == history,
        history.begun(direction).with_pending_memento(turned(memento)).with_pending_memento(
            turned(turned(memento)),
        ).cancelled() == history,
{
    law_state_swap_is_its_own_inverse(memento.states);
    assert(turned(turned(memento)) == memento);
    match direction {
        GpuHistoryDirection::Undo => {
            assert(history.undo.drop_last().push(history.undo.last()) =~= history.undo);
        },
        GpuHistoryDirection::Redo => {
            assert(history.redo.drop_last().push(history.redo.last()) =~= history.redo);
        },
    }
}

fn swap_prepare_failure(error: GpuResidentDocumentError) -> (failure: Box<
    GpuResidentHistorySwapPrepareFailure,
>)
    ensures
        failure.error == error,
{
    Box::new(GpuResidentHistorySwapPrepareFailure { error })
}

impl GpuResidentDocument {
    /// Whether a step through the history can be prepared, and which entry it steps over, if there
    /// is one.
    pub fn check_history_swap(&self, target: &GpuDocumentTarget, direction: GpuHistoryDirection) -> (
    next: Result<Option<GpuHistoryId>, GpuResidentDocumentError>)
        requires
            self.wf(),
        ensures
            match next {
                Ok(next) => {
                    &&& step_refusal(self@, target@, direction) is None
                    &&& next == (match self@.history.top(direction) {
                        Some(entry) => Some(entry.id),
                        None => None,
                    })
                },
                Err(error) => step_refusal(self@, target@, direction) == Some(error),
            },
    {
        match self.check_active_round_stroke(None) {
            Ok(_) => {},
            Err(error) => {
                return Err(error);
            },
        }
        match self.check_target(target) {
            Ok(_) => {},
            Err(error) => {
                return Err(error);
            },
        }
        match self.revision().checked_next() {
            Some(_) => {},
            None => {
                return Err(GpuResidentDocumentError::RevisionExhausted);
            },
        }
        let history_id = match self.history.check_begin(direction) {
            Ok(Some(id)) => id,
            Ok(None) => {
                return Ok(None);
            },
            Err(error) => {
                return Err(GpuResidentDocumentError::History(error));
            },
        };
        match self.history.check_begin_kind(direction) {
            Ok(Some(GpuHistoryEntryKind::Raster)) => Ok(Some(history_id)),
            _ => Err(
                GpuResidentDocumentError::History(
                    GpuDocumentHistoryError::EntryKindMismatch {
                        expected: GpuHistoryEntryKind::Raster,
                        actual: GpuHistoryEntryKind::Metadata,
                    },
                ),
            ),
        }
    }

    /// How many bytes have to come back from the store before the next step in that direction.
    pub fn next_hydration_bytes(&self, direction: GpuHistoryDirection) -> (bytes: u64)
        ensures
            bytes == self@.history.incoming(direction),
    {
        self.history.next_hydration_bytes(direction)
    }

    /// Whether the pixels for the next step in that direction would fit on the device.
    pub fn has_room_for_step(&self, direction: GpuHistoryDirection) -> (room: bool)
        requires
            self.wf(),
        ensures
            room == (self@.history.resident() + self@.history.incoming(direction)
                <= self@.history.max_bytes),
    {
        let incoming: u64 = self.history.next_hydration_bytes(direction);
        incoming <= self.history.max_bytes() && self.history.resident_bytes()
            <= self.history.max_bytes() - incoming
    }

    /// Prepares one step back or forth through the history. `restored` says whether the store has
    /// given back the pixels for it, where they were there. Where the step fails later, they stay
    /// on the device, and the document is otherwise left as it was.
    pub fn prepare_history_swap(
        &mut self,
        target: &mut GpuDocumentTarget,
        limits: DeviceLimits,
        direction: GpuHistoryDirection,
        restored: Result<(), ArchiveError>,
    ) -> (prepared: Result<
        Option<PreparedGpuResidentHistorySwap>,
        Box<GpuResidentHistorySwapPrepareFailure>,
    >)
        requires
            old(self).wf(),
            old(target).wf(),
        ensures
            final(self).wf(),
            final(target).wf(),
            match step_refusal(old(self)@, old(target)@, direction) {
                Some(expected) => {
                    &&& prepared matches Err(failure) && failure.error == expected
                    &&& final(self)@ == old(self)@
                    &&& final(target)@ == old(target)@
                },
                None => match old(self)@.history.top(direction) {
                    None => {
                        &&& prepared matches Ok(step) && step is None
                        &&& final(self)@ == old(self)@
                        &&& final(target)@ == old(target)@
                    },
                    Some(entry) => match restore_error(old(self)@.history, direction, restored) {
                        Some(error) => {
                            &&& prepared matches Err(failure) && failure.error
                                == GpuResidentDocumentError::Archive(error)
                            &&& final(self)@ == old(self)@
                            &&& final(target)@ == old(target)@
                        },
                        None => {
                            let ready = step_ready(old(self)@, direction);
                            match ready.recovery.swap_error(
                                entry.id,
                                direction,
                                ready.next_revision()->0,
                            ) {
                                Some(error) => {
                                    &&& prepared matches Err(failure) && failure.error
                                        == GpuResidentDocumentError::Recovery(error)
                                    &&& final(self)@ == ready
                                    &&& final(target)@ == old(target)@
                                },
                                None => step_reported(
                                    ready,
                                    old(target)@,
                                    limits,
                                    ready.history.top(direction)->0,
                                    direction,
                                    prepared,
                                    final(self)@,
                                    final(target)@,
                                ),
                            }
                        },
                    },
                },
            },
    {
        let history_id = match self.check_history_swap(target, direction) {
            Ok(Some(id)) => id,
            Ok(None) => {
                return Ok(None);
            },
            Err(error) => {
                return Err(swap_prepare_failure(error));
            },
        };
        let revision = match self.revision().checked_next() {
            Some(revision) => revision,
            None => {
                return Err(swap_prepare_failure(GpuResidentDocumentError::RevisionExhausted));
            },
        };
        let incoming: u64 = self.history.next_hydration_bytes(direction);
        if incoming != 0 {
            proof {
                let stack = match direction {
                    GpuHistoryDirection::Undo => self@.history.undo,
                    GpuHistoryDirection::Redo => self@.history.redo,
                };
                assert(stack[stack.len() - 1].full_bytes() <= self@.history.max_bytes);
            }
            if self.history.resident_bytes() > self.history.max_bytes() - incoming {
                return Err(
                    swap_prepare_failure(GpuResidentDocumentError::Archive(ArchiveError::Full)),
                );
            }
            match restored {
                Ok(_) => {},
                Err(error) => {
                    return Err(swap_prepare_failure(GpuResidentDocumentError::Archive(error)));
                },
            }
        }
        self.history.hydrate_next(direction);
        let recovery = match self.recovery.prepare_history_swap(history_id, direction, revision) {
            Ok(recovery) => recovery,
            Err(error) => {
                return Err(swap_prepare_failure(GpuResidentDocumentError::Recovery(error)));
            },
        };
        let ghost model = self@;
        let ghost before = target@;
        let ghost entry = model.history.top(direction)->0;
        let ghost memento = entry.payload->Raster_0;
        proof {
            lemma_step_taken_back(model.history, direction, memento);
        }
        let begun = match direction {
            GpuHistoryDirection::Undo => self.history.begin_undo(),
            GpuHistoryDirection::Redo => self.history.begin_redo(),
        };
        assert(begun is Ok);
        let encoded = match self.history.encode_pending_swap(target) {
            Ok(encoded) => encoded,
            Err(error) => {
                let cancelled = self.history.cancel_pending();
                assert(self@ == model);
                return Err(swap_prepare_failure(GpuResidentDocumentError::Target(error)));
            },
        };
        let ghost swapped = target@;
        assert(swap_encoded(before, memento, swapped));
        let planned = match self.history.pending_memento() {
            Some(memento) => GpuMirrorReadbackPlan::from_memento(
                revision,
                memento,
                self.mirror.max_staging_bytes(),
            ),
            None => unreached(),
        };
        let plan = match planned {
            Ok(plan) => plan,
            Err(error) => {
                self.discard_encoded_history_swap(target, encoded);
                assert(self@ == model);
                return Err(swap_prepare_failure(GpuResidentDocumentError::MirrorPlan(error)));
            },
        };
        match self.mirror.check_plan(&plan) {
            Ok(_) => {},
            Err(error) => {
                self.discard_encoded_history_swap(target, encoded);
                assert(self@ == model);
                return Err(swap_prepare_failure(GpuResidentDocumentError::MirrorDispatch(error)));
            },
        }
        let capture = match encode_gpu_mirror_revision_capture(target, limits, &plan) {
            Ok(capture) => capture,
            Err(error) => {
                self.discard_encoded_history_swap(target, encoded);
                assert(self@ == model);
                return Err(swap_prepare_failure(GpuResidentDocumentError::MirrorReadback(error)));
            },
        };
        Ok(
            Some(
                PreparedGpuResidentHistorySwap {
                    revision,
                    history_id,
                    direction,
                    encoded,
                    recovery,
                    plan,
                    capture,
                },
            ),
        )
    }

    fn discard_encoded_history_swap(
        &mut self,
        target: &mut GpuDocumentTarget,
        encoded: EncodedGpuUndoSwap,
    )
        requires
            old(self).wf(),
            old(target).wf(),
            old(self)@.history.pending matches Some((entry, _)) && entry.kind()
                == GpuHistoryEntryKind::Raster,
            swap_token_error(old(target)@, encoded@.target_id, encoded@.serial) is None,
        ensures
            final(self).wf(),
            final(target).wf(),
            final(target)@ == swap_undone(old(target)@),
            ({
                let memento = ((old(self)@.history.pending->0).0).payload->Raster_0;
                final(self)@ == (ResidentModel {
                    history: old(self)@.history.with_pending_memento(turned(memento)).cancelled(),
                    ..old(self)@
                })
            }),
    {
        let discarded = self.history.discard_pending_swap(target, encoded);
        assert(discarded is Ok);
        let cancelled = self.history.cancel_pending();
        assert(cancelled is Ok);
    }

    /// Whether a prepared step can still be handed to the device.
    pub fn check_prepared_history_swap(
        &self,
        target: &GpuDocumentTarget,
        prepared: &PreparedGpuResidentHistorySwap,
    ) -> (checked: Result<(), GpuResidentDocumentError>)
        requires
            self.wf(),
            prepared.wf(),
        ensures
            match checked {
                Ok(_) => step_submit_error(self@, target@, prepared@) is None,
                Err(error) => step_submit_error(self@, target@, prepared@) == Some(error),
            },
    {
        match target.check_encoded_undo_swap(&prepared.encoded) {
            Ok(_) => {},
            Err(error) => {
                return Err(GpuResidentDocumentError::Target(error));
            },
        }
        let pending_matches = match (self.history.pending_id(), self.history.pending_direction()) {
            (Some(id), Some(direction)) => id.get() == prepared.history_id.get() && direction
                == prepared.direction,
            _ => false,
        };
        if !pending_matches {
            return Err(GpuResidentDocumentError::HistorySwapChanged);
        }
        match self.recovery.check_prepared_history_swap(&prepared.recovery) {
            Ok(_) => {},
            Err(error) => {
                return Err(GpuResidentDocumentError::Recovery(error));
            },
        }
        match self.mirror.check_prepared_capture(&prepared.plan, &prepared.capture) {
            Ok(_) => Ok(()),
            Err(error) => Err(GpuResidentDocumentError::MirrorDispatch(error)),
        }
    }

    /// Records a step that was handed to the device.
    pub fn submit_history_swap(
        &mut self,
        target: &mut GpuDocumentTarget,
        prepared: PreparedGpuResidentHistorySwap,
    ) -> (commit: Result<GpuResidentHistorySwapCommit, Box<GpuResidentHistorySwapSubmitFailure>>)
        requires
            old(self).wf(),
            old(target).wf(),
            prepared.wf(),
        ensures
            final(self).wf(),
            final(target).wf(),
            match commit {
                Ok(commit) => {
                    &&& step_submit_error(old(self)@, old(target)@, prepared@) is None
                    &&& final(self)@ == stepped(old(self)@, prepared@)
                    &&& final(target)@ == (TargetModel { pending_swap: None, ..old(target)@ })
                    &&& commit == (GpuResidentHistorySwapCommit {
                        revision: prepared@.revision,
                        history_id: prepared@.history_id,
                        direction: prepared@.direction,
                        stats: prepared@.encoded.stats,
                    })
                },
                Err(failure) => {
                    &&& step_submit_error(old(self)@, old(target)@, prepared@) == Some(
                        failure.error,
                    )
                    &&& failure.prepared == prepared
                    &&& *final(self) == *old(self)
                    &&& *final(target) == *old(target)
                },
            },
    {
        match self.check_prepared_history_swap(target, &prepared) {
            Ok(_) => {},
            Err(error) => {
                return Err(Box::new(GpuResidentHistorySwapSubmitFailure { error, prepared }));
            },
        }
        let ghost model = self@;
        let ghost ready = prepared@;
        let stats = prepared.encoded.stats();
        let PreparedGpuResidentHistorySwap {
            revision,
            history_id,
            direction,
            encoded,
            recovery,
            plan,
            capture,
        } = prepared;
        let mut capture = capture;
        let submitted = target.undo_swap_submitted(encoded);
        assert(submitted is Ok);
        let finished = self.history.finish_pending();
        assert(finished is Ok);
        let recovered = self.recovery.commit_history_swap(recovery);
        assert(recovered is Ok);
        let acknowledged = capture.capture_submitted();
        assert(acknowledged is Ok);
        let queued = self.mirror.enqueue(&plan, capture);
        assert(queued is Ok);
        self.mirror_purposes.push(GpuMirrorRecoveryPurpose::ReconcileOnly);
        self.metadata.set_revision(revision);
        assert(self@ == stepped(model, ready));
        Ok(GpuResidentHistorySwapCommit { revision, history_id, direction, stats })
    }

    /// Takes back a prepared step that was not handed to the device.
    pub fn discard_history_swap(
        &mut self,
        target: &mut GpuDocumentTarget,
        prepared: PreparedGpuResidentHistorySwap,
    ) -> (id: Result<GpuHistoryId, GpuResidentDocumentError>)
        requires
            old(self).wf(),
            old(target).wf(),
        ensures
            final(self).wf(),
            final(target).wf(),
            match id {
                Ok(id) => {
                    let entry = (old(self)@.history.pending->0).0;
                    &&& step_discard_error(old(self)@, old(target)@, prepared@.encoded) is None
                    &&& id == entry.id
                    &&& final(self)@ == (ResidentModel {
                        history: old(self)@.history.with_pending_memento(
                            turned(entry.payload->Raster_0),
                        ).cancelled(),
                        ..old(self)@
                    })
                    &&& final(target)@ == swap_undone(old(target)@)
                },
                Err(error) => {
                    &&& step_discard_error(old(self)@, old(target)@, prepared@.encoded) == Some(
                        error,
                    )
                    &&& final(self)@ == old(self)@
                    &&& final(target)@ == old(target)@
                },
            },
    {
        match self.check_target(target) {
            Ok(_) => {},
            Err(error) => {
                return Err(error);
            },
        }
        let id = match self.history.pending_id() {
            Some(id) => id,
            None => {
                return Err(
                    GpuResidentDocumentError::History(GpuDocumentHistoryError::NoPendingOperation),
                );
            },
        };
        if self.history.pending_memento().is_none() {
            return Err(
                GpuResidentDocumentError::History(
                    GpuDocumentHistoryError::EntryKindMismatch {
                        expected: GpuHistoryEntryKind::Raster,
                        actual: GpuHistoryEntryKind::Metadata,
                    },
                ),
            );
        }
        match target.check_encoded_undo_swap(&prepared.encoded) {
            Ok(_) => {},
            Err(error) => {
                return Err(GpuResidentDocumentError::Target(error));
            },
        }
        self.discard_encoded_history_swap(target, prepared.encoded);
        Ok(id)
    }
}

/// A step that was prepared and taken back leaves the document as it was.
pub proof fn law_discarding_a_step_restores_the_document(
    before: ResidentModel,
    direction: GpuHistoryDirection,
    memento: MementoModel,
)
    requires
        before.history.pending is None,
        before.history.top(direction) matches Some(entry) && entry.payload == PayloadModel::Raster(
            memento,
        ),
    ensures
        ({
            let prepared = ResidentModel {
                history: before.history.begun(direction).with_pending_memento(turned(memento)),
                ..before
            };
            let held = ((prepared.history.pending->0).0).payload->Raster_0;
            ResidentModel {
                history: prepared.history.with_pending_memento(turned(held)).cancelled(),
                ..prepared
            } == before
        }),
{
    lemma_step_taken_back(before.history, direction, memento);
}

} // verus!
