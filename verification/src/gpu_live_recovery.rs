//! The timeline and the history spills of a live document, changed together.

use crate::document::DocumentRevision;
use crate::gpu_cpu_mirror::{GpuCpuMirrorSnapshot, MirrorModel};
use crate::gpu_document_history::{GpuHistoryDirection, GpuHistoryId};
use crate::gpu_history_recovery::{
    find_revision, spill_bytes, spill_models, GpuHistoryRecoveryAttachment,
    GpuHistoryRecoveryEntry, GpuHistoryRecoveryError, GpuHistoryRecoverySpills, SpillsModel,
};
use crate::gpu_raster_recovery::{ExactCommandHeader, ExactCommandModel};
use crate::gpu_raster_transition::{GpuExactRasterRecoveryTransition, TransitionModel};
use crate::gpu_recovery_journal::{
    record_bytes, record_models, GpuRecoveryJournalError, JournalModel, RecordModel,
};
use crate::gpu_recovery_replay::{
    command_byte_len, GpuRasterRecoveryCommand, RasterCommandHeader,
};
use crate::gpu_recovery_timeline::{
    GpuRecoveryBaseAdvance, GpuRecoveryTimeline, GpuRecoveryTimelineError, TimelineModel,
};
use crate::pixel_grid::minimum;
use vstd::layout::size_of;
use vstd::prelude::*;

verus! {

#[derive(Clone, Copy, Debug, PartialEq, Eq)]
#[allow(inconsistent_fields)]
pub enum GpuLiveRecoveryError {
    Journal(GpuRecoveryJournalError),
    Spills(GpuHistoryRecoveryError),
    Timeline(GpuRecoveryTimelineError),
    PreparedSourceChanged { prepared: DocumentRevision, actual: DocumentRevision },
    MirrorRevisionMismatch { snapshot: DocumentRevision, transition: DocumentRevision },
    MirrorSourceMismatch { base: DocumentRevision, transition: DocumentRevision },
    HistorySpillMismatch {
        revision: DocumentRevision,
        expected: GpuHistoryId,
        actual: Option<GpuHistoryId>,
    },
    HistorySpillWouldBeDiscarded { revision: DocumentRevision, id: GpuHistoryId },
}

impl From<GpuRecoveryJournalError> for GpuLiveRecoveryError {
    fn from(error: GpuRecoveryJournalError) -> (converted: Self) {
        GpuLiveRecoveryError::Journal(error)
    }
}

impl vstd::std_specs::convert::FromSpecImpl<GpuRecoveryJournalError> for GpuLiveRecoveryError {
    open spec fn obeys_from_spec() -> bool {
        true
    }

    open spec fn from_spec(error: GpuRecoveryJournalError) -> Self {
        GpuLiveRecoveryError::Journal(error)
    }
}

impl From<GpuHistoryRecoveryError> for GpuLiveRecoveryError {
    fn from(error: GpuHistoryRecoveryError) -> (converted: Self) {
        GpuLiveRecoveryError::Spills(error)
    }
}

impl vstd::std_specs::convert::FromSpecImpl<GpuHistoryRecoveryError> for GpuLiveRecoveryError {
    open spec fn obeys_from_spec() -> bool {
        true
    }

    open spec fn from_spec(error: GpuHistoryRecoveryError) -> Self {
        GpuLiveRecoveryError::Spills(error)
    }
}

impl From<GpuRecoveryTimelineError> for GpuLiveRecoveryError {
    fn from(error: GpuRecoveryTimelineError) -> (converted: Self) {
        GpuLiveRecoveryError::Timeline(error)
    }
}

impl vstd::std_specs::convert::FromSpecImpl<GpuRecoveryTimelineError> for GpuLiveRecoveryError {
    open spec fn obeys_from_spec() -> bool {
        true
    }

    open spec fn from_spec(error: GpuRecoveryTimelineError) -> Self {
        GpuLiveRecoveryError::Timeline(error)
    }
}

/// Why a revision was mirrored: for an entry of the history, or for the base alone.
#[derive(Clone, Copy, Debug, PartialEq, Eq, Structural)]
pub enum GpuMirrorRecoveryPurpose {
    History(GpuHistoryId),
    ReconcileOnly,
}

pub struct LiveModel {
    pub timeline: TimelineModel<GpuRasterRecoveryCommand>,
    pub spills: SpillsModel,
}

/// A new history entry that is ready to be recorded.
#[derive(Clone, Debug, PartialEq)]
pub struct PreparedGpuHistoryRecoveryRecord {
    pub(crate) id: GpuHistoryId,
    pub(crate) evicted_ids: Vec<GpuHistoryId>,
    pub(crate) source_revision: DocumentRevision,
    pub(crate) revision: DocumentRevision,
    pub(crate) byte_len: u64,
    pub(crate) command: GpuRasterRecoveryCommand,
}

pub struct PreparedRecordModel {
    pub id: GpuHistoryId,
    pub evicted_ids: Seq<GpuHistoryId>,
    pub source_revision: DocumentRevision,
    pub revision: DocumentRevision,
    pub byte_len: u64,
    pub command: GpuRasterRecoveryCommand,
}

impl View for PreparedGpuHistoryRecoveryRecord {
    type V = PreparedRecordModel;

    open(crate) spec fn view(&self) -> PreparedRecordModel {
        PreparedRecordModel {
            id: self.id,
            evicted_ids: self.evicted_ids@,
            source_revision: self.source_revision,
            revision: self.revision,
            byte_len: self.byte_len,
            command: self.command,
        }
    }
}

/// A step through the history that is ready to be recorded.
#[derive(Clone, Debug, PartialEq)]
pub struct PreparedGpuHistoryRecoverySwap {
    pub(crate) id: GpuHistoryId,
    pub(crate) direction: GpuHistoryDirection,
    pub(crate) source_revision: DocumentRevision,
    pub(crate) revision: DocumentRevision,
    pub(crate) byte_len: u64,
    pub(crate) command: GpuRasterRecoveryCommand,
}

pub struct PreparedSwapModel {
    pub id: GpuHistoryId,
    pub direction: GpuHistoryDirection,
    pub source_revision: DocumentRevision,
    pub revision: DocumentRevision,
    pub byte_len: u64,
    pub command: GpuRasterRecoveryCommand,
}

impl View for PreparedGpuHistoryRecoverySwap {
    type V = PreparedSwapModel;

    open(crate) spec fn view(&self) -> PreparedSwapModel {
        PreparedSwapModel {
            id: self.id,
            direction: self.direction,
            source_revision: self.source_revision,
            revision: self.revision,
            byte_len: self.byte_len,
            command: self.command,
        }
    }
}

/// A mirrored revision that is ready to become the base.
#[derive(Debug)]
pub struct PreparedGpuMirrorRecoveryHandoff {
    pub(crate) purpose: GpuMirrorRecoveryPurpose,
    pub(crate) retired_records: usize,
    pub(crate) retired_bytes: u64,
    pub(crate) attachment: Option<GpuHistoryRecoveryAttachment>,
    pub(crate) snapshot: GpuCpuMirrorSnapshot,
    pub(crate) transition: GpuExactRasterRecoveryTransition,
}

pub struct PreparedHandoffModel {
    pub purpose: GpuMirrorRecoveryPurpose,
    pub retired_records: int,
    pub retired_bytes: int,
    pub attachment: Option<GpuHistoryRecoveryAttachment>,
    pub snapshot: MirrorModel,
    pub transition: TransitionModel,
}

impl View for PreparedGpuMirrorRecoveryHandoff {
    type V = PreparedHandoffModel;

    open(crate) spec fn view(&self) -> PreparedHandoffModel {
        PreparedHandoffModel {
            purpose: self.purpose,
            retired_records: self.retired_records as int,
            retired_bytes: self.retired_bytes as int,
            attachment: self.attachment,
            snapshot: self.snapshot@,
            transition: self.transition@,
        }
    }
}

/// The bytes that a command of exact pixels counts for in the journal.
pub open spec fn swap_byte_len(command: ExactCommandModel) -> int {
    minimum(
        command.retained_byte_len - size_of::<ExactCommandHeader>() + size_of::<
            RasterCommandHeader,
        >(),
        u64::MAX as int,
    )
}

impl LiveModel {
    pub open spec fn revision(self) -> DocumentRevision {
        self.timeline.journal.latest
    }

    /// Why an entry is not recorded, if it is not.
    pub open spec fn record_error(
        self,
        id: GpuHistoryId,
        evicted_ids: Seq<GpuHistoryId>,
        source_revision: DocumentRevision,
        revision: DocumentRevision,
        byte_len: u64,
    ) -> Option<GpuLiveRecoveryError> {
        match self.timeline.journal.record_error(revision, byte_len) {
            Some(error) => Some(GpuLiveRecoveryError::Journal(error)),
            None => match self.spills.replace_error(evicted_ids, id, source_revision, revision) {
                Some(error) => Some(GpuLiveRecoveryError::Spills(error)),
                None => None,
            },
        }
    }

    /// Why a prepared entry is not recorded, if it is not.
    pub open spec fn commit_error(self, prepared: PreparedRecordModel) -> Option<
        GpuLiveRecoveryError,
    > {
        if self.revision() != prepared.source_revision {
            Some(
                GpuLiveRecoveryError::PreparedSourceChanged {
                    prepared: prepared.source_revision,
                    actual: self.revision(),
                },
            )
        } else {
            self.record_error(
                prepared.id,
                prepared.evicted_ids,
                prepared.source_revision,
                prepared.revision,
                prepared.byte_len,
            )
        }
    }

    pub open spec fn with_record(self, prepared: PreparedRecordModel) -> LiveModel {
        LiveModel {
            timeline: TimelineModel {
                journal: self.timeline.journal.with_record(
                    prepared.revision,
                    prepared.byte_len,
                    prepared.command,
                ),
                ..self.timeline
            },
            spills: self.spills.replaced(
                prepared.evicted_ids,
                prepared.id,
                prepared.source_revision,
                prepared.revision,
            ),
        }
    }

    /// Why a step through the history is not prepared, if it is not.
    pub open spec fn swap_error(
        self,
        id: GpuHistoryId,
        direction: GpuHistoryDirection,
        revision: DocumentRevision,
    ) -> Option<GpuLiveRecoveryError> {
        match self.spills.command_for(id, direction) {
            Err(error) => Some(GpuLiveRecoveryError::Spills(error)),
            Ok(command) => match self.timeline.journal.record_error(
                revision,
                swap_byte_len(command) as u64,
            ) {
                Some(error) => Some(GpuLiveRecoveryError::Journal(error)),
                None => None,
            },
        }
    }

    /// Why a prepared step is not recorded, if it is not.
    pub open spec fn swap_commit_error(self, prepared: PreparedSwapModel) -> Option<
        GpuLiveRecoveryError,
    > {
        if self.revision() != prepared.source_revision {
            Some(
                GpuLiveRecoveryError::PreparedSourceChanged {
                    prepared: prepared.source_revision,
                    actual: self.revision(),
                },
            )
        } else {
            match self.timeline.journal.record_error(prepared.revision, prepared.byte_len) {
                Some(error) => Some(GpuLiveRecoveryError::Journal(error)),
                None => None,
            }
        }
    }

    pub open spec fn with_swap(self, prepared: PreparedSwapModel) -> LiveModel {
        LiveModel {
            timeline: TimelineModel {
                journal: self.timeline.journal.with_record(
                    prepared.revision,
                    prepared.byte_len,
                    prepared.command,
                ),
                ..self.timeline
            },
            ..self
        }
    }

    /// The history entry that waits for the pixels of a revision.
    pub open spec fn waiting(self, revision: DocumentRevision) -> Option<GpuHistoryId> {
        match find_revision(self.spills.keys(), revision) {
            Some(i) => Some(self.spills.entries[i].id),
            None => None,
        }
    }

    /// Why a mirrored revision does not become the base, if it does not.
    pub open spec fn handoff_error(
        self,
        purpose: GpuMirrorRecoveryPurpose,
        snapshot: MirrorModel,
        transition: TransitionModel,
    ) -> Option<GpuLiveRecoveryError> {
        if snapshot.revision != transition.revision {
            Some(
                GpuLiveRecoveryError::MirrorRevisionMismatch {
                    snapshot: snapshot.revision,
                    transition: transition.revision,
                },
            )
        } else if transition.source_revision != self.timeline.base.revision {
            Some(
                GpuLiveRecoveryError::MirrorSourceMismatch {
                    base: self.timeline.base.revision,
                    transition: transition.source_revision,
                },
            )
        } else if let Some(error) = self.timeline.advance_error(snapshot) {
            Some(GpuLiveRecoveryError::Timeline(error))
        } else {
            match purpose {
                GpuMirrorRecoveryPurpose::History(expected) => if self.waiting(transition.revision)
                    != Some(expected) {
                    Some(
                        GpuLiveRecoveryError::HistorySpillMismatch {
                            revision: transition.revision,
                            expected,
                            actual: self.waiting(transition.revision),
                        },
                    )
                } else {
                    match self.spills.attach_error(transition) {
                        Some(error) => Some(GpuLiveRecoveryError::Spills(error)),
                        None => None,
                    }
                },
                GpuMirrorRecoveryPurpose::ReconcileOnly => match self.waiting(
                    transition.revision,
                ) {
                    Some(id) => Some(
                        GpuLiveRecoveryError::HistorySpillWouldBeDiscarded {
                            revision: transition.revision,
                            id,
                        },
                    ),
                    None => None,
                },
            }
        }
    }

    pub open spec fn attachment(
        self,
        purpose: GpuMirrorRecoveryPurpose,
        transition: TransitionModel,
    ) -> Option<GpuHistoryRecoveryAttachment> {
        match purpose {
            GpuMirrorRecoveryPurpose::History(_) => Some(self.spills.attachment(transition)),
            GpuMirrorRecoveryPurpose::ReconcileOnly => None,
        }
    }

    pub open spec fn handed_off(
        self,
        purpose: GpuMirrorRecoveryPurpose,
        snapshot: MirrorModel,
        transition: TransitionModel,
    ) -> LiveModel {
        LiveModel {
            timeline: self.timeline.advanced(snapshot),
            spills: match purpose {
                GpuMirrorRecoveryPurpose::History(_) => self.spills.attached(transition),
                GpuMirrorRecoveryPurpose::ReconcileOnly => self.spills,
            },
        }
    }
}

impl PreparedGpuHistoryRecoveryRecord {
    pub open(crate) spec fn wf(self) -> bool {
        &&& self.command.wf()
        &&& self.byte_len == command_byte_len(self.command)
    }

    pub fn id(&self) -> (id: GpuHistoryId)
        ensures
            id == self@.id,
    {
        self.id
    }

    pub fn evicted_ids(&self) -> (ids: &Vec<GpuHistoryId>)
        ensures
            ids@ == self@.evicted_ids,
    {
        &self.evicted_ids
    }

    pub fn source_revision(&self) -> (revision: DocumentRevision)
        ensures
            revision == self@.source_revision,
    {
        self.source_revision
    }

    pub fn revision(&self) -> (revision: DocumentRevision)
        ensures
            revision == self@.revision,
    {
        self.revision
    }

    pub fn byte_len(&self) -> (len: u64)
        ensures
            len == self@.byte_len,
    {
        self.byte_len
    }

    pub fn command(&self) -> (command: &GpuRasterRecoveryCommand)
        ensures
            *command == self@.command,
    {
        &self.command
    }

    pub fn into_command(self) -> (command: GpuRasterRecoveryCommand)
        ensures
            command == self@.command,
    {
        self.command
    }
}

impl PreparedGpuHistoryRecoverySwap {
    pub open(crate) spec fn wf(self) -> bool {
        &&& self.command.wf()
        &&& self.byte_len == command_byte_len(self.command)
    }

    pub fn id(&self) -> (id: GpuHistoryId)
        ensures
            id == self@.id,
    {
        self.id
    }

    pub fn direction(&self) -> (direction: GpuHistoryDirection)
        ensures
            direction == self@.direction,
    {
        self.direction
    }

    pub fn source_revision(&self) -> (revision: DocumentRevision)
        ensures
            revision == self@.source_revision,
    {
        self.source_revision
    }

    pub fn revision(&self) -> (revision: DocumentRevision)
        ensures
            revision == self@.revision,
    {
        self.revision
    }

    pub fn byte_len(&self) -> (len: u64)
        ensures
            len == self@.byte_len,
    {
        self.byte_len
    }

    pub fn command(&self) -> (command: &GpuRasterRecoveryCommand)
        ensures
            *command == self@.command,
    {
        &self.command
    }

    pub fn into_command(self) -> (command: GpuRasterRecoveryCommand)
        ensures
            command == self@.command,
    {
        self.command
    }
}

impl PreparedGpuMirrorRecoveryHandoff {
    pub open(crate) spec fn wf(self) -> bool {
        &&& self.snapshot.wf()
        &&& self.transition.wf()
    }

    pub fn purpose(&self) -> (purpose: GpuMirrorRecoveryPurpose)
        ensures
            purpose == self@.purpose,
    {
        self.purpose
    }

    pub fn retired_records(&self) -> (records: usize)
        ensures
            records == self@.retired_records,
    {
        self.retired_records
    }

    pub fn retired_bytes(&self) -> (bytes: u64)
        ensures
            bytes == self@.retired_bytes,
    {
        self.retired_bytes
    }

    pub fn attachment(&self) -> (attachment: Option<GpuHistoryRecoveryAttachment>)
        ensures
            attachment == self@.attachment,
    {
        self.attachment
    }

    pub fn snapshot(&self) -> (snapshot: &GpuCpuMirrorSnapshot)
        requires
            self.wf(),
        ensures
            snapshot.wf(),
            snapshot@ == self@.snapshot,
    {
        &self.snapshot
    }

    pub fn transition(&self) -> (transition: &GpuExactRasterRecoveryTransition)
        requires
            self.wf(),
        ensures
            transition.wf(),
            transition@ == self@.transition,
    {
        &self.transition
    }
}

#[derive(Debug)]
pub struct GpuHistoryRecoveryRecordCommit {
    pub id: GpuHistoryId,
    pub revision: DocumentRevision,
    pub freed_spill_bytes: u64,
    pub evicted_spills: Vec<GpuHistoryRecoveryEntry>,
}

#[derive(Clone, Copy, Debug, PartialEq, Eq, Structural)]
pub struct GpuHistoryRecoverySwapCommit {
    pub id: GpuHistoryId,
    pub direction: GpuHistoryDirection,
    pub revision: DocumentRevision,
}

#[derive(Debug)]
pub struct GpuMirrorRecoveryCommit {
    pub purpose: GpuMirrorRecoveryPurpose,
    pub attachment: Option<GpuHistoryRecoveryAttachment>,
    pub unused_transition: Option<GpuExactRasterRecoveryTransition>,
    pub advance: GpuRecoveryBaseAdvance<GpuRasterRecoveryCommand>,
}

#[derive(Debug)]
pub struct GpuHistoryRecoveryPrepareFailure {
    pub error: GpuLiveRecoveryError,
    pub command: GpuRasterRecoveryCommand,
}

#[derive(Debug)]
pub struct GpuHistoryRecoveryCommitFailure {
    pub error: GpuLiveRecoveryError,
    pub prepared: PreparedGpuHistoryRecoveryRecord,
}

#[derive(Debug)]
pub struct GpuHistoryRecoverySwapCommitFailure {
    pub error: GpuLiveRecoveryError,
    pub prepared: PreparedGpuHistoryRecoverySwap,
}

#[derive(Debug)]
pub struct GpuMirrorRecoveryPrepareFailure {
    pub error: GpuLiveRecoveryError,
    pub snapshot: GpuCpuMirrorSnapshot,
    pub transition: GpuExactRasterRecoveryTransition,
}

#[derive(Debug)]
pub struct GpuMirrorRecoveryCommitFailure {
    pub error: GpuLiveRecoveryError,
    pub prepared: PreparedGpuMirrorRecoveryHandoff,
}

/// What a document can be rebuilt from, and what its history needs.
#[derive(Debug)]
pub struct GpuLiveRecovery {
    pub(crate) timeline: GpuRecoveryTimeline<GpuRasterRecoveryCommand>,
    pub(crate) spills: GpuHistoryRecoverySpills,
}

impl View for GpuLiveRecovery {
    type V = LiveModel;

    open(crate) spec fn view(&self) -> LiveModel {
        LiveModel { timeline: self.timeline@, spills: self.spills@ }
    }
}

/// Every recorded command can be replayed.
pub open(crate) spec fn commands_sound(
    records: Seq<RecordModel<GpuRasterRecoveryCommand>>,
) -> bool {
    forall|i: int| #![trigger records[i]] 0 <= i < records.len() ==> records[i].command.wf()
}

pub(crate) fn copy_ids(ids: &Vec<GpuHistoryId>) -> (copy: Vec<GpuHistoryId>)
    ensures
        copy@ == ids@,
{
    let mut copy: Vec<GpuHistoryId> = Vec::new();
    let mut i: usize = 0;
    while i < ids.len()
        invariant
            i <= ids@.len(),
            copy@ == ids@.subrange(0, i as int),
        decreases ids@.len() - i,
    {
        copy.push(ids[i]);
        assert(copy@ =~= ids@.subrange(0, i as int + 1));
        i += 1;
    }
    assert(copy@ =~= ids@);
    copy
}

impl GpuLiveRecovery {
    pub open(crate) spec fn wf(self) -> bool {
        &&& self.timeline.wf()
        &&& self.spills.wf()
        &&& commands_sound(self@.timeline.journal.records)
    }

    pub fn new(
        base: GpuCpuMirrorSnapshot,
        journal_entries: usize,
        journal_bytes: u64,
        spill_entries: usize,
        spill_bytes: u64,
    ) -> (live: Result<GpuLiveRecovery, GpuLiveRecoveryError>)
        requires
            base.wf(),
        ensures
            match live {
                Ok(live) => {
                    &&& journal_entries > 0 && journal_bytes > 0
                    &&& spill_entries > 0 && spill_bytes > 0
                    &&& live.wf()
                    &&& live@ == (LiveModel {
                        timeline: TimelineModel {
                            base: base@,
                            journal: JournalModel {
                                mirrored: base@.revision,
                                latest: base@.revision,
                                records: Seq::empty(),
                                max_bytes: journal_bytes,
                                max_entries: journal_entries,
                            },
                        },
                        spills: SpillsModel {
                            entries: Seq::empty(),
                            max_entries: spill_entries as int,
                            max_bytes: spill_bytes as int,
                        },
                    })
                },
                Err(error) => error == (if journal_entries == 0 {
                    GpuLiveRecoveryError::Journal(GpuRecoveryJournalError::InvalidEntryLimit)
                } else if journal_bytes == 0 {
                    GpuLiveRecoveryError::Journal(GpuRecoveryJournalError::InvalidByteLimit)
                } else if spill_entries == 0 {
                    GpuLiveRecoveryError::Spills(GpuHistoryRecoveryError::InvalidEntryLimit)
                } else {
                    GpuLiveRecoveryError::Spills(GpuHistoryRecoveryError::InvalidByteLimit)
                }) && (journal_entries == 0 || journal_bytes == 0 || spill_entries == 0
                    || spill_bytes == 0),
            },
    {
        let timeline = match GpuRecoveryTimeline::new(base, journal_entries, journal_bytes) {
            Ok(timeline) => timeline,
            Err(error) => {
                return Err(GpuLiveRecoveryError::Journal(error));
            },
        };
        let spills = match GpuHistoryRecoverySpills::new(spill_entries, spill_bytes) {
            Ok(spills) => spills,
            Err(error) => {
                return Err(GpuLiveRecoveryError::Spills(error));
            },
        };
        Ok(GpuLiveRecovery { timeline, spills })
    }

    pub fn from_parts(
        timeline: GpuRecoveryTimeline<GpuRasterRecoveryCommand>,
        spills: GpuHistoryRecoverySpills,
    ) -> (live: GpuLiveRecovery)
        requires
            timeline.wf(),
            spills.wf(),
            commands_sound(timeline@.journal.records),
        ensures
            live.wf(),
            live@ == (LiveModel { timeline: timeline@, spills: spills@ }),
    {
        GpuLiveRecovery { timeline, spills }
    }

    /// Makes sure that a new history entry can be recorded. Nothing changes yet.
    pub fn prepare_history_record(
        &self,
        id: GpuHistoryId,
        evicted_ids: &Vec<GpuHistoryId>,
        revision: DocumentRevision,
        command: GpuRasterRecoveryCommand,
    ) -> (prepared: Result<
        PreparedGpuHistoryRecoveryRecord,
        Box<GpuHistoryRecoveryPrepareFailure>,
    >)
        requires
            self.wf(),
            command.wf(),
        ensures
            ({
                let error = self@.record_error(
                    id,
                    evicted_ids@,
                    self@.revision(),
                    revision,
                    command_byte_len(command) as u64,
                );
                match prepared {
                    Ok(prepared) => {
                        &&& error is None
                        &&& prepared.wf()
                        &&& prepared@ == (PreparedRecordModel {
                            id,
                            evicted_ids: evicted_ids@,
                            source_revision: self@.revision(),
                            revision,
                            byte_len: command_byte_len(command) as u64,
                            command,
                        })
                    },
                    Err(failure) => error == Some(failure.error) && failure.command == command,
                }
            }),
    {
        let source_revision = self.timeline.target_revision();
        let byte_len: u64 = command.retained_byte_len();
        match self.timeline.check_record(revision, byte_len) {
            Ok(_) => {},
            Err(error) => {
                return Err(
                    Box::new(
                        GpuHistoryRecoveryPrepareFailure {
                            error: GpuLiveRecoveryError::Journal(error),
                            command,
                        },
                    ),
                );
            },
        }
        match self.spills.check_replace(evicted_ids, id, source_revision, revision) {
            Ok(_) => {},
            Err(error) => {
                return Err(
                    Box::new(
                        GpuHistoryRecoveryPrepareFailure {
                            error: GpuLiveRecoveryError::Spills(error),
                            command,
                        },
                    ),
                );
            },
        }
        Ok(
            PreparedGpuHistoryRecoveryRecord {
                id,
                evicted_ids: copy_ids(evicted_ids),
                source_revision,
                revision,
                byte_len,
                command,
            },
        )
    }

    /// Checks that a prepared entry can still be recorded.
    pub fn check_prepared_history_record(&self, prepared: &PreparedGpuHistoryRecoveryRecord) -> (
    checked: Result<(), GpuLiveRecoveryError>)
        requires
            self.wf(),
        ensures
            match checked {
                Ok(_) => self@.commit_error(prepared@) is None,
                Err(error) => self@.commit_error(prepared@) == Some(error),
            },
    {
        let actual = self.timeline.target_revision();
        if actual.0 != prepared.source_revision.0 {
            return Err(
                GpuLiveRecoveryError::PreparedSourceChanged {
                    prepared: prepared.source_revision,
                    actual,
                },
            );
        }
        match self.timeline.check_record(prepared.revision, prepared.byte_len) {
            Ok(_) => {},
            Err(error) => {
                return Err(GpuLiveRecoveryError::Journal(error));
            },
        }
        match self.spills.check_replace(
            &prepared.evicted_ids,
            prepared.id,
            prepared.source_revision,
            prepared.revision,
        ) {
            Ok(_) => Ok(()),
            Err(error) => Err(GpuLiveRecoveryError::Spills(error)),
        }
    }

    /// Records a prepared entry: its command in the journal, its place among the
    /// spills. What can no longer be recorded comes back as it was.
    pub fn commit_history_record(&mut self, prepared: PreparedGpuHistoryRecoveryRecord) -> (commit:
        Result<GpuHistoryRecoveryRecordCommit, Box<GpuHistoryRecoveryCommitFailure>>)
        requires
            old(self).wf(),
            prepared.wf(),
        ensures
            final(self).wf(),
            match commit {
                Ok(commit) => {
                    &&& old(self)@.commit_error(prepared@) is None
                    &&& final(self)@ == old(self)@.with_record(prepared@)
                    &&& commit.id == prepared@.id
                    &&& commit.revision == prepared@.revision
                    &&& commit.freed_spill_bytes == spill_bytes(old(self)@.spills.entries)
                        - spill_bytes(final(self)@.spills.entries)
                    &&& spill_models(commit.evicted_spills@) == old(self)@.spills.evicted(
                        prepared@.evicted_ids,
                    )
                },
                Err(failure) => {
                    &&& old(self)@.commit_error(prepared@) == Some(failure.error)
                    &&& failure.prepared == prepared
                    &&& *final(self) == *old(self)
                },
            },
    {
        match self.check_prepared_history_record(&prepared) {
            Ok(_) => {},
            Err(error) => {
                return Err(Box::new(GpuHistoryRecoveryCommitFailure { error, prepared }));
            },
        }
        let PreparedGpuHistoryRecoveryRecord {
            id,
            evicted_ids,
            source_revision,
            revision,
            byte_len,
            command,
        } = prepared;
        match self.spills.replace(&evicted_ids, id, source_revision, revision) {
            Ok(replacement) => {
                match self.timeline.record(revision, byte_len, command) {
                    Ok(_) => {},
                    Err(_) => {},
                }
                proof {
                    let before = old(self)@.timeline.journal.records;
                    let after = self@.timeline.journal.records;
                    assert forall|i: int|
                        #![trigger after[i]]
                        0 <= i < after.len() implies after[i].command.wf() by {
                        if i < before.len() {
                            assert(after[i] == before[i]);
                        }
                    }
                }
                Ok(
                    GpuHistoryRecoveryRecordCommit {
                        id,
                        revision,
                        freed_spill_bytes: replacement.freed_bytes,
                        evicted_spills: replacement.evicted,
                    },
                )
            },
            Err(error) => Err(
                Box::new(
                    GpuHistoryRecoveryCommitFailure {
                        error: GpuLiveRecoveryError::Spills(error),
                        prepared: PreparedGpuHistoryRecoveryRecord {
                            id,
                            evicted_ids,
                            source_revision,
                            revision,
                            byte_len,
                            command,
                        },
                    },
                ),
            ),
        }
    }

    /// Makes sure that a step through the history can be recorded.
    pub fn prepare_history_swap(
        &self,
        id: GpuHistoryId,
        direction: GpuHistoryDirection,
        revision: DocumentRevision,
    ) -> (prepared: Result<PreparedGpuHistoryRecoverySwap, GpuLiveRecoveryError>)
        requires
            self.wf(),
        ensures
            match prepared {
                Ok(prepared) => {
                    &&& self@.swap_error(id, direction, revision) is None
                    &&& prepared.wf()
                    &&& prepared@.id == id
                    &&& prepared@.direction == direction
                    &&& prepared@.source_revision == self@.revision()
                    &&& prepared@.revision == revision
                    &&& prepared@.byte_len == swap_byte_len(
                        self@.spills.command_for(id, direction)->Ok_0,
                    )
                    &&& prepared@.command matches GpuRasterRecoveryCommand::Exact(command)
                    &&& command@ == self@.spills.command_for(id, direction)->Ok_0
                },
                Err(error) => self@.swap_error(id, direction, revision) == Some(error),
            },
    {
        let exact = match self.spills.exact_command(id, direction) {
            Ok(exact) => exact,
            Err(error) => {
                return Err(GpuLiveRecoveryError::Spills(error));
            },
        };
        let command = GpuRasterRecoveryCommand::Exact(exact.duplicate());
        let byte_len: u64 = command.retained_byte_len();
        match self.timeline.check_record(revision, byte_len) {
            Ok(_) => {},
            Err(error) => {
                return Err(GpuLiveRecoveryError::Journal(error));
            },
        }
        Ok(
            PreparedGpuHistoryRecoverySwap {
                id,
                direction,
                source_revision: self.timeline.target_revision(),
                revision,
                byte_len,
                command,
            },
        )
    }

    /// Checks that a prepared step can still be recorded.
    pub fn check_prepared_history_swap(&self, prepared: &PreparedGpuHistoryRecoverySwap) -> (
    checked: Result<(), GpuLiveRecoveryError>)
        requires
            self.wf(),
        ensures
            match checked {
                Ok(_) => self@.swap_commit_error(prepared@) is None,
                Err(error) => self@.swap_commit_error(prepared@) == Some(error),
            },
    {
        let actual = self.timeline.target_revision();
        if actual.0 != prepared.source_revision.0 {
            return Err(
                GpuLiveRecoveryError::PreparedSourceChanged {
                    prepared: prepared.source_revision,
                    actual,
                },
            );
        }
        match self.timeline.check_record(prepared.revision, prepared.byte_len) {
            Ok(_) => Ok(()),
            Err(error) => Err(GpuLiveRecoveryError::Journal(error)),
        }
    }

    /// Records a prepared step. What can no longer be recorded comes back as it was.
    pub fn commit_history_swap(&mut self, prepared: PreparedGpuHistoryRecoverySwap) -> (commit:
        Result<GpuHistoryRecoverySwapCommit, Box<GpuHistoryRecoverySwapCommitFailure>>)
        requires
            old(self).wf(),
            prepared.wf(),
        ensures
            final(self).wf(),
            match commit {
                Ok(commit) => {
                    &&& old(self)@.swap_commit_error(prepared@) is None
                    &&& final(self)@ == old(self)@.with_swap(prepared@)
                    &&& commit == (GpuHistoryRecoverySwapCommit {
                        id: prepared@.id,
                        direction: prepared@.direction,
                        revision: prepared@.revision,
                    })
                },
                Err(failure) => {
                    &&& old(self)@.swap_commit_error(prepared@) == Some(failure.error)
                    &&& failure.prepared == prepared
                    &&& *final(self) == *old(self)
                },
            },
    {
        match self.check_prepared_history_swap(&prepared) {
            Ok(_) => {},
            Err(error) => {
                return Err(Box::new(GpuHistoryRecoverySwapCommitFailure { error, prepared }));
            },
        }
        let PreparedGpuHistoryRecoverySwap {
            id,
            direction,
            source_revision: _,
            revision,
            byte_len,
            command,
        } = prepared;
        match self.timeline.record(revision, byte_len, command) {
            Ok(_) => {},
            Err(_) => {},
        }
        proof {
            let before = old(self)@.timeline.journal.records;
            let after = self@.timeline.journal.records;
            assert forall|i: int|
                #![trigger after[i]]
                0 <= i < after.len() implies after[i].command.wf() by {
                if i < before.len() {
                    assert(after[i] == before[i]);
                }
            }
        }
        Ok(GpuHistoryRecoverySwapCommit { id, direction, revision })
    }

    fn check_mirror_handoff(
        &self,
        purpose: GpuMirrorRecoveryPurpose,
        snapshot: &GpuCpuMirrorSnapshot,
        transition: &GpuExactRasterRecoveryTransition,
    ) -> (checked: Result<
        (usize, u64, Option<GpuHistoryRecoveryAttachment>),
        GpuLiveRecoveryError,
    >)
        requires
            self.wf(),
            snapshot.wf(),
            transition.wf(),
        ensures
            match checked {
                Ok((records, bytes, attachment)) => {
                    let retired = self@.timeline.journal.retired(snapshot@.revision);
                    &&& self@.handoff_error(purpose, snapshot@, transition@) is None
                    &&& records == retired.len()
                    &&& bytes == record_bytes(retired)
                    &&& attachment == self@.attachment(purpose, transition@)
                },
                Err(error) => self@.handoff_error(purpose, snapshot@, transition@) == Some(error),
            },
    {
        if snapshot.revision().0 != transition.revision().0 {
            return Err(
                GpuLiveRecoveryError::MirrorRevisionMismatch {
                    snapshot: snapshot.revision(),
                    transition: transition.revision(),
                },
            );
        }
        if transition.source_revision().0 != self.timeline.base_revision().0 {
            return Err(
                GpuLiveRecoveryError::MirrorSourceMismatch {
                    base: self.timeline.base_revision(),
                    transition: transition.source_revision(),
                },
            );
        }
        let retirement = match self.timeline.check_advance_base(snapshot) {
            Ok(retirement) => retirement,
            Err(error) => {
                return Err(GpuLiveRecoveryError::Timeline(error));
            },
        };
        let waiting = self.spills.id_for_revision(transition.revision());
        assert(waiting == self@.waiting(transition@.revision));
        let attachment = match purpose {
            GpuMirrorRecoveryPurpose::History(expected) => {
                let matched = match waiting {
                    Some(id) => id.0 == expected.0,
                    None => false,
                };
                if !matched {
                    return Err(
                        GpuLiveRecoveryError::HistorySpillMismatch {
                            revision: transition.revision(),
                            expected,
                            actual: waiting,
                        },
                    );
                }
                match self.spills.check_attach(transition) {
                    Ok(attachment) => Some(attachment),
                    Err(error) => {
                        return Err(GpuLiveRecoveryError::Spills(error));
                    },
                }
            },
            GpuMirrorRecoveryPurpose::ReconcileOnly => {
                match waiting {
                    Some(id) => {
                        return Err(
                            GpuLiveRecoveryError::HistorySpillWouldBeDiscarded {
                                revision: transition.revision(),
                                id,
                            },
                        );
                    },
                    None => {},
                }
                None
            },
        };
        Ok((retirement.record_count, retirement.retired_bytes, attachment))
    }

    /// Makes sure that a mirrored revision can become the base.
    pub fn prepare_mirror_handoff(
        &self,
        purpose: GpuMirrorRecoveryPurpose,
        snapshot: GpuCpuMirrorSnapshot,
        transition: GpuExactRasterRecoveryTransition,
    ) -> (prepared: Result<
        PreparedGpuMirrorRecoveryHandoff,
        Box<GpuMirrorRecoveryPrepareFailure>,
    >)
        requires
            self.wf(),
            snapshot.wf(),
            transition.wf(),
        ensures
            match prepared {
                Ok(prepared) => {
                    let retired = self@.timeline.journal.retired(snapshot@.revision);
                    &&& self@.handoff_error(purpose, snapshot@, transition@) is None
                    &&& prepared.wf()
                    &&& prepared@ == (PreparedHandoffModel {
                        purpose,
                        retired_records: retired.len() as int,
                        retired_bytes: record_bytes(retired),
                        attachment: self@.attachment(purpose, transition@),
                        snapshot: snapshot@,
                        transition: transition@,
                    })
                },
                Err(failure) => {
                    &&& self@.handoff_error(purpose, snapshot@, transition@) == Some(
                        failure.error,
                    )
                    &&& failure.snapshot == snapshot
                    &&& failure.transition == transition
                },
            },
    {
        match self.check_mirror_handoff(purpose, &snapshot, &transition) {
            Ok((retired_records, retired_bytes, attachment)) => Ok(
                PreparedGpuMirrorRecoveryHandoff {
                    purpose,
                    retired_records,
                    retired_bytes,
                    attachment,
                    snapshot,
                    transition,
                },
            ),
            Err(error) => Err(
                Box::new(GpuMirrorRecoveryPrepareFailure { error, snapshot, transition }),
            ),
        }
    }

    /// Makes a prepared revision the base, and hands its pixels to the history entry
    /// that waits for them. What can no longer become the base comes back.
    pub fn commit_mirror_handoff(&mut self, prepared: PreparedGpuMirrorRecoveryHandoff) -> (commit:
        Result<GpuMirrorRecoveryCommit, Box<GpuMirrorRecoveryCommitFailure>>)
        requires
            old(self).wf(),
            prepared.wf(),
        ensures
            final(self).wf(),
            ({
                let purpose = prepared@.purpose;
                let snapshot = prepared@.snapshot;
                let transition = prepared@.transition;
                match commit {
                    Ok(commit) => {
                        let journal = old(self)@.timeline.journal;
                        &&& old(self)@.handoff_error(purpose, snapshot, transition) is None
                        &&& final(self)@ == old(self)@.handed_off(purpose, snapshot, transition)
                        &&& commit.purpose == purpose
                        &&& commit.attachment == old(self)@.attachment(purpose, transition)
                        &&& match commit.unused_transition {
                            Some(unused) => purpose is ReconcileOnly && unused.wf() && unused@
                                == transition,
                            None => purpose is History,
                        }
                        &&& commit.advance.previous_base.wf()
                        &&& commit.advance.previous_base@ == old(self)@.timeline.base
                        &&& commit.advance.retirement.previous_revision == journal.mirrored
                        &&& commit.advance.retirement.mirrored_revision == snapshot.revision
                        &&& commit.advance.retirement.retired_bytes == record_bytes(
                            journal.retired(snapshot.revision),
                        )
                        &&& record_models(commit.advance.retirement.records@) == journal.retired(
                            snapshot.revision,
                        )
                    },
                    Err(failure) => {
                        &&& old(self)@.handoff_error(purpose, snapshot, transition) == Some(
                            failure.error,
                        )
                        &&& failure.prepared == prepared
                        &&& *final(self) == *old(self)
                    },
                }
            }),
    {
        match self.check_mirror_handoff(
            prepared.purpose,
            &prepared.snapshot,
            &prepared.transition,
        ) {
            Ok(_) => {},
            Err(error) => {
                return Err(Box::new(GpuMirrorRecoveryCommitFailure { error, prepared }));
            },
        }
        let PreparedGpuMirrorRecoveryHandoff {
            purpose,
            retired_records,
            retired_bytes,
            attachment,
            snapshot,
            transition,
        } = prepared;
        let ghost model = self@;
        let ghost pixels = transition@;
        let ghost mirror = snapshot@;
        match self.timeline.advance_base(snapshot) {
            Ok(advance) => {
                proof {
                    let before = model.timeline.journal.records;
                    let after = self@.timeline.journal.records;
                    let shift = mirror.revision.0 - model.timeline.journal.mirrored.0;
                    assert forall|i: int|
                        #![trigger after[i]]
                        0 <= i < after.len() implies after[i].command.wf() by {
                        assert(after[i] == before[i + shift]);
                    }
                }
                match purpose {
                    GpuMirrorRecoveryPurpose::History(_) => {
                        match self.spills.attach(transition) {
                            Ok(attached) => Ok(
                                GpuMirrorRecoveryCommit {
                                    purpose,
                                    attachment: Some(attached),
                                    unused_transition: None,
                                    advance,
                                },
                            ),
                            Err(failure) => Ok(
                                GpuMirrorRecoveryCommit {
                                    purpose,
                                    attachment: None,
                                    unused_transition: Some(failure.transition),
                                    advance,
                                },
                            ),
                        }
                    },
                    GpuMirrorRecoveryPurpose::ReconcileOnly => Ok(
                        GpuMirrorRecoveryCommit {
                            purpose,
                            attachment: None,
                            unused_transition: Some(transition),
                            advance,
                        },
                    ),
                }
            },
            Err(failure) => Err(
                Box::new(
                    GpuMirrorRecoveryCommitFailure {
                        error: GpuLiveRecoveryError::Timeline(failure.error),
                        prepared: PreparedGpuMirrorRecoveryHandoff {
                            purpose,
                            retired_records,
                            retired_bytes,
                            attachment,
                            snapshot: failure.base,
                            transition,
                        },
                    },
                ),
            ),
        }
    }

    pub fn timeline(&self) -> (timeline: &GpuRecoveryTimeline<GpuRasterRecoveryCommand>)
        requires
            self.wf(),
        ensures
            timeline.wf(),
            timeline@ == self@.timeline,
    {
        &self.timeline
    }

    pub fn spills(&self) -> (spills: &GpuHistoryRecoverySpills)
        requires
            self.wf(),
        ensures
            spills.wf(),
            spills@ == self@.spills,
    {
        &self.spills
    }

    pub fn revision(&self) -> (revision: DocumentRevision)
        ensures
            revision == self@.revision(),
    {
        self.timeline.target_revision()
    }
}

/// What was prepared is recorded, as long as nothing else was recorded in between.
pub proof fn law_prepared_record_commits(live: LiveModel, prepared: PreparedRecordModel)
    requires
        live.record_error(
            prepared.id,
            prepared.evicted_ids,
            live.revision(),
            prepared.revision,
            prepared.byte_len,
        ) is None,
        prepared.source_revision == live.revision(),
    ensures
        live.commit_error(prepared) is None,
        live.with_record(prepared).revision() == prepared.revision,
{
}

/// Of two records that were prepared at the same revision, only the first is taken.
pub proof fn law_second_prepared_record_is_stale(
    live: LiveModel,
    first: PreparedRecordModel,
    second: PreparedRecordModel,
)
    requires
        live.commit_error(first) is None,
        live.commit_error(second) is None,
    ensures
        live.with_record(first).commit_error(second) == Some(
            GpuLiveRecoveryError::PreparedSourceChanged {
                prepared: second.source_revision,
                actual: first.revision,
            },
        ),
{
}

/// A prepared step through the history is recorded, as long as nothing else was.
pub proof fn law_prepared_swap_commits(live: LiveModel, prepared: PreparedSwapModel)
    requires
        live.swap_error(prepared.id, prepared.direction, prepared.revision) is None,
        prepared.source_revision == live.revision(),
        prepared.byte_len == swap_byte_len(
            live.spills.command_for(prepared.id, prepared.direction)->Ok_0,
        ),
    ensures
        live.swap_commit_error(prepared) is None,
        live.with_swap(prepared).spills == live.spills,
{
}

} // verus!
