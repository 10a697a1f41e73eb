//! A mirrored base and the commands that lead from it to the present.

use crate::document::DocumentRevision;
use crate::gpu_cpu_mirror::{GpuCpuMirrorSnapshot, MirrorModel};
use crate::gpu_recovery_journal::{
    record_bytes, record_models, GpuRecoveryJournal, GpuRecoveryJournalError,
    GpuRecoveryJournalSnapshot, GpuRecoveryRecordFailure, GpuRecoveryRetirement,
    GpuRecoveryRetirementPreview, JournalModel, JournalSnapshotModel, RecordModel,
};
use vstd::prelude::*;

verus! {

#[derive(Clone, Copy, Debug, PartialEq, Eq)]
pub enum GpuRecoveryTimelineError {
    GeometryMismatch {
        expected_dimensions: [u32; 2],
        actual_dimensions: [u32; 2],
        expected_tile_size: u32,
        actual_tile_size: u32,
    },
    BaseNotNewer { current: DocumentRevision, requested: DocumentRevision },
    Journal(GpuRecoveryJournalError),
}

impl From<GpuRecoveryJournalError> for GpuRecoveryTimelineError {
    fn from(error: GpuRecoveryJournalError) -> (converted: Self) {
        GpuRecoveryTimelineError::Journal(error)
    }
}

impl vstd::std_specs::convert::FromSpecImpl<GpuRecoveryJournalError> for GpuRecoveryTimelineError {
    open spec fn obeys_from_spec() -> bool {
        true
    }

    open spec fn from_spec(error: GpuRecoveryJournalError) -> Self {
        GpuRecoveryTimelineError::Journal(error)
    }
}

pub struct TimelineModel<C> {
    pub base: MirrorModel,
    pub journal: JournalModel<C>,
}

impl<C> TimelineModel<C> {
    /// The journal begins where the base ends.
    pub open spec fn valid(self) -> bool {
        &&& self.journal.valid()
        &&& self.base.revision == self.journal.mirrored
    }

    /// Why `next` does not become the base, if it does not.
    pub open spec fn advance_error(self, next: MirrorModel) -> Option<GpuRecoveryTimelineError> {
        if next.geometry != self.base.geometry {
            Some(
                GpuRecoveryTimelineError::GeometryMismatch {
                    expected_dimensions: [
                        self.base.geometry.width as u32,
                        self.base.geometry.height as u32,
                    ],
                    actual_dimensions: [next.geometry.width as u32, next.geometry.height as u32],
                    expected_tile_size: self.base.geometry.tile_size as u32,
                    actual_tile_size: next.geometry.tile_size as u32,
                },
            )
        } else if next.revision.0 <= self.base.revision.0 {
            Some(
                GpuRecoveryTimelineError::BaseNotNewer {
                    current: self.base.revision,
                    requested: next.revision,
                },
            )
        } else {
            match self.journal.acknowledge_error(next.revision) {
                Some(error) => Some(GpuRecoveryTimelineError::Journal(error)),
                None => None,
            }
        }
    }

    pub open spec fn advanced(self, next: MirrorModel) -> TimelineModel<C> {
        TimelineModel { base: next, journal: self.journal.acknowledged(next.revision) }
    }
}

/// What was rebuilt from before, and the commands that no longer have to be.
#[derive(Debug)]
pub struct GpuRecoveryBaseAdvance<C> {
    pub previous_base: GpuCpuMirrorSnapshot,
    pub retirement: GpuRecoveryRetirement<C>,
}

#[derive(Debug)]
pub struct GpuRecoveryBaseAdvanceFailure {
    pub error: GpuRecoveryTimelineError,
    pub base: GpuCpuMirrorSnapshot,
}

/// A base revision with its pixels, and the commands since then.
#[derive(Debug)]
pub struct GpuRecoveryTimeline<C> {
    pub(crate) base: GpuCpuMirrorSnapshot,
    pub(crate) journal: GpuRecoveryJournal<C>,
}

impl<C> View for GpuRecoveryTimeline<C> {
    type V = TimelineModel<C>;

    open(crate) spec fn view(&self) -> TimelineModel<C> {
        TimelineModel { base: self.base@, journal: self.journal@ }
    }
}

impl<C> GpuRecoveryTimeline<C> {
    pub open(crate) spec fn wf(self) -> bool {
        &&& self.base.wf()
        &&& self.journal.wf()
        &&& self@.valid()
    }

    pub fn new(base: GpuCpuMirrorSnapshot, max_entries: usize, max_bytes: u64) -> (timeline: Result<
        GpuRecoveryTimeline<C>,
        GpuRecoveryJournalError,
    >)
        requires
            base.wf(),
        ensures
            match timeline {
                Ok(timeline) => {
                    &&& max_entries > 0 && max_bytes > 0
                    &&& timeline.wf()
                    &&& timeline@ == (TimelineModel::<C> {
                        base: base@,
                        journal: JournalModel {
                            mirrored: base@.revision,
                            latest: base@.revision,
                            records: Seq::empty(),
                            max_bytes,
                            max_entries,
                        },
                    })
                },
                Err(GpuRecoveryJournalError::InvalidEntryLimit) => max_entries == 0,
                Err(GpuRecoveryJournalError::InvalidByteLimit) => max_entries > 0 && max_bytes == 0,
                Err(_) => false,
            },
    {
        match GpuRecoveryJournal::new(base.revision(), max_entries, max_bytes) {
            Ok(journal) => Ok(GpuRecoveryTimeline { base, journal }),
            Err(error) => Err(error),
        }
    }

    pub fn check_record(&self, revision: DocumentRevision, byte_len: u64) -> (checked: Result<
        (),
        GpuRecoveryJournalError,
    >)
        requires
            self.wf(),
        ensures
            match checked {
                Ok(_) => self@.journal.record_error(revision, byte_len) is None,
                Err(error) => self@.journal.record_error(revision, byte_len) == Some(error),
            },
    {
        self.journal.check_record(revision, byte_len)
    }

    pub fn record(&mut self, revision: DocumentRevision, byte_len: u64, command: C) -> (recorded:
        Result<(), Box<GpuRecoveryRecordFailure<C>>>)
        requires
            old(self).wf(),
        ensures
            final(self).wf(),
            match recorded {
                Ok(_) => {
                    &&& old(self)@.journal.record_error(revision, byte_len) is None
                    &&& final(self)@ == (TimelineModel {
                        journal: old(self)@.journal.with_record(revision, byte_len, command),
                        ..old(self)@
                    })
                },
                Err(failure) => {
                    &&& old(self)@.journal.record_error(revision, byte_len) == Some(failure.error)
                    &&& failure.command == command
                    &&& *final(self) == *old(self)
                },
            },
    {
        self.journal.record(revision, byte_len, command)
    }

    /// What making `next` the base would retire.
    pub fn check_advance_base(&self, next: &GpuCpuMirrorSnapshot) -> (preview: Result<
        GpuRecoveryRetirementPreview,
        GpuRecoveryTimelineError,
    >)
        requires
            self.wf(),
        ensures
            match preview {
                Ok(preview) => {
                    &&& self@.advance_error(next@) is None
                    &&& preview == self@.journal.preview(next@.revision)
                    &&& preview.retired_bytes == record_bytes(
                        self@.journal.retired(next@.revision),
                    )
                    &&& preview.record_count == self@.journal.retired(next@.revision).len()
                },
                Err(error) => self@.advance_error(next@) == Some(error),
            },
    {
        if next.width != self.base.width || next.height != self.base.height || next.tile_size
            != self.base.tile_size {
            return Err(
                GpuRecoveryTimelineError::GeometryMismatch {
                    expected_dimensions: self.base.dimensions(),
                    actual_dimensions: next.dimensions(),
                    expected_tile_size: self.base.tile_size(),
                    actual_tile_size: next.tile_size(),
                },
            );
        }
        if next.revision().get() <= self.base.revision().get() {
            return Err(
                GpuRecoveryTimelineError::BaseNotNewer {
                    current: self.base.revision(),
                    requested: next.revision(),
                },
            );
        }
        match self.journal.check_acknowledge_mirrored(next.revision()) {
            Ok(preview) => Ok(preview),
            Err(error) => Err(GpuRecoveryTimelineError::from(error)),
        }
    }

    /// Makes a newer mirror the base and retires the commands that it contains.
    /// A mirror that is not taken comes back unchanged.
    pub fn advance_base(&mut self, next: GpuCpuMirrorSnapshot) -> (advance: Result<
        GpuRecoveryBaseAdvance<C>,
        Box<GpuRecoveryBaseAdvanceFailure>,
    >)
        requires
            old(self).wf(),
            next.wf(),
        ensures
            final(self).wf(),
            match advance {
                Ok(advance) => {
                    let journal = old(self)@.journal;
                    &&& old(self)@.advance_error(next@) is None
                    &&& final(self)@ == old(self)@.advanced(next@)
                    &&& advance.previous_base.wf()
                    &&& advance.previous_base@ == old(self)@.base
                    &&& advance.retirement.previous_revision == journal.mirrored
                    &&& advance.retirement.mirrored_revision == next@.revision
                    &&& advance.retirement.retired_bytes == record_bytes(
                        journal.retired(next@.revision),
                    )
                    &&& record_models(advance.retirement.records@) == journal.retired(
                        next@.revision,
                    )
                },
                Err(failure) => {
                    &&& old(self)@.advance_error(next@) == Some(failure.error)
                    &&& failure.base == next
                    &&& *final(self) == *old(self)
                },
            },
    {
        match self.check_advance_base(&next) {
            Ok(_) => {},
            Err(error) => {
                return Err(Box::new(GpuRecoveryBaseAdvanceFailure { error, base: next }));
            },
        }
        match self.journal.acknowledge_mirrored(next.revision()) {
            Ok(retirement) => {
                let mut previous_base = next;
                std::mem::swap(&mut self.base, &mut previous_base);
                Ok(GpuRecoveryBaseAdvance { previous_base, retirement })
            },
            Err(error) => Err(
                Box::new(
                    GpuRecoveryBaseAdvanceFailure {
                        error: GpuRecoveryTimelineError::from(error),
                        base: next,
                    },
                ),
            ),
        }
    }

    pub fn snapshot(&self) -> (snapshot: GpuRecoveryTimelineSnapshot<C>)
        requires
            self.wf(),
        ensures
            snapshot.wf(),
            snapshot@ == (TimelineSnapshotModel {
                base: self@.base,
                target: self@.journal.latest,
                records: self@.journal.records,
            }),
    {
        GpuRecoveryTimelineSnapshot {
            base: self.base.duplicate(),
            journal: self.journal.snapshot(),
        }
    }

    pub fn base(&self) -> (base: &GpuCpuMirrorSnapshot)
        requires
            self.wf(),
        ensures
            base.wf(),
            base@ == self@.base,
    {
        &self.base
    }

    pub fn journal(&self) -> (journal: &GpuRecoveryJournal<C>)
        requires
            self.wf(),
        ensures
            journal.wf(),
            journal@ == self@.journal,
    {
        &self.journal
    }

    pub fn base_revision(&self) -> (revision: DocumentRevision)
        ensures
            revision == self@.base.revision,
    {
        self.base.revision()
    }

    pub fn target_revision(&self) -> (revision: DocumentRevision)
        ensures
            revision == self@.journal.latest,
    {
        self.journal.latest_revision()
    }

    pub fn is_current(&self) -> (current: bool)
        ensures
            current == (self@.journal.mirrored == self@.journal.latest),
    {
        self.journal.is_current()
    }
}

pub struct TimelineSnapshotModel<C> {
    pub base: MirrorModel,
    pub target: DocumentRevision,
    pub records: Seq<RecordModel<C>>,
}

/// A timeline at one moment.
#[derive(Debug)]
pub struct GpuRecoveryTimelineSnapshot<C> {
    pub(crate) base: GpuCpuMirrorSnapshot,
    pub(crate) journal: GpuRecoveryJournalSnapshot<C>,
}

impl<C> View for GpuRecoveryTimelineSnapshot<C> {
    type V = TimelineSnapshotModel<C>;

    open(crate) spec fn view(&self) -> TimelineSnapshotModel<C> {
        TimelineSnapshotModel {
            base: self.base@,
            target: self.journal@.target,
            records: self.journal@.records,
        }
    }
}

impl<C> GpuRecoveryTimelineSnapshot<C> {
    /// The records lead from the base to the target, one revision at a time.
    pub open(crate) spec fn wf(self) -> bool {
        &&& self.base.wf()
        &&& self.journal.wf()
        &&& self.journal@.base == self.base@.revision
    }

    /// A second snapshot of the same moment.
    pub fn duplicate(&self) -> (copy: GpuRecoveryTimelineSnapshot<C>)
        requires
            self.wf(),
        ensures
            copy.wf(),
            copy@ == self@,
    {
        GpuRecoveryTimelineSnapshot { base: self.base.duplicate(), journal: self.journal.clone() }
    }

    pub fn base(&self) -> (base: &GpuCpuMirrorSnapshot)
        requires
            self.wf(),
        ensures
            base.wf(),
            base@ == self@.base,
    {
        &self.base
    }

    pub fn journal(&self) -> (journal: &GpuRecoveryJournalSnapshot<C>)
        requires
            self.wf(),
        ensures
            journal.wf(),
            journal@ == (JournalSnapshotModel {
                base: self@.base.revision,
                target: self@.target,
                records: self@.records,
            }),
    {
        &self.journal
    }

    pub fn base_revision(&self) -> (revision: DocumentRevision)
        ensures
            revision == self@.base.revision,
    {
        self.base.revision()
    }

    pub fn target_revision(&self) -> (revision: DocumentRevision)
        ensures
            revision == self@.target,
    {
        self.journal.target_revision()
    }

    pub fn is_current(&self) -> (current: bool)
        requires
            self.wf(),
        ensures
            current == (self@.base.revision == self@.target),
    {
        self.journal.is_current()
    }
}

/// Making a mirror the base keeps the base and the journal in step, and leaves
/// the revision that they lead to alone.
pub proof fn law_base_and_journal_advance_together<C>(
    timeline: TimelineModel<C>,
    next: MirrorModel,
)
    requires
        timeline.valid(),
        timeline.advance_error(next) is None,
    ensures
        timeline.advanced(next).valid(),
        timeline.advanced(next).journal.mirrored == next.revision,
        timeline.advanced(next).journal.latest == timeline.journal.latest,
        timeline.journal.retired(next.revision) + timeline.advanced(next).journal.records
            == timeline.journal.records,
        timeline.journal.retired(next.revision).len() > 0,
{
    crate::gpu_recovery_journal::law_acknowledgement_splits_the_records(
        timeline.journal,
        next.revision,
    );
}

} // verus!
