//! The commands that rebuild everything since the last mirrored revision.

use crate::document::DocumentRevision;
use crate::shared::share;
use std::sync::Arc;
use vstd::prelude::*;

verus! {

pub const DEFAULT_GPU_RECOVERY_JOURNAL_BYTES: u64 = 64 * 1024 * 1024;

pub const DEFAULT_GPU_RECOVERY_JOURNAL_ENTRIES: usize = 4096;

#[derive(Clone, Copy, Debug, PartialEq, Eq, Structural)]
#[allow(inconsistent_fields)]
pub enum GpuRecoveryJournalError {
    InvalidEntryLimit,
    InvalidByteLimit,
    RevisionExhausted,
    NonConsecutiveRevision { latest: DocumentRevision, requested: DocumentRevision },
    EmptyCommand,
    EntryLimitExhausted { resident: usize, maximum: usize },
    CommandExceedsByteLimit { requested: u64, maximum: u64 },
    ByteLimitExhausted { resident: u64, requested: u64, maximum: u64 },
    ByteCountOverflow,
    MirrorRevisionRegressed { mirrored: DocumentRevision, requested: DocumentRevision },
    MirrorRevisionAhead { latest: DocumentRevision, requested: DocumentRevision },
    UnknownMirrorRevision(DocumentRevision),
}

/// One command and the revision that it leads to.
#[derive(Debug)]
pub struct GpuRecoveryRecord<C> {
    pub(crate) revision: DocumentRevision,
    pub(crate) byte_len: u64,
    pub(crate) command: Arc<C>,
}

pub struct RecordModel<C> {
    pub revision: DocumentRevision,
    pub byte_len: u64,
    pub command: C,
}

impl<C> View for GpuRecoveryRecord<C> {
    type V = RecordModel<C>;

    open(crate) spec fn view(&self) -> RecordModel<C> {
        RecordModel { revision: self.revision, byte_len: self.byte_len, command: *self.command }
    }
}

impl<C> Clone for GpuRecoveryRecord<C> {
    fn clone(&self) -> (copy: Self)
        ensures
            copy@ == self@,
    {
        GpuRecoveryRecord {
            revision: self.revision,
            byte_len: self.byte_len,
            command: share(&self.command),
        }
    }
}

impl<C> GpuRecoveryRecord<C> {
    pub fn revision(&self) -> (revision: DocumentRevision)
        ensures
            revision == self@.revision,
    {
        self.revision
    }

    pub fn byte_len(&self) -> (len: u64)
        ensures
            len == self@.byte_len,
    {
        self.byte_len
    }

    pub fn command(&self) -> (command: &C)
        ensures
            *command == self@.command,
    {
        &self.command
    }

    pub fn shared_command(&self) -> (command: Arc<C>)
        ensures
            *command == self@.command,
    {
        share(&self.command)
    }
}

pub open(crate) spec fn record_models<C>(records: Seq<GpuRecoveryRecord<C>>) -> Seq<RecordModel<C>> {
    Seq::new(records.len(), |i: int| records[i]@)
}

fn copy_records<C>(records: &Vec<GpuRecoveryRecord<C>>) -> (copy: Vec<GpuRecoveryRecord<C>>)
    ensures
        record_models(copy@) == record_models(records@),
{
    let mut copy: Vec<GpuRecoveryRecord<C>> = Vec::new();
    let mut i: usize = 0;
    while i < records.len()
        invariant
            i <= records@.len(),
            copy@.len() == i,
            forall|j: int| 0 <= j < i ==> (#[trigger] copy@[j])@ == records@[j]@,
        decreases records@.len() - i,
    {
        copy.push(records[i].clone());
        i += 1;
    }
    assert(record_models(copy@) =~= record_models(records@));
    copy
}

/// The bytes that records declare together.
pub open spec fn record_bytes<C>(records: Seq<RecordModel<C>>) -> int
    decreases records.len(),
{
    if records.len() == 0 {
        0
    } else {
        record_bytes(records.drop_last()) + records.last().byte_len
    }
}

pub proof fn lemma_record_bytes_split<C>(records: Seq<RecordModel<C>>, at: int)
    requires
        0 <= at <= records.len(),
    ensures
        record_bytes(records) == record_bytes(records.subrange(0, at)) + record_bytes(
            records.subrange(at, records.len() as int),
        ),
        0 <= record_bytes(records.subrange(0, at)),
        0 <= record_bytes(records.subrange(at, records.len() as int)),
    decreases records.len(),
{
    let head = records.subrange(0, at);
    let tail = records.subrange(at, records.len() as int);
    if at == records.len() {
        assert(head =~= records);
        assert(tail =~= Seq::<RecordModel<C>>::empty());
        if at > 0 {
            lemma_record_bytes_split(records.drop_last(), at - 1);
            assert(records.drop_last().subrange(0, at - 1) =~= records.drop_last());
        }
    } else {
        let rest = records.drop_last();
        lemma_record_bytes_split(rest, at);
        assert(rest.subrange(0, at) =~= head);
        assert(rest.subrange(at, rest.len() as int) =~= tail.drop_last());
        assert(tail.last() == records.last());
    }
}

pub struct JournalModel<C> {
    pub mirrored: DocumentRevision,
    pub latest: DocumentRevision,
    pub records: Seq<RecordModel<C>>,
    pub max_bytes: u64,
    pub max_entries: usize,
}

impl<C> JournalModel<C> {
    /// Each revision after the mirrored one has exactly one record, the records
    /// stand in order, and their number and their bytes stay within the limits.
    pub open spec fn valid(self) -> bool {
        &&& self.max_bytes > 0
        &&& self.max_entries > 0
        &&& forall|i: int|
            #![trigger self.records[i]]
            0 <= i < self.records.len() ==> self.records[i].revision.0 == self.mirrored.0 + 1 + i
                && self.records[i].byte_len > 0
        &&& self.latest.0 == self.mirrored.0 + self.records.len()
        &&& self.records.len() <= self.max_entries
        &&& record_bytes(self.records) <= self.max_bytes
    }

    /// Why a command is not recorded, if it is not.
    pub open spec fn record_error(self, revision: DocumentRevision, byte_len: u64) -> Option<
        GpuRecoveryJournalError,
    > {
        if self.latest.0 == u64::MAX {
            Some(GpuRecoveryJournalError::RevisionExhausted)
        } else if revision.0 != self.latest.0 + 1 {
            Some(
                GpuRecoveryJournalError::NonConsecutiveRevision {
                    latest: self.latest,
                    requested: revision,
                },
            )
        } else if byte_len == 0 {
            Some(GpuRecoveryJournalError::EmptyCommand)
        } else if self.records.len() == self.max_entries {
            Some(
                GpuRecoveryJournalError::EntryLimitExhausted {
                    resident: self.max_entries,
                    maximum: self.max_entries,
                },
            )
        } else if byte_len > self.max_bytes {
            Some(
                GpuRecoveryJournalError::CommandExceedsByteLimit {
                    requested: byte_len,
                    maximum: self.max_bytes,
                },
            )
        } else if record_bytes(self.records) + byte_len > u64::MAX {
            Some(GpuRecoveryJournalError::ByteCountOverflow)
        } else if record_bytes(self.records) + byte_len > self.max_bytes {
            Some(
                GpuRecoveryJournalError::ByteLimitExhausted {
                    resident: record_bytes(self.records) as u64,
                    requested: byte_len,
                    maximum: self.max_bytes,
                },
            )
        } else {
            None
        }
    }

    pub open spec fn with_record(
        self,
        revision: DocumentRevision,
        byte_len: u64,
        command: C,
    ) -> JournalModel<C> {
        JournalModel {
            latest: revision,
            records: self.records.push(RecordModel { revision, byte_len, command }),
            ..self
        }
    }

    /// Why a revision is not acknowledged, if it is not.
    pub open spec fn acknowledge_error(self, revision: DocumentRevision) -> Option<
        GpuRecoveryJournalError,
    > {
        if revision.0 < self.mirrored.0 {
            Some(
                GpuRecoveryJournalError::MirrorRevisionRegressed {
                    mirrored: self.mirrored,
                    requested: revision,
                },
            )
        } else if revision.0 > self.latest.0 {
            Some(
                GpuRecoveryJournalError::MirrorRevisionAhead {
                    latest: self.latest,
                    requested: revision,
                },
            )
        } else {
            None
        }
    }

    /// The records up to `revision`.
    pub open spec fn retired(self, revision: DocumentRevision) -> Seq<RecordModel<C>> {
        self.records.subrange(0, revision.0 - self.mirrored.0)
    }

    pub open spec fn acknowledged(self, revision: DocumentRevision) -> JournalModel<C> {
        JournalModel {
            mirrored: revision,
            records: self.records.subrange(
                revision.0 - self.mirrored.0,
                self.records.len() as int,
            ),
            ..self
        }
    }

    pub open spec fn preview(self, revision: DocumentRevision) -> GpuRecoveryRetirementPreview {
        GpuRecoveryRetirementPreview {
            previous_revision: self.mirrored,
            mirrored_revision: revision,
            retired_bytes: record_bytes(self.retired(revision)) as u64,
            record_count: (revision.0 - self.mirrored.0) as usize,
        }
    }
}

/// What an acknowledgement would retire.
#[derive(Clone, Copy, Debug, PartialEq, Eq, Structural)]
pub struct GpuRecoveryRetirementPreview {
    pub previous_revision: DocumentRevision,
    pub mirrored_revision: DocumentRevision,
    pub retired_bytes: u64,
    pub record_count: usize,
}

/// What an acknowledgement has retired.
#[derive(Debug)]
pub struct GpuRecoveryRetirement<C> {
    pub previous_revision: DocumentRevision,
    pub mirrored_revision: DocumentRevision,
    pub retired_bytes: u64,
    pub records: Vec<GpuRecoveryRecord<C>>,
}

/// A command that was not recorded, and why.
#[derive(Debug)]
pub struct GpuRecoveryRecordFailure<C> {
    pub error: GpuRecoveryJournalError,
    pub command: C,
}

/// A bounded list of commands, one for each revision since the mirrored one.
#[derive(Debug)]
pub struct GpuRecoveryJournal<C> {
    pub(crate) mirrored_revision: DocumentRevision,
    pub(crate) latest_revision: DocumentRevision,
    pub(crate) entries: Vec<GpuRecoveryRecord<C>>,
    pub(crate) resident_bytes: u64,
    pub(crate) max_bytes: u64,
    pub(crate) max_entries: usize,
}

impl<C> View for GpuRecoveryJournal<C> {
    type V = JournalModel<C>;

    open(crate) spec fn view(&self) -> JournalModel<C> {
        JournalModel {
            mirrored: self.mirrored_revision,
            latest: self.latest_revision,
            records: record_models(self.entries@),
            max_bytes: self.max_bytes,
            max_entries: self.max_entries,
        }
    }
}

impl<C> GpuRecoveryJournal<C> {
    pub open(crate) spec fn wf(self) -> bool {
        &&& self@.valid()
        &&& self.resident_bytes == record_bytes(self@.records)
    }

    pub fn new(initial_revision: DocumentRevision, max_entries: usize, max_bytes: u64) -> (journal:
        Result<GpuRecoveryJournal<C>, GpuRecoveryJournalError>)
        ensures
            match journal {
                Ok(journal) => {
                    &&& max_entries > 0
                    &&& max_bytes > 0
                    &&& journal.wf()
                    &&& journal@ == (JournalModel::<C> {
                        mirrored: initial_revision,
                        latest: initial_revision,
                        records: Seq::empty(),
                        max_bytes,
                        max_entries,
                    })
                },
                Err(GpuRecoveryJournalError::InvalidEntryLimit) => max_entries == 0,
                Err(GpuRecoveryJournalError::InvalidByteLimit) => max_entries > 0 && max_bytes == 0,
                Err(_) => false,
            },
    {
        if max_entries == 0 {
            return Err(GpuRecoveryJournalError::InvalidEntryLimit);
        }
        if max_bytes == 0 {
            return Err(GpuRecoveryJournalError::InvalidByteLimit);
        }
        let journal = GpuRecoveryJournal {
            mirrored_revision: initial_revision,
            latest_revision: initial_revision,
            entries: Vec::new(),
            resident_bytes: 0,
            max_bytes,
            max_entries,
        };
        assert(journal@.records =~= Seq::<RecordModel<C>>::empty());
        Ok(journal)
    }

    /// Appends the command that leads to the next revision. A command that is not
    /// taken comes back unchanged.
    pub fn record(&mut self, revision: DocumentRevision, byte_len: u64, command: C) -> (recorded:
        Result<(), Box<GpuRecoveryRecordFailure<C>>>)
        requires
            old(self).wf(),
        ensures
            final(self).wf(),
            match recorded {
                Ok(_) => {
                    &&& old(self)@.record_error(revision, byte_len) is None
                    &&& final(self)@ == old(self)@.with_record(revision, byte_len, command)
                },
                Err(failure) => {
                    &&& old(self)@.record_error(revision, byte_len) == Some(failure.error)
                    &&& failure.command == command
                    &&& *final(self) == *old(self)
                },
            },
    {
        match self.check_record(revision, byte_len) {
            Ok(_) => {},
            Err(error) => {
                return Err(Box::new(GpuRecoveryRecordFailure { error, command }));
            },
        }
        let ghost before = self@;
        self.entries.push(GpuRecoveryRecord { revision, byte_len, command: Arc::new(command) });
        self.resident_bytes = self.resident_bytes + byte_len;
        self.latest_revision = revision;
        proof {
            let after = before.with_record(revision, byte_len, command);
            assert(self@.records =~= after.records);
            assert(after.records.drop_last() =~= before.records);
            assert forall|i: int|
                #![trigger self@.records[i]]
                0 <= i < self@.records.len() implies self@.records[i].revision.0
                == self@.mirrored.0 + 1 + i && self@.records[i].byte_len > 0 by {
                if i < before.records.len() {
                    assert(self@.records[i] == before.records[i]);
                }
            }
        }
        Ok(())
    }

    pub fn check_record(&self, revision: DocumentRevision, byte_len: u64) -> (checked: Result<
        (),
        GpuRecoveryJournalError,
    >)
        requires
            self.wf(),
        ensures
            match checked {
                Ok(_) => self@.record_error(revision, byte_len) is None,
                Err(error) => self@.record_error(revision, byte_len) == Some(error),
            },
    {
        let expected = match self.latest_revision.get().checked_add(1) {
            Some(expected) => expected,
            None => {
                return Err(GpuRecoveryJournalError::RevisionExhausted);
            },
        };
        if revision.get() != expected {
            return Err(
                GpuRecoveryJournalError::NonConsecutiveRevision {
                    latest: self.latest_revision,
                    requested: revision,
                },
            );
        }
        if byte_len == 0 {
            return Err(GpuRecoveryJournalError::EmptyCommand);
        }
        if self.entries.len() == self.max_entries {
            return Err(
                GpuRecoveryJournalError::EntryLimitExhausted {
                    resident: self.entries.len(),
                    maximum: self.max_entries,
                },
            );
        }
        if byte_len > self.max_bytes {
            return Err(
                GpuRecoveryJournalError::CommandExceedsByteLimit {
                    requested: byte_len,
                    maximum: self.max_bytes,
                },
            );
        }
        let combined = match self.resident_bytes.checked_add(byte_len) {
            Some(combined) => combined,
            None => {
                return Err(GpuRecoveryJournalError::ByteCountOverflow);
            },
        };
        if combined > self.max_bytes {
            return Err(
                GpuRecoveryJournalError::ByteLimitExhausted {
                    resident: self.resident_bytes,
                    requested: byte_len,
                    maximum: self.max_bytes,
                },
            );
        }
        Ok(())
    }

    /// Retires the commands up to a revision that the mirror now holds.
    pub fn acknowledge_mirrored(&mut self, revision: DocumentRevision) -> (retirement: Result<
        GpuRecoveryRetirement<C>,
        GpuRecoveryJournalError,
    >)
        requires
            old(self).wf(),
        ensures
            final(self).wf(),
            match retirement {
                Ok(retirement) => {
                    &&& old(self)@.acknowledge_error(revision) is None
                    &&& final(self)@ == old(self)@.acknowledged(revision)
                    &&& retirement.previous_revision == old(self)@.mirrored
                    &&& retirement.mirrored_revision == revision
                    &&& retirement.retired_bytes == record_bytes(old(self)@.retired(revision))
                    &&& record_models(retirement.records@) == old(self)@.retired(revision)
                },
                Err(error) => old(self)@.acknowledge_error(revision) == Some(error)
                    && *final(self) == *old(self),
            },
    {
        let preview = match self.check_acknowledge_mirrored(revision) {
            Ok(preview) => preview,
            Err(error) => {
                return Err(error);
            },
        };
        let ghost before = self@;
        let ghost count = revision.0 - before.mirrored.0;
        let mut records = self.entries.split_off(preview.record_count);
        std::mem::swap(&mut self.entries, &mut records);
        self.resident_bytes = self.resident_bytes - preview.retired_bytes;
        self.mirrored_revision = revision;
        proof {
            lemma_record_bytes_split(before.records, count);
            assert(record_models(records@) =~= before.retired(revision));
            assert(self@.records =~= before.acknowledged(revision).records);
            assert forall|i: int|
                #![trigger self@.records[i]]
                0 <= i < self@.records.len() implies self@.records[i].revision.0
                == self@.mirrored.0 + 1 + i && self@.records[i].byte_len > 0 by {
                assert(self@.records[i] == before.records[i + count]);
            }
        }
        Ok(
            GpuRecoveryRetirement {
                previous_revision: preview.previous_revision,
                mirrored_revision: preview.mirrored_revision,
                retired_bytes: preview.retired_bytes,
                records,
            },
        )
    }

    /// What an acknowledgement of `revision` would retire.
    pub fn check_acknowledge_mirrored(&self, revision: DocumentRevision) -> (preview: Result<
        GpuRecoveryRetirementPreview,
        GpuRecoveryJournalError,
    >)
        requires
            self.wf(),
        ensures
            match preview {
                Ok(preview) => {
                    &&& self@.acknowledge_error(revision) is None
                    &&& preview == self@.preview(revision)
                    &&& preview.retired_bytes == record_bytes(self@.retired(revision))
                    &&& preview.retired_bytes <= record_bytes(self@.records)
                    &&& preview.record_count == revision.0 - self@.mirrored.0
                },
                Err(error) => self@.acknowledge_error(revision) == Some(error),
            },
    {
        if revision.get() < self.mirrored_revision.get() {
            return Err(
                GpuRecoveryJournalError::MirrorRevisionRegressed {
                    mirrored: self.mirrored_revision,
                    requested: revision,
                },
            );
        }
        if revision.get() > self.latest_revision.get() {
            return Err(
                GpuRecoveryJournalError::MirrorRevisionAhead {
                    latest: self.latest_revision,
                    requested: revision,
                },
            );
        }
        let ghost models = self@.records;
        let len: usize = self.entries.len();
        let mut count: usize = 0;
        let mut retired_bytes: u64 = 0;
        assert(models.subrange(0, 0) =~= Seq::<RecordModel<C>>::empty());
        while count < self.entries.len() && self.entries[count].revision.get() <= revision.get()
            invariant
                self.wf(),
                models == self@.records,
                len == self.entries@.len(),
                count <= len,
                self.mirrored_revision.0 <= revision.0 <= self.latest_revision.0,
                self.mirrored_revision.0 + count <= revision.0,
                retired_bytes == record_bytes(models.subrange(0, count as int)),
            decreases len - count,
        {
            proof {
                let prefix = models.subrange(0, count as int + 1);
                assert(prefix.drop_last() =~= models.subrange(0, count as int));
                assert(prefix.last() == models[count as int]);
                assert(models[count as int] == self.entries@[count as int]@);
                lemma_record_bytes_split(models, count as int + 1);
            }
            retired_bytes = retired_bytes + self.entries[count].byte_len;
            count += 1;
        }
        proof {
            if count < len {
                assert(models[count as int] == self.entries@[count as int]@);
            }
            assert(count == revision.0 - self.mirrored_revision.0);
            lemma_record_bytes_split(models, count as int);
        }
        Ok(
            GpuRecoveryRetirementPreview {
                previous_revision: self.mirrored_revision,
                mirrored_revision: revision,
                retired_bytes,
                record_count: count,
            },
        )
    }

    /// The commands as they are now. Later changes of the journal do not reach it.
    pub fn snapshot(&self) -> (snapshot: GpuRecoveryJournalSnapshot<C>)
        requires
            self.wf(),
        ensures
            snapshot.wf(),
            snapshot@ == (JournalSnapshotModel {
                base: self@.mirrored,
                target: self@.latest,
                records: self@.records,
            }),
    {
        GpuRecoveryJournalSnapshot {
            base_revision: self.mirrored_revision,
            target_revision: self.latest_revision,
            records: copy_records(&self.entries),
            byte_len: self.resident_bytes,
        }
    }

    pub fn records(&self) -> (records: &Vec<GpuRecoveryRecord<C>>)
        ensures
            record_models(records@) == self@.records,
    {
        &self.entries
    }

    pub fn mirrored_revision(&self) -> (revision: DocumentRevision)
        ensures
            revision == self@.mirrored,
    {
        self.mirrored_revision
    }

    pub fn latest_revision(&self) -> (revision: DocumentRevision)
        ensures
            revision == self@.latest,
    {
        self.latest_revision
    }

    pub fn len(&self) -> (len: usize)
        ensures
            len == self@.records.len(),
    {
        self.entries.len()
    }

    pub fn is_empty(&self) -> (empty: bool)
        ensures
            empty == (self@.records.len() == 0),
    {
        self.entries.len() == 0
    }

    pub fn is_current(&self) -> (current: bool)
        ensures
            current == (self@.mirrored == self@.latest),
    {
        self.mirrored_revision.get() == self.latest_revision.get()
    }

    pub fn resident_bytes(&self) -> (bytes: u64)
        requires
            self.wf(),
        ensures
            bytes == record_bytes(self@.records),
    {
        self.resident_bytes
    }

    pub fn max_bytes(&self) -> (bytes: u64)
        ensures
            bytes == self@.max_bytes,
    {
        self.max_bytes
    }

    pub fn max_entries(&self) -> (entries: usize)
        ensures
            entries == self@.max_entries,
    {
        self.max_entries
    }
}

impl<C> Default for GpuRecoveryJournal<C> {
    fn default() -> (journal: Self)
        ensures
            journal.wf(),
            journal@ == (JournalModel::<C> {
                mirrored: DocumentRevision(0),
                latest: DocumentRevision(0),
                records: Seq::empty(),
                max_bytes: DEFAULT_GPU_RECOVERY_JOURNAL_BYTES,
                max_entries: DEFAULT_GPU_RECOVERY_JOURNAL_ENTRIES,
            }),
    {
        let journal = GpuRecoveryJournal {
            mirrored_revision: DocumentRevision::initial(),
            latest_revision: DocumentRevision::initial(),
            entries: Vec::new(),
            resident_bytes: 0,
            max_bytes: DEFAULT_GPU_RECOVERY_JOURNAL_BYTES,
            max_entries: DEFAULT_GPU_RECOVERY_JOURNAL_ENTRIES,
        };
        assert(journal@.records =~= Seq::<RecordModel<C>>::empty());
        journal
    }
}

/// The commands of a journal at one moment.
#[derive(Debug)]
pub struct GpuRecoveryJournalSnapshot<C> {
    pub(crate) base_revision: DocumentRevision,
    pub(crate) target_revision: DocumentRevision,
    pub(crate) records: Vec<GpuRecoveryRecord<C>>,
    pub(crate) byte_len: u64,
}

pub struct JournalSnapshotModel<C> {
    pub base: DocumentRevision,
    pub target: DocumentRevision,
    pub records: Seq<RecordModel<C>>,
}

impl<C> View for GpuRecoveryJournalSnapshot<C> {
    type V = JournalSnapshotModel<C>;

    open(crate) spec fn view(&self) -> JournalSnapshotModel<C> {
        JournalSnapshotModel {
            base: self.base_revision,
            target: self.target_revision,
            records: record_models(self.records@),
        }
    }
}

impl<C> Clone for GpuRecoveryJournalSnapshot<C> {
    fn clone(&self) -> (copy: Self)
        ensures
            copy@ == self@,
            self.wf() ==> copy.wf(),
    {
        GpuRecoveryJournalSnapshot {
            base_revision: self.base_revision,
            target_revision: self.target_revision,
            records: copy_records(&self.records),
            byte_len: self.byte_len,
        }
    }
}

impl<C> GpuRecoveryJournalSnapshot<C> {
    /// One record for each revision after the base, in order.
    pub open(crate) spec fn wf(self) -> bool {
        &&& self.byte_len == record_bytes(self@.records)
        &&& self@.target.0 == self@.base.0 + self@.records.len()
        &&& forall|i: int|
            #![trigger self@.records[i]]
            0 <= i < self@.records.len() ==> self@.records[i].revision.0 == self@.base.0 + 1 + i
    }

    pub fn base_revision(&self) -> (revision: DocumentRevision)
        ensures
            revision == self@.base,
    {
        self.base_revision
    }

    pub fn target_revision(&self) -> (revision: DocumentRevision)
        ensures
            revision == self@.target,
    {
        self.target_revision
    }

    pub fn records(&self) -> (records: &Vec<GpuRecoveryRecord<C>>)
        ensures
            record_models(records@) == self@.records,
    {
        &self.records
    }

    pub fn byte_len(&self) -> (len: u64)
        requires
            self.wf(),
        ensures
            len == record_bytes(self@.records),
    {
        self.byte_len
    }

    pub fn is_current(&self) -> (current: bool)
        ensures
            current == (self@.base == self@.target),
    {
        self.base_revision.get() == self.target_revision.get()
    }
}

/// Retiring up to one revision and then up to a later one retires the same
/// records, in the same order, as retiring up to the later one at once.
pub proof fn law_retirement_composes<C>(
    journal: JournalModel<C>,
    first: DocumentRevision,
    second: DocumentRevision,
)
    requires
        journal.valid(),
        journal.acknowledge_error(first) is None,
        journal.acknowledged(first).acknowledge_error(second) is None,
    ensures
        journal.acknowledge_error(second) is None,
        journal.acknowledged(first).acknowledged(second) == journal.acknowledged(second),
        journal.retired(first) + journal.acknowledged(first).retired(second) == journal.retired(
            second,
        ),
{
    let middle = journal.acknowledged(first);
    assert(middle.acknowledged(second).records =~= journal.acknowledged(second).records);
    assert(journal.retired(first) + middle.retired(second) =~= journal.retired(second));
}

/// Recording and acknowledging keep a journal valid, and no record is lost: what
/// was retired and what is left are what there was.
pub proof fn law_acknowledgement_splits_the_records<C>(
    journal: JournalModel<C>,
    revision: DocumentRevision,
)
    requires
        journal.valid(),
        journal.acknowledge_error(revision) is None,
    ensures
        journal.acknowledged(revision).valid(),
        journal.retired(revision) + journal.acknowledged(revision).records == journal.records,
        record_bytes(journal.retired(revision)) + record_bytes(
            journal.acknowledged(revision).records,
        ) == record_bytes(journal.records),
{
    let count = revision.0 - journal.mirrored.0;
    lemma_record_bytes_split(journal.records, count);
    let after = journal.acknowledged(revision);
    assert(journal.retired(revision) + after.records =~= journal.records);
    assert forall|i: int|
        #![trigger after.records[i]]
        0 <= i < after.records.len() implies after.records[i].revision.0 == after.mirrored.0 + 1 + i
        && after.records[i].byte_len > 0 by {
        assert(after.records[i] == journal.records[i + count]);
    }
}

/// A record that was accepted is retired once its revision is acknowledged, last
/// of all and with nothing left behind it.
pub proof fn law_recorded_command_is_retired_last<C>(
    journal: JournalModel<C>,
    revision: DocumentRevision,
    byte_len: u64,
    command: C,
)
    requires
        journal.valid(),
        journal.record_error(revision, byte_len) is None,
    ensures
        ({
            let after = journal.with_record(revision, byte_len, command);
            &&& after.valid()
            &&& after.acknowledge_error(revision) is None
            &&& after.retired(revision) == after.records
            &&& after.retired(revision).last().command == command
            &&& after.acknowledged(revision).records.len() == 0
        }),
{
    let after = journal.with_record(revision, byte_len, command);
    assert(after.records.drop_last() =~= journal.records);
    assert(after.retired(revision) =~= after.records);
    assert forall|i: int|
        #![trigger after.records[i]]
        0 <= i < after.records.len() implies after.records[i].revision.0 == after.mirrored.0 + 1 + i
        && after.records[i].byte_len > 0 by {
        if i < journal.records.len() {
            assert(after.records[i] == journal.records[i]);
        }
    }
}

/// A journal holds one command for each revision that the mirror has not reached, in order and
/// within its limits: none is missing, so that a replay ends at the latest revision.
pub proof fn law_journal_reaches_the_latest_revision<C>(journal: &GpuRecoveryJournal<C>)
    requires
        journal.wf(),
    ensures
        journal@.latest.0 == journal@.mirrored.0 + journal@.records.len(),
        forall|i: int|
            #![trigger journal@.records[i]]
            0 <= i < journal@.records.len() ==> journal@.records[i].revision.0
                == journal@.mirrored.0 + 1 + i,
        journal@.records.len() <= journal@.max_entries,
        record_bytes(journal@.records) <= journal@.max_bytes,
{
}

} // verus!
