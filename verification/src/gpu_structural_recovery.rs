//! Recovery of revisions that change whole layers, or nothing but metadata.

use crate::document::DocumentRevision;
use crate::gpu_cpu_mirror::{GpuCpuMirrorSnapshot, MirrorModel};
use crate::gpu_document_history::GpuHistoryId;
use crate::gpu_history_recovery::{spill_bytes, spill_models, GpuHistoryRecoveryEntry};
use crate::gpu_live_recovery::{copy_ids, GpuLiveRecovery, GpuLiveRecoveryError, LiveModel};
use crate::gpu_recovery_replay::{command_byte_len, GpuRasterRecoveryCommand};
use crate::gpu_recovery_timeline::TimelineModel;
use vstd::prelude::*;

verus! {

/// A revision without history pixels that is ready to be recorded.
#[derive(Debug)]
pub struct PreparedGpuStructuralRecoveryRecord {
    pub(crate) evicted_ids: Vec<GpuHistoryId>,
    pub(crate) source_revision: DocumentRevision,
    pub(crate) revision: DocumentRevision,
    pub(crate) byte_len: u64,
    pub(crate) command: GpuRasterRecoveryCommand,
}

pub struct PreparedStructuralModel {
    pub evicted_ids: Seq<GpuHistoryId>,
    pub source_revision: DocumentRevision,
    pub revision: DocumentRevision,
    pub byte_len: u64,
    pub command: GpuRasterRecoveryCommand,
}

impl View for PreparedGpuStructuralRecoveryRecord {
    type V = PreparedStructuralModel;

    open(crate) spec fn view(&self) -> PreparedStructuralModel {
        PreparedStructuralModel {
            evicted_ids: self.evicted_ids@,
            source_revision: self.source_revision,
            revision: self.revision,
            byte_len: self.byte_len,
            command: self.command,
        }
    }
}

impl PreparedGpuStructuralRecoveryRecord {
    pub open(crate) spec fn wf(self) -> bool {
        self.command.wf()
    }
}

#[derive(Debug)]
pub struct GpuStructuralRecoveryCommit {
    pub revision: DocumentRevision,
    pub evicted_spills: Vec<GpuHistoryRecoveryEntry>,
    pub freed_spill_bytes: u64,
}

impl LiveModel {
    /// Why such a revision is not recorded, if it is not.
    pub open spec fn structural_error(self, revision: DocumentRevision, byte_len: u64) -> Option<
        GpuLiveRecoveryError,
    > {
        match self.timeline.journal.record_error(revision, byte_len) {
            Some(error) => Some(GpuLiveRecoveryError::Journal(error)),
            None => None,
        }
    }

    /// Why such a revision is not recorded after it was prepared, if it is not.
    pub open spec fn structural_commit_error(self, prepared: PreparedStructuralModel) -> Option<
        GpuLiveRecoveryError,
    > {
        if self.revision() != prepared.source_revision {
            Some(
                GpuLiveRecoveryError::PreparedSourceChanged {
                    prepared: prepared.source_revision,
                    actual: self.revision(),
                },
            )
        } else {
            self.structural_error(prepared.revision, prepared.byte_len)
        }
    }

    pub open spec fn with_structural(self, prepared: PreparedStructuralModel) -> LiveModel {
        LiveModel {
            timeline: TimelineModel {
                journal: self.timeline.journal.with_record(
                    prepared.revision,
                    prepared.byte_len,
                    prepared.command,
                ),
                ..self.timeline
            },
            spills: self.spills.without_all(prepared.evicted_ids),
        }
    }

    /// Whether some revision after the base, up to this one, still waits for its pixels.
    pub open spec fn waits_before(self, revision: DocumentRevision) -> bool {
        exists|at: u64|
            self.timeline.base.revision.0 < at <= revision.0 && #[trigger] self.waiting(
                DocumentRevision(at),
            ) is Some
    }

    /// The mirror becomes the base if it is newer and no history entry would lose
    /// the pixels that it waits for.
    pub open spec fn base_advanced(self, snapshot: MirrorModel) -> LiveModel {
        if self.timeline.advance_error(snapshot) is None && !self.waits_before(snapshot.revision) {
            LiveModel { timeline: self.timeline.advanced(snapshot), ..self }
        } else {
            self
        }
    }
}

impl GpuLiveRecovery {
    /// Makes sure that a revision without history pixels can be recorded. Nothing
    /// changes yet.
    pub fn prepare_structural_history_record(
        &self,
        evicted_ids: &Vec<GpuHistoryId>,
        revision: DocumentRevision,
        command: GpuRasterRecoveryCommand,
    ) -> (prepared: Result<PreparedGpuStructuralRecoveryRecord, GpuLiveRecoveryError>)
        requires
            self.wf(),
            command.wf(),
        ensures
            ({
                let byte_len = command_byte_len(command) as u64;
                let error = self@.structural_error(revision, byte_len);
                match prepared {
                    Ok(prepared) => {
                        &&& error is None
                        &&& prepared.wf()
                        &&& prepared@ == (PreparedStructuralModel {
                            evicted_ids: evicted_ids@,
                            source_revision: self@.revision(),
                            revision,
                            byte_len,
                            command,
                        })
                    },
                    Err(found) => error == Some(found),
                }
            }),
    {
        let byte_len: u64 = command.retained_byte_len();
        match self.timeline.check_record(revision, byte_len) {
            Ok(_) => {},
            Err(error) => {
                return Err(GpuLiveRecoveryError::Journal(error));
            },
        }
        Ok(
            PreparedGpuStructuralRecoveryRecord {
                evicted_ids: copy_ids(evicted_ids),
                source_revision: self.timeline.target_revision(),
                revision,
                byte_len,
                command,
            },
        )
    }

    /// Records a prepared revision, and gives up the spills of evicted history entries.
    pub fn commit_structural_history_record(
        &mut self,
        prepared: PreparedGpuStructuralRecoveryRecord,
    ) -> (commit: Result<GpuStructuralRecoveryCommit, GpuLiveRecoveryError>)
        requires
            old(self).wf(),
            prepared.wf(),
        ensures
            final(self).wf(),
            match commit {
                Ok(commit) => {
                    &&& old(self)@.structural_commit_error(prepared@) is None
                    &&& final(self)@ == old(self)@.with_structural(prepared@)
                    &&& commit.revision == prepared@.revision
                    &&& spill_models(commit.evicted_spills@) == old(self)@.spills.evicted(
                        prepared@.evicted_ids,
                    )
                    &&& commit.freed_spill_bytes == spill_bytes(old(self)@.spills.entries)
                        - spill_bytes(final(self)@.spills.entries)
                },
                Err(error) => old(self)@.structural_commit_error(prepared@) == Some(error)
                    && final(self)@ == old(self)@,
            },
    {
        let actual = self.timeline.target_revision();
        if actual.0 != prepared.source_revision.0 {
            return Err(
                GpuLiveRecoveryError::PreparedSourceChanged {
                    prepared: prepared.source_revision,
                    actual,
                },
            );
        }
        let PreparedGpuStructuralRecoveryRecord {
            evicted_ids,
            source_revision,
            revision,
            byte_len,
            command,
        } = prepared;
        match self.timeline.record(revision, byte_len, command) {
            Ok(_) => {},
            Err(failure) => {
                return Err(GpuLiveRecoveryError::Journal(failure.error));
            },
        }
        proof {
            let before = old(self)@.timeline.journal.records;
            let after = self@.timeline.journal.records;
            assert forall|i: int|
                #![trigger after[i]]
                0 <= i < after.len() implies after[i].command.wf() by {
                if i < before.len() {
                    assert(after[i] == before[i]);
                }
            }
        }
        let replacement = self.spills.remove_all(&evicted_ids);
        Ok(
            GpuStructuralRecoveryCommit {
                revision,
                evicted_spills: replacement.evicted,
                freed_spill_bytes: replacement.freed_bytes,
            },
        )
    }

    /// Makes the mirror the base if no history entry would lose its pixels by that.
    pub fn advance_structural_mirror(&mut self, snapshot: GpuCpuMirrorSnapshot)
        requires
            old(self).wf(),
            snapshot.wf(),
        ensures
            final(self).wf(),
            final(self)@ == old(self)@.base_advanced(snapshot@),
    {
        let ghost before = self@;
        if self.timeline.check_advance_base(&snapshot).is_err() {
            return ;
        }
        let last: u64 = snapshot.revision().0;
        let first: u64 = self.timeline.base_revision().0;
        let mut at: u64 = first;
        while at < last
            invariant
                self.wf(),
                self@ == before,
                before == old(self)@,
                first == before.timeline.base.revision.0,
                last == snapshot@.revision.0,
                first <= at <= last,
                forall|earlier: u64|
                    first < earlier <= at ==> #[trigger] before.waiting(DocumentRevision(earlier))
                        is None,
            decreases last - at,
        {
            at = at + 1;
            if self.spills.id_for_revision(DocumentRevision(at)).is_some() {
                assert(before.waiting(DocumentRevision(at)) is Some);
                assert(before.waits_before(snapshot@.revision));
                return ;
            }
        }
        match self.timeline.advance_base(snapshot) {
            Ok(_) => {
                proof {
                    let records = before.timeline.journal.records;
                    let after = self@.timeline.journal.records;
                    let skipped = last - before.timeline.journal.mirrored.0;
                    assert forall|i: int|
                        #![trigger after[i]]
                        0 <= i < after.len() implies after[i].command.wf() by {
                        assert(after[i] == records[i + skipped]);
                    }
                }
            },
            Err(_) => {},
        }
    }
}

} // verus!
