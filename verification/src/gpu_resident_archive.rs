//! Keeping older history compressed, away from the device.

use crate::gpu_document_history::GpuHistoryId;
use crate::gpu_history_archive::{
    chosen, lists, still_owned, ArchiveCandidate, ArchiveModel, ArchiveResult, ArchiveStep,
    CandidateState, HistoryRoom, RoomStep, KEPT_EDITS,
};
use crate::gpu_history_recovery::{find_id, SpillsModel};
use crate::gpu_resident_document::{GpuResidentDocument, ResidentModel};
use vstd::prelude::*;

verus! {

/// What recovery has of an entry that could be compressed. `compressed` names the entries whose
/// pixels the store has.
pub open spec fn candidate_state(
    spills: SpillsModel,
    compressed: Seq<GpuHistoryId>,
    id: GpuHistoryId,
) -> CandidateState {
    match find_id(spills.keys(), id) {
        None => CandidateState::Unspilled,
        Some(i) => if spills.entries[i].transition is None {
            CandidateState::Unspilled
        } else if compressed.contains(id) {
            CandidateState::Archived
        } else {
            CandidateState::Ready
        },
    }
}

/// Whether recovery owns the entry.
pub open spec fn owns(spills: SpillsModel, id: GpuHistoryId) -> bool {
    find_id(spills.keys(), id) is Some
}

/// The names of the entries that recovery owns.
pub open spec fn owned_ids(spills: SpillsModel) -> Seq<GpuHistoryId> {
    Seq::new(spills.entries.len(), |i: int| spills.entries[i].id)
}

impl ResidentModel {
    /// What could be compressed, where the `keep` nearest edits on each side stay ready.
    pub open spec fn candidates(self, keep: int, compressed: Seq<GpuHistoryId>) -> Seq<
        ArchiveCandidate,
    > {
        let ids = self.history.archivable(keep);
        Seq::new(
            ids.len(),
            |i: int|
                ArchiveCandidate {
                    id: ids[i],
                    state: candidate_state(self.recovery.spills, compressed, ids[i]),
                },
        )
    }

    /// What is begun next.
    pub open spec fn next_archive_step(self, keep: int, compressed: Seq<GpuHistoryId>) -> ArchiveStep {
        if !self.archive.enabled || self.archive.job is Some {
            ArchiveStep::Idle
        } else {
            chosen(
                still_owned(self.archive.failed, owned_ids(self.recovery.spills)),
                self.candidates(keep, compressed),
            )
        }
    }

    /// The document once that has begun: an entry that is compressed already gives up its pixels.
    pub open spec fn archive_begun(self, keep: int, compressed: Seq<GpuHistoryId>) -> ResidentModel {
        if !self.archive.enabled || self.archive.job is Some {
            self
        } else {
            ResidentModel {
                archive: ArchiveModel {
                    failed: still_owned(self.archive.failed, owned_ids(self.recovery.spills)),
                    ..self.archive
                },
                history: match self.next_archive_step(keep, compressed) {
                    ArchiveStep::Settle(id) => self.history.archived(id),
                    _ => self.history,
                },
                ..self
            }
        }
    }
}

impl GpuResidentDocument {
    /// Lets older history be compressed.
    pub fn enable_history_archive(&mut self)
        requires
            old(self).wf(),
        ensures
            final(self).wf(),
            final(self)@ == (ResidentModel {
                archive: ArchiveModel { enabled: true, ..old(self)@.archive },
                ..old(self)@
            }),
    {
        self.archive.enable_history_archive();
    }

    /// Whether a compression runs.
    pub fn archive_busy(&self) -> (busy: bool)
        ensures
            busy == (self@.archive.job is Some),
    {
        self.archive.archive_busy()
    }

    fn list_owned(&self) -> (ids: Vec<GpuHistoryId>)
        requires
            self.wf(),
        ensures
            ids@ == owned_ids(self@.recovery.spills),
    {
        let entries = &self.recovery.spills.entries;
        let mut ids: Vec<GpuHistoryId> = Vec::new();
        let mut i: usize = 0;
        while i < entries.len()
            invariant
                entries@ == self.recovery.spills.entries@,
                i <= entries@.len(),
                ids@ == owned_ids(self@.recovery.spills).subrange(0, i as int),
                owned_ids(self@.recovery.spills).len() == entries@.len(),
            decreases entries@.len() - i,
        {
            ids.push(entries[i].id());
            assert(self@.recovery.spills.entries[i as int] == entries@[i as int]@);
            i += 1;
            assert(ids@ =~= owned_ids(self@.recovery.spills).subrange(0, i as int));
        }
        assert(ids@ =~= owned_ids(self@.recovery.spills));
        ids
    }

    fn state_of(&self, compressed: &Vec<GpuHistoryId>, id: GpuHistoryId) -> (state: CandidateState)
        requires
            self.wf(),
        ensures
            state == candidate_state(self@.recovery.spills, compressed@, id),
    {
        let ready = match self.recovery.spills.entry(id) {
            None => false,
            Some(entry) => entry.transition().is_some(),
        };
        if !ready {
            return CandidateState::Unspilled;
        }
        if lists(compressed, id) {
            return CandidateState::Archived;
        }
        CandidateState::Ready
    }

    fn list_candidates(&self, keep_recent: usize, compressed: &Vec<GpuHistoryId>) -> (candidates:
        Vec<ArchiveCandidate>)
        requires
            self.wf(),
        ensures
            candidates@ == self@.candidates(keep_recent as int, compressed@),
    {
        let ids = self.history.archive_candidates(keep_recent);
        let mut candidates: Vec<ArchiveCandidate> = Vec::new();
        let mut i: usize = 0;
        while i < ids.len()
            invariant
                self.wf(),
                ids@ == self@.history.archivable(keep_recent as int),
                i <= ids@.len(),
                candidates@ == self@.candidates(keep_recent as int, compressed@).subrange(
                    0,
                    i as int,
                ),
            decreases ids@.len() - i,
        {
            let id = ids[i];
            candidates.push(ArchiveCandidate { id, state: self.state_of(compressed, id) });
            i += 1;
            assert(candidates@ =~= self@.candidates(keep_recent as int, compressed@).subrange(
                0,
                i as int,
            ));
        }
        assert(candidates@ =~= self@.candidates(keep_recent as int, compressed@));
        candidates
    }

    /// Begins with the next entry that can be compressed, where none is being compressed. An entry
    /// that is compressed already gives up its pixels at once.
    pub fn start_archive(&mut self, keep_recent: usize, compressed: &Vec<GpuHistoryId>) -> (step:
        ArchiveStep)
        requires
            old(self).wf(),
        ensures
            final(self).wf(),
            step == old(self)@.next_archive_step(keep_recent as int, compressed@),
            final(self)@ == old(self)@.archive_begun(keep_recent as int, compressed@),
    {
        let ghost before = self@;
        let owned = self.list_owned();
        let candidates = self.list_candidates(keep_recent, compressed);
        let step = self.archive.start_archive(&owned, &candidates);
        match step {
            ArchiveStep::Settle(id) => {
                let settled = self.history.archive(id);
            },
            _ => {},
        }
        step
    }

    /// What to begin while there is no need for room: the nearest edits on each side stay ready.
    pub fn poll_history_archive(&mut self, compressed: &Vec<GpuHistoryId>) -> (step: ArchiveStep)
        requires
            old(self).wf(),
        ensures
            final(self).wf(),
            step == old(self)@.next_archive_step(KEPT_EDITS as int, compressed@),
            final(self)@ == old(self)@.archive_begun(KEPT_EDITS as int, compressed@),
    {
        self.start_archive(KEPT_EDITS, compressed)
    }

    /// Notes that the compression of an entry runs.
    pub fn compression_started(&mut self, id: GpuHistoryId)
        requires
            old(self).wf(),
            old(self)@.archive.job is None,
        ensures
            final(self).wf(),
            final(self)@ == (ResidentModel {
                archive: ArchiveModel { job: Some(id), ..old(self)@.archive },
                ..old(self)@
            }),
    {
        self.archive.compression_started(id);
    }

    /// Notes that the compression of an entry could not begin.
    pub fn compression_refused(&mut self, id: GpuHistoryId)
        requires
            old(self).wf(),
        ensures
            final(self).wf(),
            final(self)@ == (ResidentModel {
                archive: old(self)@.archive.failing(id),
                ..old(self)@
            }),
    {
        self.archive.compression_refused(id);
    }

    /// Ends the running compression. An entry that was compressed, and that recovery still owns,
    /// gives up the pixels that it has on the device, wherever in the history it stands by now; it
    /// is named, so that its compressed pixels are kept. An edit may have dropped it meanwhile.
    pub fn finish_archive(&mut self, compressed: bool) -> (kept: Option<GpuHistoryId>)
        requires
            old(self).wf(),
        ensures
            final(self).wf(),
            kept == (match old(self)@.archive.job {
                None => None,
                Some(id) => if compressed && owns(old(self)@.recovery.spills, id) {
                    Some(id)
                } else {
                    None
                },
            }),
            final(self)@ == (match old(self)@.archive.job {
                None => old(self)@,
                Some(id) => if compressed && owns(old(self)@.recovery.spills, id) {
                    ResidentModel {
                        archive: ArchiveModel { job: None, ..old(self)@.archive },
                        history: old(self)@.history.archived(id),
                        ..old(self)@
                    }
                } else {
                    ResidentModel {
                        archive: ArchiveModel { job: None, ..old(self)@.archive.failing(id) },
                        ..old(self)@
                    }
                },
            }),
    {
        let owned = match self.archive.job {
            Some(id) => self.recovery.spills.entry(id).is_some(),
            None => false,
        };
        let result = if !compressed {
            ArchiveResult::Failed
        } else if owned {
            ArchiveResult::Replaced
        } else {
            ArchiveResult::Dropped
        };
        match self.archive.finish_archive(result) {
            Some(id) => {
                let settled = self.history.archive(id);
                Some(id)
            },
            None => None,
        }
    }

    /// What to do so that `incoming` bytes fit in the history. `job_ended` says whether the running
    /// compression has ended.
    pub fn make_history_room(
        &mut self,
        incoming: u64,
        job_ended: bool,
        compressed: &Vec<GpuHistoryId>,
    ) -> (room: HistoryRoom)
        requires
            old(self).wf(),
        ensures
            final(self).wf(),
            room.step == old(self)@.archive.room_step(
                old(self)@.history.resident() as u64,
                old(self)@.history.max_bytes,
                incoming,
                job_ended,
            ),
            if room.step == RoomStep::Start {
                &&& room.begun == old(self)@.next_archive_step(0, compressed@)
                &&& final(self)@ == old(self)@.archive_begun(0, compressed@)
            } else {
                &&& room.begun == ArchiveStep::Idle
                &&& final(self)@ == old(self)@
            },
    {
        let step = self.archive.make_history_room(
            self.history.resident_bytes(),
            self.history.max_bytes(),
            incoming,
            job_ended,
        );
        let begun = match step {
            RoomStep::Start => self.start_archive(0, compressed),
            _ => ArchiveStep::Idle,
        };
        HistoryRoom { step, begun }
    }
}

} // verus!
