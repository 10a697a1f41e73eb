//! Which entries of the history are compressed, and when.

use crate::gpu_document_history::GpuHistoryId;
use vstd::prelude::*;

verus! {

/// How many edits on each side stay ready on the device while there is no need for room.
pub const KEPT_EDITS: usize = 2;

/// Why pixels could not be brought back from the store.
#[derive(Clone, Copy, Debug, PartialEq, Eq, Structural)]
pub enum ArchiveError {
    /// There is no room for them in the history.
    Full,
    /// The store does not have them.
    Unavailable,
}

/// What an entry of the history has that could be compressed.
#[derive(Clone, Copy, Debug, PartialEq, Eq, Structural)]
pub enum CandidateState {
    /// Its pixels have not been read back.
    Unspilled,
    Ready,
    /// Its pixels are compressed already; the history still holds them too.
    Archived,
}

#[derive(Clone, Copy, Debug, PartialEq, Eq, Structural)]
pub struct ArchiveCandidate {
    pub id: GpuHistoryId,
    pub state: CandidateState,
}

/// What to do next.
#[derive(Clone, Copy, Debug, PartialEq, Eq, Structural)]
pub enum ArchiveStep {
    Idle,
    /// Let the history give up pixels that are compressed already.
    Settle(GpuHistoryId),
    /// Compress the pixels of an entry, away from the input.
    Compress(GpuHistoryId),
}

/// What has come of a compression.
#[derive(Clone, Copy, Debug, PartialEq, Eq, Structural)]
pub enum ArchiveResult {
    /// The compressed pixels have taken the place of the others.
    Replaced,
    /// The entry was gone by then.
    Dropped,
    Failed,
}

/// What to do to make room in the history.
#[derive(Clone, Copy, Debug, PartialEq, Eq, Structural)]
pub enum RoomStep {
    Enough,
    /// There is room. A compression that has ended can be taken in.
    FinishAndStop,
    /// Wait for the running compression, then look again.
    Finish,
    /// Begin with the next entry, then look again.
    Start,
}

/// A step towards room in the history.
#[derive(Clone, Copy, Debug, PartialEq, Eq, Structural)]
pub struct HistoryRoom {
    pub step: RoomStep,
    /// What was begun, where the step was to begin something.
    pub begun: ArchiveStep,
}

/// The first candidate that can be worked on, and what is done with it.
pub open spec fn chosen(
    failed: Seq<GpuHistoryId>,
    candidates: Seq<ArchiveCandidate>,
) -> ArchiveStep
    decreases candidates.len(),
{
    if candidates.len() == 0 {
        ArchiveStep::Idle
    } else {
        let first = candidates[0];
        if failed.contains(first.id) || first.state == CandidateState::Unspilled {
            chosen(failed, candidates.drop_first())
        } else if first.state == CandidateState::Archived {
            ArchiveStep::Settle(first.id)
        } else {
            ArchiveStep::Compress(first.id)
        }
    }
}

/// The failed entries that the history still owns.
pub open spec fn still_owned(failed: Seq<GpuHistoryId>, owned: Seq<GpuHistoryId>) -> Seq<
    GpuHistoryId,
>
    decreases failed.len(),
{
    if failed.len() == 0 {
        Seq::empty()
    } else {
        let rest = still_owned(failed.drop_last(), owned);
        if owned.contains(failed.last()) {
            rest.push(failed.last())
        } else {
            rest
        }
    }
}

/// The failed entries with one more.
pub open spec fn with_failed(failed: Seq<GpuHistoryId>, id: GpuHistoryId) -> Seq<GpuHistoryId> {
    if failed.contains(id) {
        failed
    } else {
        failed.push(id)
    }
}

pub struct ArchiveModel {
    pub enabled: bool,
    pub job: Option<GpuHistoryId>,
    pub failed: Seq<GpuHistoryId>,
}

impl ArchiveModel {
    /// The archive that will not try the entry again.
    pub open spec fn failing(self, id: GpuHistoryId) -> ArchiveModel {
        ArchiveModel { failed: with_failed(self.failed, id), ..self }
    }

    pub open spec fn room_step(
        self,
        resident_bytes: u64,
        max_bytes: u64,
        incoming: u64,
        job_ended: bool,
    ) -> RoomStep {
        if !self.enabled {
            RoomStep::Enough
        } else if resident_bytes + incoming <= max_bytes || resident_bytes == 0 {
            if self.job is Some && job_ended {
                RoomStep::FinishAndStop
            } else {
                RoomStep::Enough
            }
        } else if self.job is Some {
            RoomStep::Finish
        } else {
            RoomStep::Start
        }
    }
}

/// Keeps the compression of the history to one entry at a time.
#[derive(Debug)]
pub struct HistoryArchive {
    pub(crate) enabled: bool,
    pub(crate) job: Option<GpuHistoryId>,
    pub(crate) failed: Vec<GpuHistoryId>,
}

impl View for HistoryArchive {
    type V = ArchiveModel;

    open(crate) spec fn view(&self) -> ArchiveModel {
        ArchiveModel { enabled: self.enabled, job: self.job, failed: self.failed@ }
    }
}

pub(crate) fn lists(ids: &Vec<GpuHistoryId>, id: GpuHistoryId) -> (found: bool)
    ensures
        found == ids@.contains(id),
{
    let mut i: usize = 0;
    while i < ids.len()
        invariant
            i <= ids@.len(),
            forall|k: int| 0 <= k < i ==> #[trigger] ids@[k] != id,
        decreases ids@.len() - i,
    {
        if ids[i].get() == id.get() {
            assert(ids@[i as int] == id);
            return true;
        }
        i += 1;
    }
    false
}

impl HistoryArchive {
    /// An archive that has no store yet.
    pub fn new() -> (archive: HistoryArchive)
        ensures
            archive@ == (ArchiveModel { enabled: false, job: None, failed: Seq::empty() }),
    {
        HistoryArchive { enabled: false, job: None, failed: Vec::new() }
    }

    pub fn enable_history_archive(&mut self)
        ensures
            final(self)@ == (ArchiveModel { enabled: true, ..old(self)@ }),
    {
        self.enabled = true;
    }

    pub fn archive_busy(&self) -> (busy: bool)
        ensures
            busy == (self@.job is Some),
    {
        self.job.is_some()
    }

    fn forget_unowned(&mut self, owned: &Vec<GpuHistoryId>)
        ensures
            final(self)@ == (ArchiveModel {
                failed: still_owned(old(self)@.failed, owned@),
                ..old(self)@
            }),
    {
        let ghost failed = self.failed@;
        let mut kept: Vec<GpuHistoryId> = Vec::new();
        let mut i: usize = 0;
        while i < self.failed.len()
            invariant
                failed == self.failed@,
                self@ == old(self)@,
                i <= failed.len(),
                kept@ == still_owned(failed.subrange(0, i as int), owned@),
            decreases failed.len() - i,
        {
            let id = self.failed[i];
            proof {
                assert(failed.subrange(0, i + 1).drop_last() =~= failed.subrange(0, i as int));
                assert(failed.subrange(0, i + 1).last() == id);
            }
            if lists(owned, id) {
                kept.push(id);
            }
            i += 1;
        }
        assert(failed.subrange(0, i as int) =~= failed);
        self.failed = kept;
    }

    fn choose_candidate(&self, candidates: &Vec<ArchiveCandidate>) -> (step: ArchiveStep)
        ensures
            step == chosen(self@.failed, candidates@),
    {
        let ghost all = candidates@;
        let mut i: usize = 0;
        assert(all.subrange(0, all.len() as int) =~= all);
        while i < candidates.len()
            invariant
                all == candidates@,
                i <= all.len(),
                chosen(self@.failed, all) == chosen(
                    self@.failed,
                    all.subrange(i as int, all.len() as int),
                ),
            decreases all.len() - i,
        {
            let candidate = candidates[i];
            let ghost rest = all.subrange(i as int, all.len() as int);
            proof {
                assert(rest[0] == candidate);
                assert(rest.drop_first() =~= all.subrange(i + 1, all.len() as int));
            }
            if !lists(&self.failed, candidate.id) {
                match candidate.state {
                    CandidateState::Unspilled => {},
                    CandidateState::Ready => {
                        return ArchiveStep::Compress(candidate.id);
                    },
                    CandidateState::Archived => {
                        return ArchiveStep::Settle(candidate.id);
                    },
                }
            }
            i += 1;
        }
        assert(all.subrange(i as int, all.len() as int) =~= Seq::<ArchiveCandidate>::empty());
        ArchiveStep::Idle
    }

    /// What to do with the candidates, oldest first. Nothing while a compression runs. Entries that
    /// the history no longer owns are no longer remembered as failed.
    pub fn start_archive(
        &mut self,
        owned: &Vec<GpuHistoryId>,
        candidates: &Vec<ArchiveCandidate>,
    ) -> (step: ArchiveStep)
        ensures
            !old(self)@.enabled || old(self)@.job is Some ==> step == ArchiveStep::Idle
                && final(self)@ == old(self)@,
            old(self)@.enabled && old(self)@.job is None ==> {
                let failed = still_owned(old(self)@.failed, owned@);
                &&& step == chosen(failed, candidates@)
                &&& final(self)@ == (ArchiveModel { failed, ..old(self)@ })
            },
    {
        if !self.enabled || self.job.is_some() {
            return ArchiveStep::Idle;
        }
        self.forget_unowned(owned);
        self.choose_candidate(candidates)
    }

    /// Notes that the compression of an entry runs.
    pub fn compression_started(&mut self, id: GpuHistoryId)
        requires
            old(self)@.job is None,
        ensures
            final(self)@ == (ArchiveModel { job: Some(id), ..old(self)@ }),
    {
        self.job = Some(id);
    }

    fn note_failure(&mut self, id: GpuHistoryId)
        ensures
            final(self)@ == (ArchiveModel {
                failed: with_failed(old(self)@.failed, id),
                ..old(self)@
            }),
    {
        if !lists(&self.failed, id) {
            self.failed.push(id);
        }
    }

    /// Notes that the compression of an entry could not begin.
    pub fn compression_refused(&mut self, id: GpuHistoryId)
        ensures
            final(self)@ == (ArchiveModel {
                failed: with_failed(old(self)@.failed, id),
                ..old(self)@
            }),
    {
        self.note_failure(id);
    }

    /// Ends the running compression. Gives the entry that the history settles, if there is one; an
    /// entry that failed is not tried again.
    pub fn finish_archive(&mut self, result: ArchiveResult) -> (settled: Option<GpuHistoryId>)
        ensures
            match old(self)@.job {
                None => settled is None && final(self)@ == old(self)@,
                Some(id) => {
                    &&& settled == (if result == ArchiveResult::Replaced {
                        Some(id)
                    } else {
                        None
                    })
                    &&& final(self)@ == (ArchiveModel {
                        job: None,
                        failed: if result == ArchiveResult::Replaced {
                            old(self)@.failed
                        } else {
                            with_failed(old(self)@.failed, id)
                        },
                        ..old(self)@
                    })
                },
            },
    {
        match self.job {
            None => None,
            Some(id) => {
                self.job = None;
                match result {
                    ArchiveResult::Replaced => Some(id),
                    ArchiveResult::Dropped => {
                        self.note_failure(id);
                        None
                    },
                    ArchiveResult::Failed => {
                        self.note_failure(id);
                        None
                    },
                }
            },
        }
    }

    /// What to do so that `incoming` bytes fit in the history.
    pub fn make_history_room(
        &self,
        resident_bytes: u64,
        max_bytes: u64,
        incoming: u64,
        job_ended: bool,
    ) -> (step: RoomStep)
        ensures
            step == self@.room_step(resident_bytes, max_bytes, incoming, job_ended),
    {
        if !self.enabled {
            return RoomStep::Enough;
        }
        let target: u64 = if incoming <= max_bytes {
            max_bytes - incoming
        } else {
            0
        };
        if resident_bytes <= target {
            if self.job.is_some() && job_ended {
                RoomStep::FinishAndStop
            } else {
                RoomStep::Enough
            }
        } else if self.job.is_some() {
            RoomStep::Finish
        } else {
            RoomStep::Start
        }
    }
}

/// An entry that failed is not chosen again, and what is chosen is a candidate.
pub proof fn law_failed_entries_are_not_chosen(
    failed: Seq<GpuHistoryId>,
    candidates: Seq<ArchiveCandidate>,
)
    ensures
        match chosen(failed, candidates) {
            ArchiveStep::Idle => forall|i: int|
                #![trigger candidates[i]]
                0 <= i < candidates.len() ==> failed.contains(candidates[i].id)
                    || candidates[i].state == CandidateState::Unspilled,
            ArchiveStep::Settle(id) => !failed.contains(id) && candidates.contains(
                ArchiveCandidate { id, state: CandidateState::Archived },
            ),
            ArchiveStep::Compress(id) => !failed.contains(id) && candidates.contains(
                ArchiveCandidate { id, state: CandidateState::Ready },
            ),
        },
    decreases candidates.len(),
{
    if candidates.len() > 0 {
        let first = candidates[0];
        let rest = candidates.drop_first();
        if failed.contains(first.id) || first.state == CandidateState::Unspilled {
            law_failed_entries_are_not_chosen(failed, rest);
            assert forall|candidate: ArchiveCandidate| rest.contains(candidate) implies #[trigger]
            candidates.contains(candidate) by {
                let k = choose|k: int| 0 <= k < rest.len() && rest[k] == candidate;
                assert(candidates[k + 1] == candidate);
            }
            assert forall|i: int|
                #![trigger candidates[i]]
                0 < i < candidates.len() implies candidates[i] == rest[i - 1] by {}
        } else {
            assert(candidates.contains(first));
        }
    }
}

} // verus!
